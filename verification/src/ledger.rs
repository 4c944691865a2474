//! The book a lender keeps: what each node has been lent, and how much that is in all.

use std::collections::BTreeMap;

use vstd::prelude::*;
use vstd::std_specs::iter::IteratorSpec;

use crate::keys::{self, copy_key, entries};
use crate::sums;

verus! {

/// What `book` says is lent to `who`.
pub open spec fn held<Id>(book: Map<Id, u64>, who: Id) -> u64 {
    if book.contains_key(who) {
        book[who]
    } else {
        0
    }
}

/// Everything lent, to every node.
pub open spec fn lent<Id>(book: Map<Id, u64>) -> nat {
    sums::sum(book.dom(), |who: Id| book[who] as nat)
}

/// `book` after `who` was lent `give` more. Lending nothing leaves no entry.
pub open spec fn lend<Id>(book: Map<Id, u64>, who: Id, give: u64) -> Map<Id, u64> {
    if give > 0 {
        book.insert(who, (held(book, who) + give) as u64)
    } else {
        book
    }
}

/// `book` after `amount` was taken back from `who`, or all that `who` held if that is less.
pub open spec fn take_back<Id>(book: Map<Id, u64>, who: Id, amount: u64) -> Map<Id, u64> {
    if book.contains_key(who) {
        book.insert(
            who,
            if amount <= book[who] {
                (book[who] - amount) as u64
            } else {
                0
            },
        )
    } else {
        book
    }
}

/// What is left of `ceiling` once `book` is lent out.
pub open spec fn unlent<Id>(book: Map<Id, u64>, ceiling: u64) -> nat {
    if lent(book) <= ceiling {
        (ceiling - lent(book)) as nat
    } else {
        0
    }
}

/// Changing one entry moves the total by the difference.
pub proof fn lemma_lent_after_put<Id>(book: Map<Id, u64>, who: Id, put: u64)
    requires
        book.dom().finite(),
    ensures
        lent(book.insert(who, put)) == lent(book) - held(book, who) + put,
        held(book, who) <= lent(book),
{
    let rest = book.dom().remove(who);
    let next = book.insert(who, put);
    let f = |id: Id| book[id] as nat;
    let g = |id: Id| next[id] as nat;
    if book.contains_key(who) {
        sums::lemma_sum_split(book.dom(), f, who);
    } else {
        assert(rest =~= book.dom());
    }
    sums::lemma_sum_split(next.dom(), g, who);
    assert(next.dom().remove(who) =~= rest);
    sums::lemma_sum_congruent(rest, f, g);
}

/// Taking back what was lent undoes the loan: every node holds what it held, and as much can be
/// lent as before.
pub proof fn law_taking_back_undoes_lending<Id>(
    book: Map<Id, u64>,
    who: Id,
    give: u64,
    ceiling: u64,
)
    requires
        book.dom().finite(),
        held(book, who) + give <= u64::MAX,
    ensures
        forall|id: Id| #[trigger]
            held(take_back(lend(book, who, give), who, give), id) == held(book, id),
        lent(take_back(lend(book, who, give), who, give)) == lent(book),
        unlent(take_back(lend(book, who, give), who, give), ceiling) == unlent(book, ceiling),
{
    let out = lend(book, who, give);
    if give > 0 {
        lemma_lent_after_put(book, who, out[who]);
        lemma_lent_after_put(out, who, take_back(out, who, give)[who]);
    } else if book.contains_key(who) {
        lemma_lent_after_put(book, who, book[who]);
    }
}

/// Total rights lent, over every node in `book`.
pub(crate) fn total_lent<Id: Ord + Clone>(book: &BTreeMap<Id, u64>) -> (total: u64)
    requires
        keys::lawful_key::<Id>(),
        lent(book@) <= u64::MAX,
    ensures
        total == lent(book@),
{
    let mut total: u64 = 0;
    let iter = entries(book);
    let ghost walk = iter.remaining();
    let ghost m = book@;
    let ghost f = |who: Id| m[who] as nat;
    for e in it: iter
        invariant
            it.seq() == walk,
            keys::walks(walk, m),
            m.dom().finite(),
            f == (|who: Id| m[who] as nat),
            lent(m) <= u64::MAX,
            total == sums::sum(keys::keys_of(walk).take(it.index()).to_set(), f),
    {
        proof {
            let n = it.index();
            let seen = keys::keys_of(walk).take(n).to_set();
            keys::lemma_walk_step(walk, m, n);
            sums::lemma_sum_insert(seen, f, *e.0);
            assert(seen.insert(*e.0).subset_of(m.dom())) by {
                assert forall|k: Id| seen.insert(*e.0).contains(k) implies m.dom().contains(k) by {
                    assert(keys::keys_of(walk).take(n + 1).to_set().contains(k));
                    let i = choose|i: int|
                        0 <= i < n + 1 && #[trigger] keys::keys_of(walk).take(n + 1)[i] == k;
                    assert(m.contains_key(keys::keys_of(walk)[i]));
                }
            }
            sums::lemma_sum_subset(seen.insert(*e.0), m.dom(), f);
        }
        total = total + *e.1;
    }
    proof {
        keys::lemma_walk_end(walk, m);
    }
    total
}

/// Lends up to `want` to `who`, within `ceiling`; returns how much.
pub(crate) fn lend_within<Id: Ord + Clone>(
    book: &mut BTreeMap<Id, u64>,
    ceiling: u64,
    who: &Id,
    want: u64,
) -> (give: u64)
    requires
        keys::lawful_key::<Id>(),
        lent(old(book)@) <= ceiling,
    ensures
        give == if want <= unlent(old(book)@, ceiling) {
            want as nat
        } else {
            unlent(old(book)@, ceiling)
        },
        final(book)@ == lend(old(book)@, *who, give),
        lent(final(book)@) == lent(old(book)@) + give,
        lent(final(book)@) <= ceiling,
{
    let room: u64 = ceiling - total_lent(book);
    let give: u64 = if want <= room { want } else { room };
    if give > 0 {
        let had: u64 = match book.get(who) {
            Some(had) => *had,
            None => 0,
        };
        proof {
            lemma_lent_after_put(book@, *who, 0);
            lemma_lent_after_put(book@, *who, (had + give) as u64);
        }
        book.insert(copy_key(who), had + give);
    }
    give
}

/// Takes `amount` back from `who`, or all that `who` holds if that is less.
pub(crate) fn take_back_from<Id: Ord + Clone>(
    book: &mut BTreeMap<Id, u64>,
    who: &Id,
    amount: u64,
)
    requires
        keys::lawful_key::<Id>(),
    ensures
        final(book)@ == take_back(old(book)@, *who, amount),
        lent(final(book)@) <= lent(old(book)@),
{
    let had: Option<u64> = match book.get(who) {
        Some(had) => Some(*had),
        None => None,
    };
    if let Some(had) = had {
        let left: u64 = had - (if amount <= had { amount } else { had });
        proof {
            lemma_lent_after_put(book@, *who, left);
        }
        book.insert(copy_key(who), left);
    }
}

/// A loan moves what one node holds, and the total, by what was lent; no other node's holding
/// moves, and a loan of nothing leaves no entry.
pub proof fn law_a_loan_moves_one_holding<Id>(book: Map<Id, u64>, who: Id, give: u64)
    requires
        book.dom().finite(),
        book.contains_key(who) ==> book[who] + give <= u64::MAX,
    ensures
        book.contains_key(who) ==> lend(book, who, give).contains_key(who) && lend(
            book,
            who,
            give,
        )[who] == book[who] + give,
        !book.contains_key(who) && give > 0 ==> lend(book, who, give).contains_key(who) && lend(
            book,
            who,
            give,
        )[who] == give,
        !book.contains_key(who) && give == 0 ==> !lend(book, who, give).contains_key(who),
        lend(book, who, give).remove(who) == book.remove(who),
        lent(lend(book, who, give)) == lent(book) + give,
{
    assert(lend(book, who, give).remove(who) =~= book.remove(who));
    if give > 0 {
        lemma_lent_after_put(book, who, lend(book, who, give)[who]);
    }
}

/// Taking back moves what one node holds, and the total, by what was taken: what was asked for, or
/// all the node held where that is less. No other node's holding moves.
pub proof fn law_taking_back_moves_one_holding<Id>(book: Map<Id, u64>, who: Id, amount: u64)
    requires
        book.dom().finite(),
    ensures
        take_back(book, who, amount).dom() == book.dom(),
        book.contains_key(who) && amount <= book[who] ==> take_back(book, who, amount)[who] + amount
            == book[who] && lent(take_back(book, who, amount)) + amount == lent(book),
        book.contains_key(who) && amount >= book[who] ==> take_back(book, who, amount)[who] == 0
            && lent(take_back(book, who, amount)) + book[who] == lent(book),
        !book.contains_key(who) ==> lent(take_back(book, who, amount)) == lent(book),
        take_back(book, who, amount).remove(who) == book.remove(who),
{
    assert(take_back(book, who, amount).dom() =~= book.dom());
    assert(take_back(book, who, amount).remove(who) =~= book.remove(who));
    if book.contains_key(who) {
        lemma_lent_after_put(book, who, take_back(book, who, amount)[who]);
    }
}

/// What is lent and what is left make up the ceiling; nothing is left where all of it, or more, is
/// lent. Nothing is lent where nobody holds anything, and the total counts every holding once.
pub proof fn law_lent_and_left_make_up_the_ceiling<Id>(book: Map<Id, u64>, ceiling: u64, who: Id)
    ensures
        lent(book) <= ceiling ==> lent(book) + unlent(book, ceiling) == ceiling,
        lent(book) >= ceiling ==> unlent(book, ceiling) == 0,
        lent(Map::<Id, u64>::empty()) == 0,
        book.dom().finite() && book.contains_key(who) ==> lent(book) == lent(book.remove(who))
            + book[who],
{
    assert(Map::<Id, u64>::empty().dom() =~= Set::<Id>::empty());
    if book.dom().finite() && book.contains_key(who) {
        assert(book.remove(who).insert(who, book[who]) =~= book);
        lemma_lent_after_put(book.remove(who), who, book[who]);
    }
}

} // verus!
