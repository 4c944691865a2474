//! Things that happen later: a list of what is to come, each with the tick it is due.

use std::collections::VecDeque;

use vstd::prelude::*;

verus! {

/// Something that is due at a tick.
#[derive(Debug, PartialEq, Eq)]
pub struct Timed<T> {
    /// The tick.
    pub due: u64,
    /// What is due.
    pub what: T,
}

/// What is due by `now`, in the order it was queued.
pub open spec fn due_by<T>(queue: Seq<Timed<T>>, now: u64) -> Seq<Timed<T>> {
    queue.filter(|t: Timed<T>| t.due <= now)
}

/// What is due only after `now`, in the order it was queued.
pub open spec fn due_after<T>(queue: Seq<Timed<T>>, now: u64) -> Seq<Timed<T>> {
    queue.filter(|t: Timed<T>| t.due > now)
}

/// Takes out of `queue` what is due by `now`, and leaves the rest; neither changes order.
pub fn take_due<T>(queue: &mut Vec<Timed<T>>, now: u64) -> (due: VecDeque<Timed<T>>)
    ensures
        due@ == due_by(old(queue)@, now),
        final(queue)@ == due_after(old(queue)@, now),
{
    let mut all: Vec<Timed<T>> = Vec::new();
    all.append(queue);
    let ghost items = all@;
    let ghost early = |t: Timed<T>| t.due <= now;
    let ghost late = |t: Timed<T>| t.due > now;
    let mut due: VecDeque<Timed<T>> = VecDeque::new();
    proof {
        reveal(Seq::filter);
    }
    for t in it: all
        invariant
            it.seq() == items,
            early == (|t: Timed<T>| t.due <= now),
            late == (|t: Timed<T>| t.due > now),
            due@ == items.take(it.index()).filter(early),
            queue@ == items.take(it.index()).filter(late),
    {
        proof {
            reveal(Seq::filter);
            assert(items.take(it.index() + 1).drop_last() =~= items.take(it.index()));
        }
        if t.due <= now {
            due.push_back(t);
        } else {
            queue.push(t);
        }
    }
    proof {
        assert(items.take(items.len() as int) =~= items);
    }
    due
}

/// What a filter lets through of a sequence starts with what it lets through of a prefix.
pub proof fn lemma_filter_prefix<T>(s: Seq<T>, f: spec_fn(T) -> bool, n: int)
    requires
        0 <= n <= s.len(),
    ensures
        s.take(n).filter(f).len() <= s.filter(f).len(),
        s.filter(f).take(s.take(n).filter(f).len() as int) == s.take(n).filter(f),
    decreases s.len() - n,
{
    reveal(Seq::filter);
    if n == s.len() {
        assert(s.take(n) =~= s);
        assert(s.filter(f).take(s.filter(f).len() as int) =~= s.filter(f));
    } else {
        lemma_filter_prefix(s, f, n + 1);
        assert(s.take(n + 1).drop_last() =~= s.take(n));
        let shorter = s.take(n).filter(f);
        let longer = s.take(n + 1).filter(f);
        assert(longer.take(shorter.len() as int) =~= shorter);
        assert(s.filter(f).take(shorter.len() as int) =~= longer.take(shorter.len() as int));
    }
}

/// A queue is split by what is due and by nothing else: what is taken out is due, what stays is
/// not, and between them they hold what the queue held, each item as often as it did.
pub proof fn law_a_queue_is_split_by_what_is_due<T>(queue: Seq<Timed<T>>, now: u64)
    ensures
        forall|i: int|
            0 <= i < due_by(queue, now).len() ==> (#[trigger] due_by(queue, now)[i]).due <= now,
        forall|i: int|
            0 <= i < due_after(queue, now).len() ==> (#[trigger] due_after(queue, now)[i]).due > now,
        due_by(queue, now).to_multiset().add(due_after(queue, now).to_multiset())
            == queue.to_multiset(),
        due_by(queue, now).len() + due_after(queue, now).len() == queue.len(),
    decreases queue.len(),
{
    reveal(Seq::filter);
    queue.to_multiset_ensures();
    if queue.len() > 0 {
        let front = queue.drop_last();
        law_a_queue_is_split_by_what_is_due(front, now);
        front.to_multiset_ensures();
        due_by(front, now).to_multiset_ensures();
        due_after(front, now).to_multiset_ensures();
        assert(front.push(queue.last()) =~= queue);
    } else {
        due_by(queue, now).to_multiset_ensures();
        due_after(queue, now).to_multiset_ensures();
    }
    assert(due_by(queue, now).to_multiset().add(due_after(queue, now).to_multiset())
        =~= queue.to_multiset());
}

/// What is taken out, and what stays, is in the order it was queued in: with one more item at the
/// end of the queue there is one more at the end of one of the two, and the other is as it was.
pub proof fn law_a_queue_keeps_its_order<T>(queue: Seq<Timed<T>>, item: Timed<T>, now: u64)
    ensures
        item.due <= now ==> due_by(queue.push(item), now) == due_by(queue, now).push(item)
            && due_after(queue.push(item), now) == due_after(queue, now),
        item.due > now ==> due_after(queue.push(item), now) == due_after(queue, now).push(item)
            && due_by(queue.push(item), now) == due_by(queue, now),
{
    reveal(Seq::filter);
    assert(queue.push(item).drop_last() =~= queue);
}

} // verus!
