//! What is read off a run's record: how much of the rate was used, how far it was overshot, what
//! was throttled for nothing, and how the tree recovered.

use vstd::prelude::*;
use vstd::slice::slice_subrange;

use super::World;

verus! {

/// The part of a record in ticks `from..to`; ticks past its end are not in it.
pub open spec fn window_of<T>(record: Seq<T>, from: u64, to: u64) -> Seq<T> {
    let end = if to < record.len() {
        to as int
    } else {
        record.len() as int
    };
    let start = if from < end {
        from as int
    } else {
        end
    };
    record.subrange(start, end)
}

/// The sum of a record.
pub open spec fn sum_of(record: Seq<u64>) -> nat
    decreases record.len(),
{
    if record.len() == 0 {
        0
    } else {
        sum_of(record.drop_last()) + record.last() as nat
    }
}

/// What was throttled at a tick although the rate had room: no more than the room there was.
pub open spec fn false_throttles_at(admitted: u64, throttled: u64, rate: u64) -> u64 {
    let room = if admitted < rate {
        (rate - admitted) as u64
    } else {
        0
    };
    if throttled < room {
        throttled
    } else {
        room
    }
}

/// What was throttled, tick by tick, although the rate had room.
pub open spec fn false_throttles(admitted: Seq<u64>, throttled: Seq<u64>, rate: u64) -> Seq<u64> {
    Seq::new(
        admitted.len(),
        |i: int| false_throttles_at(admitted[i], throttled[i], rate),
    )
}

/// The largest of a record, or zero where it is empty.
pub open spec fn max_of(record: Seq<u16>) -> u16
    decreases record.len(),
{
    if record.len() == 0 {
        0
    } else {
        let front = max_of(record.drop_last());
        if record.last() > front {
            record.last()
        } else {
            front
        }
    }
}

/// `ok` holds `need` times in a row, from `start` on.
pub open spec fn run_at(ok: Seq<bool>, start: int, need: int) -> bool {
    &&& 0 <= start
    &&& start + need <= ok.len()
    &&& forall|i: int| start <= i < start + need ==> #[trigger] ok[i]
}

/// The first place, from `from` on, where `ok` holds `need` times in a row.
pub open spec fn is_first_run(ok: Seq<bool>, from: int, need: int, found: Option<usize>) -> bool {
    match found {
        Some(start) => {
            &&& from <= start
            &&& run_at(ok, start as int, need)
            &&& forall|s: int| from <= s < start ==> !#[trigger] run_at(ok, s, need)
        },
        None => forall|s: int| from <= s ==> !#[trigger] run_at(ok, s, need),
    }
}

/// Whether each depth is within a hop of `before`.
pub open spec fn near(depths: Seq<u16>, before: u16) -> Seq<bool> {
    depths.map_values(|d: u16| d <= before + 1)
}

/// The sum of a part is no more than the sum of the whole.
proof fn lemma_sum_grows(record: Seq<u64>, n: int)
    requires
        0 <= n <= record.len(),
    ensures
        sum_of(record.take(n)) <= sum_of(record),
    decreases record.len() - n,
{
    if n == record.len() {
        assert(record.take(n) =~= record);
    } else {
        lemma_sum_grows(record, n + 1);
        assert(record.take(n + 1).drop_last() =~= record.take(n));
    }
}

/// The part of a record in ticks `from..to`.
#[must_use]
pub fn window_slice<T>(record: &[T], from: u64, to: u64) -> (part: &[T])
    ensures
        part@ == window_of(record@, from, to),
{
    let len: usize = record.len();
    let end: usize = if to < len as u64 {
        to as usize
    } else {
        len
    };
    let start: usize = if from < end as u64 {
        from as usize
    } else {
        end
    };
    slice_subrange(record, start, end)
}

/// The sum of a record.
fn sum(record: &[u64]) -> (total: u64)
    requires
        sum_of(record@) <= u64::MAX,
    ensures
        total == sum_of(record@),
{
    let mut total: u64 = 0;
    let mut i: usize = 0;
    while i < record.len()
        invariant
            i <= record@.len(),
            sum_of(record@) <= u64::MAX,
            total == sum_of(record@.take(i as int)),
        decreases record.len() - i,
    {
        proof {
            lemma_sum_grows(record@, i + 1);
            assert(record@.take(i + 1).drop_last() =~= record@.take(i as int));
        }
        total = total + record[i];
        i += 1;
    }
    proof {
        assert(record@.take(i as int) =~= record@);
    }
    total
}

/// The largest of a record, or zero where it is empty.
fn largest(record: &[u16]) -> (most: u16)
    ensures
        most == max_of(record@),
{
    let mut most: u16 = 0;
    let mut i: usize = 0;
    while i < record.len()
        invariant
            i <= record@.len(),
            most == max_of(record@.take(i as int)),
        decreases record.len() - i,
    {
        proof {
            assert(record@.take(i + 1).drop_last() =~= record@.take(i as int));
        }
        if record[i] > most {
            most = record[i];
        }
        i += 1;
    }
    proof {
        assert(record@.take(i as int) =~= record@);
    }
    most
}

/// Where `ok` first holds `need` times in a row, from `from` on.
#[must_use]
pub fn first_run(ok: &[bool], from: usize, need: usize) -> (found: Option<usize>)
    requires
        need > 0,
    ensures
        is_first_run(ok@, from as int, need as int, found),
{
    let mut streak: usize = 0;
    let mut k: usize = from;
    while k < ok.len()
        invariant
            need > 0,
            from <= k,
            k <= ok@.len() || k == from,
            streak < need,
            streak <= k - from,
            forall|i: int| k - streak <= i < k ==> #[trigger] ok@[i],
            streak == k - from || !ok@[k - streak - 1],
            forall|s: int| from <= s && s + need <= k ==> !#[trigger] run_at(ok@, s, need as int),
        decreases ok.len() - k,
    {
        if ok[k] {
            streak += 1;
        } else {
            streak = 0;
        }
        k += 1;
        if streak >= need {
            proof {
                let start = k - need;
                assert(run_at(ok@, start, need as int));
                assert forall|s: int| from <= s < start implies !#[trigger] run_at(
                    ok@,
                    s,
                    need as int,
                ) by {
                    assert(s + need <= k - 1);
                }
            }
            return Some(k - need);
        }
        proof {
            assert forall|s: int| from <= s && s + need <= k implies !#[trigger] run_at(
                ok@,
                s,
                need as int,
            ) by {
                if s + need == k {
                    let bad = k - streak - 1;
                    assert(s <= bad < s + need);
                    assert(!ok@[bad]);
                }
            }
        }
    }
    None
}

/// How a flow that may have dipped recovered: `ok` says of each tick whether the flow is where it
/// should be. The first number is how many ticks after `down` the flow first was not; the second,
/// how many ticks it then took until it was again for five ticks in a row.
#[must_use]
pub fn dip(ok: &[bool], down: usize) -> (found: (Option<usize>, Option<usize>))
    ensures
        match found.0 {
            Some(after) => {
                &&& down + after < ok@.len()
                &&& !ok@[down + after]
                &&& forall|i: int| down <= i < down + after ==> #[trigger] ok@[i]
                &&& match found.1 {
                    Some(len) => {
                        &&& down + after + len <= usize::MAX
                        &&& is_first_run(
                            ok@,
                            down + after,
                            5,
                            Some((down + after + len) as usize),
                        )
                    },
                    None => is_first_run(ok@, down + after, 5, None),
                }
            },
            None => {
                &&& forall|i: int| down <= i < ok@.len() ==> #[trigger] ok@[i]
                &&& found.1 is None
            },
        },
{
    let mut k: usize = down;
    while k < ok.len()
        invariant
            down <= k,
            k <= ok@.len() || k == down,
            forall|i: int| down <= i < k ==> #[trigger] ok@[i],
        decreases ok.len() - k,
    {
        if !ok[k] {
            return match first_run(ok, k, 5) {
                Some(back) => (Some(k - down), Some(back - k)),
                None => (Some(k - down), None),
            };
        }
        k += 1;
    }
    (None, None)
}

impl<M> World<M> {
    /// What was admitted in ticks `from..to`, and what the rate allowed; `None` where no tick is
    /// in that window. A token bucket bursts for a tick; a rate is an average.
    #[must_use]
    pub fn utilization_in(&self, from: u64, to: u64) -> (used: Option<(u64, u64)>)
        requires
            sum_of(window_of(self@.admitted_by_tick, from, to)) <= u64::MAX,
            self@.p.rate * window_of(self@.admitted_by_tick, from, to).len() <= u64::MAX,
        ensures
            ({
                let w = window_of(self@.admitted_by_tick, from, to);
                match used {
                    Some((admitted, allowed)) => {
                        &&& w.len() > 0
                        &&& admitted == sum_of(w)
                        &&& allowed == self@.p.rate * w.len()
                    },
                    None => w.len() == 0,
                }
            }),
    {
        let w = window_slice(&self.admitted_by_tick, from, to);
        if w.len() == 0 {
            return None;
        }
        Some((sum(w), self.p.rate * (w.len() as u64)))
    }

    /// How far the cluster admitted over the rate in ticks `from..to`, and what the rate allowed;
    /// `None` where no tick is in that window.
    #[must_use]
    pub fn overshoot_in(&self, from: u64, to: u64) -> (over: Option<(u64, u64)>)
        requires
            sum_of(window_of(self@.admitted_by_tick, from, to)) <= u64::MAX,
            self@.p.rate * window_of(self@.admitted_by_tick, from, to).len() <= u64::MAX,
        ensures
            ({
                let w = window_of(self@.admitted_by_tick, from, to);
                match over {
                    Some((excess, allowed)) => {
                        &&& w.len() > 0
                        &&& allowed == self@.p.rate * w.len()
                        &&& excess == if sum_of(w) > allowed {
                            sum_of(w) - allowed
                        } else {
                            0
                        }
                    },
                    None => w.len() == 0,
                }
            }),
    {
        match self.utilization_in(from, to) {
            Some((admitted, allowed)) => Some((admitted.saturating_sub(allowed), allowed)),
            None => None,
        }
    }

    /// Requests throttled in ticks `from..to` in which the cluster admitted less than the rate:
    /// the rate had room and a node refused anyway.
    #[must_use]
    pub fn false_throttles_in(&self, from: u64, to: u64) -> (throttled: u64)
        requires
            self@.sound(),
            sum_of(
                false_throttles(
                    window_of(self@.admitted_by_tick, from, to),
                    window_of(self@.throttled_by_tick, from, to),
                    self@.p.rate,
                ),
            ) <= u64::MAX,
        ensures
            throttled == sum_of(
                false_throttles(
                    window_of(self@.admitted_by_tick, from, to),
                    window_of(self@.throttled_by_tick, from, to),
                    self@.p.rate,
                ),
            ),
            throttled <= sum_of(window_of(self@.throttled_by_tick, from, to)),
    {
        let a = window_slice(&self.admitted_by_tick, from, to);
        let t = window_slice(&self.throttled_by_tick, from, to);
        let ghost each = false_throttles(a@, t@, self.p.rate);
        let mut total: u64 = 0;
        let mut i: usize = 0;
        while i < a.len()
            invariant
                i <= a@.len(),
                a@.len() == t@.len(),
                each == false_throttles(a@, t@, self.p.rate),
                sum_of(each) <= u64::MAX,
                total == sum_of(each.take(i as int)),
            decreases a.len() - i,
        {
            proof {
                lemma_sum_grows(each, i + 1);
                assert(each.take(i + 1).drop_last() =~= each.take(i as int));
            }
            let room: u64 = self.p.rate.saturating_sub(a[i]);
            total = total + if t[i] < room {
                t[i]
            } else {
                room
            };
            i += 1;
        }
        proof {
            assert(each.take(i as int) =~= each);
            law_false_throttles_are_no_more_than_was_throttled(a@, t@, self.p.rate);
        }
        total
    }

    /// How the tree recovered from what happened at tick `at`: how deep it was at most in the
    /// twenty ticks before, how deep at most after, and how many ticks after it first was back
    /// within one hop of before, for ten ticks in a row.
    #[must_use]
    pub fn depth_recovery(&self, at: u64) -> (found: (u16, u16, Option<usize>))
        requires
            21 <= at <= self@.depth_by_tick.len(),
        ensures
            ({
                let after = self@.depth_by_tick.skip(at as int);
                &&& found.0 == max_of(
                    window_of(self@.depth_by_tick, (at - 21) as u64, (at - 1) as u64),
                )
                &&& found.1 == max_of(after)
                &&& is_first_run(near(after, found.0), 0, 10, found.2)
            }),
    {
        // The record's first entry is tick one; the event's own tick stays out of "before".
        let before: u16 = largest(window_slice(&self.depth_by_tick, at - 21, at - 1));
        let len: usize = self.depth_by_tick.len();
        let after = slice_subrange(self.depth_by_tick.as_slice(), at as usize, len);
        proof {
            assert(after@ =~= self@.depth_by_tick.skip(at as int));
        }
        let peak: u16 = largest(after);
        let mut ok: Vec<bool> = Vec::new();
        let mut i: usize = 0;
        while i < after.len()
            invariant
                i <= after@.len(),
                ok@.len() == i,
                forall|j: int| 0 <= j < i ==> #[trigger] ok@[j] == (after@[j] <= before + 1),
            decreases after.len() - i,
        {
            ok.push((after[i] as u32) <= (before as u32) + 1);
            i += 1;
        }
        proof {
            assert(ok@ =~= near(after@, before));
        }
        (before, peak, first_run(&ok, 0, 10))
    }
}

/// A window holds the ticks from the first up to the second, as far as the record goes, in order.
pub proof fn law_a_window_is_the_record_between_two_ticks<T>(record: Seq<T>, from: u64, to: u64)
    ensures
        forall|i: int|
            0 <= i < window_of(record, from, to).len() ==> from + i < to && from + i < record.len()
                && #[trigger] window_of(record, from, to)[i] == record[from + i],
        forall|t: int| #![trigger record[t]]
            from <= t < to && t < record.len() ==> t - from < window_of(record, from, to).len(),
{
}

/// The sum of a record is that of its parts, and of one tick what was recorded at it.
pub proof fn law_a_sum_is_that_of_its_parts(a: Seq<u64>, b: Seq<u64>, x: u64)
    ensures
        sum_of(a + b) == sum_of(a) + sum_of(b),
        sum_of(seq![x]) == x,
        sum_of(Seq::empty()) == 0,
    decreases b.len(),
{
    reveal_with_fuel(sum_of, 2);
    assert(seq![x].drop_last() =~= Seq::<u64>::empty());
    if b.len() == 0 {
        assert(a + b =~= a);
    } else {
        law_a_sum_is_that_of_its_parts(a, b.drop_last(), x);
        assert((a + b).drop_last() =~= a + b.drop_last());
    }
}

/// The largest of a record is in it, and nothing in it is larger; of no record it is zero.
pub proof fn law_the_largest_is_the_largest(record: Seq<u16>)
    ensures
        forall|i: int| 0 <= i < record.len() ==> #[trigger] record[i] <= max_of(record),
        record.len() > 0 ==> record.contains(max_of(record)),
        record.len() == 0 ==> max_of(record) == 0,
    decreases record.len(),
{
    if record.len() > 0 {
        let front = record.drop_last();
        law_the_largest_is_the_largest(front);
        assert(record[record.len() - 1] == record.last());
        assert forall|i: int| 0 <= i < record.len() implies #[trigger] record[i] <= max_of(
            record,
        ) by {
            if i < front.len() {
                assert(front[i] == record[i]);
            }
        }
        if max_of(record) != record.last() {
            assert(front.len() > 0);
            let k = front.index_of(max_of(front));
            assert(record[k] == max_of(record));
        }
    }
}

/// What counts as throttled for nothing at a tick is no more than was throttled, no more than the
/// room the rate had, and one of the two; so nothing where nothing was throttled, and nothing where
/// the rate was used up.
pub proof fn law_a_false_throttle_was_throttled_and_had_room(
    admitted: u64,
    throttled: u64,
    rate: u64,
)
    ensures
        false_throttles_at(admitted, throttled, rate) <= throttled,
        admitted <= rate ==> admitted + false_throttles_at(admitted, throttled, rate) <= rate,
        admitted <= rate ==> false_throttles_at(admitted, throttled, rate) == throttled || admitted
            + false_throttles_at(admitted, throttled, rate) == rate,
        throttled == 0 ==> false_throttles_at(admitted, throttled, rate) == 0,
        admitted >= rate ==> false_throttles_at(admitted, throttled, rate) == 0,
        admitted + throttled <= rate ==> false_throttles_at(admitted, throttled, rate) == throttled,
{
}

/// What counts as throttled for nothing in a window is counted tick by tick, and is never more than
/// what was throttled in it; it is all of that where the demand never passed the rate, and nothing
/// where the rate was used up at every tick.
pub proof fn law_false_throttles_are_no_more_than_was_throttled(
    admitted: Seq<u64>,
    throttled: Seq<u64>,
    rate: u64,
)
    requires
        admitted.len() == throttled.len(),
    ensures
        false_throttles(admitted, throttled, rate).len() == admitted.len(),
        forall|i: int|
            0 <= i < admitted.len() ==> {
                let counted = #[trigger] false_throttles(admitted, throttled, rate)[i];
                &&& counted <= throttled[i]
                &&& admitted[i] <= rate ==> admitted[i] + counted <= rate
                &&& admitted[i] <= rate ==> counted == throttled[i] || admitted[i] + counted == rate
                &&& admitted[i] >= rate ==> counted == 0
            },
        sum_of(false_throttles(admitted, throttled, rate)) <= sum_of(throttled),
        (forall|i: int| 0 <= i < admitted.len() ==> #[trigger] admitted[i] + throttled[i] <= rate)
            ==> sum_of(false_throttles(admitted, throttled, rate)) == sum_of(throttled),
        (forall|i: int| 0 <= i < admitted.len() ==> #[trigger] admitted[i] >= rate) ==> sum_of(
            false_throttles(admitted, throttled, rate),
        ) == 0,
    decreases admitted.len(),
{
    if admitted.len() > 0 {
        let (a, t) = (admitted.drop_last(), throttled.drop_last());
        law_false_throttles_are_no_more_than_was_throttled(a, t, rate);
        assert(false_throttles(admitted, throttled, rate).drop_last() =~= false_throttles(
            a,
            t,
            rate,
        ));
        let n = admitted.len() - 1;
        assert(admitted[n] == admitted.last());
        assert forall|i: int| 0 <= i < a.len() implies #[trigger] a[i] == admitted[i] && t[i]
            == throttled[i] by {}
        if forall|i: int| 0 <= i < admitted.len() ==> #[trigger] admitted[i] + throttled[i] <= rate {
            assert(forall|i: int| 0 <= i < a.len() ==> #[trigger] a[i] + t[i] <= rate);
        }
        if forall|i: int| 0 <= i < admitted.len() ==> #[trigger] admitted[i] >= rate {
            assert(forall|i: int| 0 <= i < a.len() ==> #[trigger] a[i] >= rate);
        }
    }
}

/// A run found is a run, inside the record and no earlier than asked for, and there is none that
/// starts before it: any earlier start runs into a tick that does not hold, or past the end. Where
/// none is found every start does.
pub proof fn law_the_first_run_is_the_first(
    ok: Seq<bool>,
    from: nat,
    need: nat,
    found: Option<usize>,
    earlier: nat,
)
    requires
        is_first_run(ok, from as int, need as int, found),
    ensures
        found matches Some(start) ==> from <= start && start + need <= ok.len() && forall|i: int|
            start <= i < start + need ==> #[trigger] ok[i],
        from <= earlier && (found is None || earlier < found.unwrap()) && earlier + need <= ok.len()
            ==> exists|i: int| earlier <= i < earlier + need && !#[trigger] ok[i],
{
    if from <= earlier && (found is None || earlier < found.unwrap()) && earlier + need
        <= ok.len() {
        assert(!run_at(ok, earlier as int, need as int));
    }
}

/// A depth is near another where it is at most one deeper, tick by tick.
pub proof fn law_near_is_at_most_one_deeper(depths: Seq<u16>, before: u16)
    ensures
        near(depths, before).len() == depths.len(),
        forall|i: int|
            0 <= i < depths.len() && depths[i] <= before ==> #[trigger] near(depths, before)[i],
        forall|i: int|
            0 <= i < depths.len() && depths[i] == before + 1 ==> #[trigger] near(depths, before)[i],
        forall|i: int|
            0 <= i < depths.len() && depths[i] > before + 1 ==> !#[trigger] near(depths, before)[i],
{
}

} // verus!
