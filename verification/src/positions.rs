//! Positions of a sequence, chosen by a flag for each of them.

use vstd::prelude::*;

verus! {

/// The positions, in ascending order, at which `flags` is true.
pub open spec fn true_positions(flags: Seq<bool>) -> Seq<usize>
    decreases flags.len(),
{
    if flags.len() == 0 {
        Seq::empty()
    } else if flags.last() {
        true_positions(flags.drop_last()).push((flags.len() - 1) as usize)
    } else {
        true_positions(flags.drop_last())
    }
}

/// The positions from `start` up to, not including, `end` at which `flags`
/// is true, in ascending order. Beyond its length `flags` counts as false.
pub open spec fn positions_between(flags: Seq<bool>, start: int, end: int) -> Seq<usize>
    decreases end - start,
{
    if end <= start {
        Seq::empty()
    } else if 0 <= end - 1 < flags.len() && flags[end - 1] {
        positions_between(flags, start, end - 1).push((end - 1) as usize)
    } else {
        positions_between(flags, start, end - 1)
    }
}

/// The first position at which `flags` is true; its length where it is
/// true nowhere.
pub open spec fn first_true(flags: Seq<bool>) -> int
    decreases flags.len(),
{
    if flags.len() == 0 || flags[0] {
        0
    } else {
        1 + first_true(flags.skip(1))
    }
}

/// A position at which `flags` is true and before which it is false is the
/// first at which it is true.
pub proof fn lemma_first_true(flags: Seq<bool>, at: int)
    requires
        0 <= at <= flags.len(),
        forall|j: int| 0 <= j < at ==> !flags[j],
        at < flags.len() ==> flags[at],
    ensures
        first_true(flags) == at,
    decreases at,
{
    if at > 0 {
        let rest = flags.skip(1);
        assert forall|j: int| 0 <= j < at - 1 implies !rest[j] by {
            assert(rest[j] == flags[j + 1]);
        }
        if at < flags.len() {
            assert(rest[at - 1] == flags[at]);
        }
        lemma_first_true(rest, at - 1);
    }
}

/// The first position at which `flags` is true is no less than zero and no
/// more than their length.
pub proof fn lemma_first_true_in_range(flags: Seq<bool>)
    ensures
        0 <= first_true(flags) <= flags.len(),
    decreases flags.len(),
{
    if flags.len() != 0 && !flags[0] {
        lemma_first_true_in_range(flags.skip(1));
    }
}

/// The first position at which `flags` is true is no later than any
/// position at which it is true, and the flag is true there.
pub proof fn lemma_first_true_found(flags: Seq<bool>, at: int)
    requires
        0 <= at < flags.len(),
        flags[at],
    ensures
        first_true(flags) <= at,
        flags[first_true(flags)],
    decreases at,
{
    if at > 0 && !flags[0] {
        let rest = flags.skip(1);
        assert(rest[at - 1] == flags[at]);
        lemma_first_true_found(rest, at - 1);
        lemma_first_true_in_range(rest);
        assert(rest[first_true(rest)] == flags[1 + first_true(rest)]);
    }
}

/// A sequence with one more element holds what it held, and that element.
pub proof fn lemma_push_contains(s: Seq<usize>, v: usize, x: usize)
    ensures
        s.push(v).contains(x) <==> (s.contains(x) || x == v),
{
    let t = s.push(v);
    if t.contains(x) {
        let i = choose|i: int| 0 <= i < t.len() && t[i] == x;
        if i < s.len() {
            assert(s[i] == x);
        }
    }
    if s.contains(x) {
        let i = choose|i: int| 0 <= i < s.len() && s[i] == x;
        assert(t[i] == x);
    }
    if x == v {
        assert(t[s.len() as int] == x);
    }
}

/// What [`true_positions`] holds: exactly the positions at which the flag is
/// true, each below the length, in strictly ascending order.
pub proof fn lemma_true_positions(flags: Seq<bool>)
    requires
        flags.len() <= usize::MAX,
    ensures
        forall|j: int|
            0 <= j < true_positions(flags).len() ==> (#[trigger] true_positions(flags)[j])
                < flags.len() && flags[true_positions(flags)[j] as int],
        forall|p: int|
            0 <= p < flags.len() && #[trigger] flags[p] ==> true_positions(flags).contains(
                p as usize,
            ),
        forall|i: int, j: int|
            0 <= i < j < true_positions(flags).len() ==> true_positions(flags)[i]
                < true_positions(flags)[j],
        true_positions(flags).no_duplicates(),
        true_positions(flags).len() <= flags.len(),
    decreases flags.len(),
{
    if flags.len() > 0 {
        let init = flags.drop_last();
        let last = (flags.len() - 1) as usize;
        let tp = true_positions(flags);
        let rest = true_positions(init);
        lemma_true_positions(init);
        assert forall|p: int| 0 <= p < flags.len() && #[trigger] flags[p] implies tp.contains(
            p as usize,
        ) by {
            if p < init.len() {
                assert(init[p]);
                assert(rest.contains(p as usize));
                if flags.last() {
                    lemma_push_contains(rest, last, p as usize);
                }
            } else {
                lemma_push_contains(rest, last, p as usize);
            }
        }
        assert forall|j: int| 0 <= j < tp.len() implies (#[trigger] tp[j]) < flags.len()
            && flags[tp[j] as int] by {
            if j < rest.len() {
                assert(tp[j] == rest[j]);
                assert(init[rest[j] as int]);
            }
        }
        assert forall|i: int, j: int| 0 <= i < j < tp.len() implies tp[i] < tp[j] by {
            if j < rest.len() {
                assert(tp[i] == rest[i] && tp[j] == rest[j]);
            } else {
                assert(tp[i] == rest[i]);
                assert(rest[i] < init.len());
            }
        }
    }
}

/// From its start up to `end`, the positions of `flags` are those between 0
/// and `end`.
pub proof fn lemma_positions_prefix(flags: Seq<bool>, end: int)
    requires
        0 <= end <= flags.len(),
    ensures
        true_positions(flags.take(end)) == positions_between(flags, 0, end),
    decreases end,
{
    if end > 0 {
        assert(flags.take(end).drop_last() =~= flags.take(end - 1));
        assert(flags.take(end).last() == flags[end - 1]);
        lemma_positions_prefix(flags, end - 1);
    }
}

/// The positions between `a` and `c` are those between `a` and `b`, then
/// those between `b` and `c`.
pub proof fn lemma_positions_split(flags: Seq<bool>, a: int, b: int, c: int)
    requires
        a <= b <= c,
    ensures
        positions_between(flags, a, c) == positions_between(flags, a, b) + positions_between(
            flags,
            b,
            c,
        ),
    decreases c - b,
{
    if c > b {
        lemma_positions_split(flags, a, b, c - 1);
        let left = positions_between(flags, a, b);
        let right = positions_between(flags, b, c - 1);
        if 0 <= c - 1 < flags.len() && flags[c - 1] {
            assert((left + right).push((c - 1) as usize) =~= left + right.push((c - 1) as usize));
        }
    } else {
        assert(positions_between(flags, a, b) + Seq::<usize>::empty() =~= positions_between(
            flags,
            a,
            b,
        ));
    }
}

/// Nothing is found beyond the end of the flags.
pub proof fn lemma_positions_beyond(flags: Seq<bool>, start: int, end: int)
    requires
        0 <= start,
        flags.len() <= end,
    ensures
        positions_between(flags, start, end) == positions_between(flags, start, flags.len() as int),
    decreases end - flags.len(),
{
    if end > flags.len() {
        if end > start {
            lemma_positions_beyond(flags, start, end - 1);
        } else {
            assert(positions_between(flags, start, end) =~= Seq::<usize>::empty());
            assert(positions_between(flags, start, flags.len() as int) =~= Seq::<usize>::empty());
        }
    }
}

} // verus!
