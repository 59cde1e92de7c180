//! Position buckets: for each key, the positions of a sequence that carry
//! it.

use vstd::prelude::*;
use vstd::hash_map::StringHashMap;
use vstd::string::*;
use crate::positions::{lemma_push_contains, lemma_true_positions, true_positions};
use crate::text::texts;

verus! {

/// For each position of `keys`, whether it holds `k`.
pub open spec fn key_flags(keys: Seq<Seq<char>>, k: Seq<char>) -> Seq<bool> {
    Seq::new(keys.len(), |i: int| keys[i] == k)
}

/// The positions, in ascending order, at which `keys` holds `k`.
pub open spec fn positions_of(keys: Seq<Seq<char>>, k: Seq<char>) -> Seq<usize> {
    true_positions(key_flags(keys, k))
}

/// The buckets of a sequence of keys: each key that occurs, with the
/// positions that hold it, in ascending order.
pub open spec fn grouped(keys: Seq<Seq<char>>) -> Map<Seq<char>, Seq<usize>> {
    Map::new(|k: Seq<char>| keys.contains(k), |k: Seq<char>| positions_of(keys, k))
}

/// The bucket of a key; empty for a key that has none.
pub open spec fn bucket(m: Map<Seq<char>, Seq<usize>>, k: Seq<char>) -> Seq<usize> {
    if m.contains_key(k) {
        m[k]
    } else {
        Seq::empty()
    }
}

/// The buckets with position `p` appended to the bucket of `k`.
pub open spec fn with_position(
    m: Map<Seq<char>, Seq<usize>>,
    k: Seq<char>,
    p: usize,
) -> Map<Seq<char>, Seq<usize>> {
    m.insert(k, bucket(m, k).push(p))
}

/// The bucket without position `p`, the others in their order.
pub open spec fn without(b: Seq<usize>, p: usize) -> Seq<usize>
    decreases b.len(),
{
    if b.len() == 0 {
        Seq::empty()
    } else if b.last() == p {
        without(b.drop_last(), p)
    } else {
        without(b.drop_last(), p).push(b.last())
    }
}

/// The buckets with position `p` taken out of the bucket of `k`, and that
/// bucket dropped where nothing is left in it.
pub open spec fn without_position(
    m: Map<Seq<char>, Seq<usize>>,
    k: Seq<char>,
    p: usize,
) -> Map<Seq<char>, Seq<usize>> {
    let b = without(bucket(m, k), p);
    if b.len() == 0 {
        m.remove(k)
    } else {
        m.insert(k, b)
    }
}

/// The buckets with position `p` moved from the bucket of `from` to the end
/// of the bucket of `to`.
pub open spec fn moved(
    m: Map<Seq<char>, Seq<usize>>,
    p: usize,
    from: Seq<char>,
    to: Seq<char>,
) -> Map<Seq<char>, Seq<usize>> {
    with_position(without_position(m, from, p), to, p)
}

/// The buckets with position `p` moved from the bucket of `from` to that of
/// `to`; unchanged where the two keys are the same.
pub open spec fn rekeyed(
    m: Map<Seq<char>, Seq<usize>>,
    p: usize,
    from: Seq<char>,
    to: Seq<char>,
) -> Map<Seq<char>, Seq<usize>> {
    if from == to {
        m
    } else {
        moved(m, p, from, to)
    }
}

/// Where position `q` stands once the element at `removed` is gone.
pub open spec fn lowered_one(q: usize, removed: usize) -> usize {
    if q > removed {
        (q - 1) as usize
    } else {
        q
    }
}

/// Where position `q` stood before the element at `removed` went.
pub open spec fn raised_one(q: usize, removed: usize) -> usize {
    if q >= removed {
        (q + 1) as usize
    } else {
        q
    }
}

/// The bucket with each position above `removed` lowered by one.
pub open spec fn lowered(b: Seq<usize>, removed: usize) -> Seq<usize> {
    Seq::new(b.len(), |i: int| lowered_one(b[i], removed))
}

/// The bucket after the element at `removed` left the sequence: `removed`
/// is gone from it, and each position above it is lowered by one.
pub open spec fn shifted(b: Seq<usize>, removed: usize) -> Seq<usize> {
    lowered(without(b, removed), removed)
}

/// The buckets after the element at `removed` left the sequence: each
/// bucket shifted, and dropped where nothing is left in it.
pub open spec fn renumbered(
    m: Map<Seq<char>, Seq<usize>>,
    removed: usize,
) -> Map<Seq<char>, Seq<usize>> {
    Map::new(
        |k: Seq<char>| m.contains_key(k) && shifted(m[k], removed).len() > 0,
        |k: Seq<char>| shifted(m[k], removed),
    )
}

/// Whether the buckets agree with the keys: the positions are machine
/// numbers, no bucket is empty, each position in a bucket is within the keys
/// and holds the bucket's key, no bucket holds a position twice, and each
/// position of the keys is in the bucket of its key.
pub open spec fn consistent(m: Map<Seq<char>, Seq<usize>>, keys: Seq<Seq<char>>) -> bool {
    &&& keys.len() <= usize::MAX
    &&& forall|k: Seq<char>| #[trigger] m.contains_key(k) ==> m[k].len() > 0
    &&& forall|k: Seq<char>, j: int|
        m.contains_key(k) && 0 <= j < m[k].len() ==> (#[trigger] m[k][j]) < keys.len()
            && keys[m[k][j] as int] == k
    &&& forall|k: Seq<char>| #[trigger] m.contains_key(k) ==> m[k].no_duplicates()
    &&& forall|p: int|
        0 <= p < keys.len() ==> m.contains_key(#[trigger] keys[p]) && m[keys[p]].contains(
            p as usize,
        )
}

proof fn lemma_last_contains(s: Seq<usize>, x: usize)
    requires
        s.len() > 0,
    ensures
        s.contains(x) <==> (s.drop_last().contains(x) || x == s.last()),
{
    assert(s =~= s.drop_last().push(s.last()));
    lemma_push_contains(s.drop_last(), s.last(), x);
}

proof fn lemma_push_no_duplicates(s: Seq<usize>, v: usize)
    requires
        s.no_duplicates(),
        !s.contains(v),
    ensures
        s.push(v).no_duplicates(),
{
    let t = s.push(v);
    assert forall|i: int, j: int| 0 <= i < t.len() && 0 <= j < t.len() && i != j implies t[i]
        != t[j] by {
        if i < s.len() {
            assert(s.contains(s[i]));
        }
        if j < s.len() {
            assert(s.contains(s[j]));
        }
    }
}

/// The buckets built from a sequence of keys agree with it.
pub proof fn lemma_grouped_consistent(keys: Seq<Seq<char>>)
    requires
        keys.len() <= usize::MAX,
    ensures
        consistent(grouped(keys), keys),
{
    let m = grouped(keys);
    assert forall|k: Seq<char>| #[trigger] m.contains_key(k) implies m[k].len() > 0
        && m[k].no_duplicates() by {
        let flags = key_flags(keys, k);
        lemma_true_positions(flags);
        let p = choose|p: int| 0 <= p < keys.len() && keys[p] == k;
        assert(flags[p]);
        assert(true_positions(flags).contains(p as usize));
    }
    assert forall|k: Seq<char>, j: int| m.contains_key(k) && 0 <= j < m[k].len() implies (
    #[trigger] m[k][j]) < keys.len() && keys[m[k][j] as int] == k by {
        let flags = key_flags(keys, k);
        lemma_true_positions(flags);
        assert(flags[m[k][j] as int]);
    }
    assert forall|p: int| 0 <= p < keys.len() implies m.contains_key(#[trigger] keys[p])
        && m[keys[p]].contains(p as usize) by {
        let k = keys[p];
        let flags = key_flags(keys, k);
        lemma_true_positions(flags);
        assert(flags[p]);
    }
}

/// What [`without`] holds: the positions of the bucket other than `p`, none
/// twice where the bucket had none twice.
pub proof fn lemma_without(b: Seq<usize>, p: usize)
    ensures
        forall|x: usize| #[trigger] without(b, p).contains(x) <==> (b.contains(x) && x != p),
        b.no_duplicates() ==> without(b, p).no_duplicates(),
    decreases b.len(),
{
    if b.len() > 0 {
        let init = b.drop_last();
        let w = without(init, p);
        lemma_without(init, p);
        assert forall|x: usize| #[trigger] without(b, p).contains(x) <==> (b.contains(x) && x
            != p) by {
            lemma_last_contains(b, x);
            lemma_push_contains(w, b.last(), x);
        }
        if b.no_duplicates() {
            assert forall|i: int, j: int|
                0 <= i < init.len() && 0 <= j < init.len() && i != j implies init[i]
                != init[j] by {
                assert(init[i] == b[i] && init[j] == b[j]);
            }
            if b.last() != p {
                if w.contains(b.last()) {
                    assert(init.contains(b.last()));
                    let i = choose|i: int| 0 <= i < init.len() && init[i] == b.last();
                    assert(b[i] == b[b.len() - 1]);
                }
                lemma_push_no_duplicates(w, b.last());
            }
        }
    }
}

/// Appending position `keys.len()` to the bucket of `k` keeps the buckets
/// in agreement with the keys once `k` is appended to them.
pub proof fn lemma_with_position_consistent(
    m: Map<Seq<char>, Seq<usize>>,
    keys: Seq<Seq<char>>,
    k: Seq<char>,
)
    requires
        consistent(m, keys),
        keys.len() < usize::MAX,
    ensures
        consistent(with_position(m, k, keys.len() as usize), keys.push(k)),
{
    let n = keys.len() as usize;
    let m2 = with_position(m, k, n);
    let keys2 = keys.push(k);
    let b = bucket(m, k);
    assert(!b.contains(n)) by {
        if b.contains(n) {
            let j = choose|j: int| 0 <= j < b.len() && b[j] == n;
            assert(m[k][j] < keys.len());
        }
    }
    lemma_push_no_duplicates(b, n);
    assert forall|q: Seq<char>, j: int| m2.contains_key(q) && 0 <= j < m2[q].len() implies (
    #[trigger] m2[q][j]) < keys2.len() && keys2[m2[q][j] as int] == q by {
        if q == k {
            if j < b.len() {
                assert(m[k][j] < keys.len());
            }
        } else {
            assert(m[q][j] < keys.len());
        }
    }
    assert forall|p: int| 0 <= p < keys2.len() implies m2.contains_key(#[trigger] keys2[p])
        && m2[keys2[p]].contains(p as usize) by {
        if p < keys.len() {
            assert(keys2[p] == keys[p]);
            assert(m[keys[p]].contains(p as usize));
            if keys[p] == k {
                lemma_push_contains(b, n, p as usize);
            }
        } else {
            lemma_push_contains(b, n, p as usize);
        }
    }
}

/// Moving position `p` from the bucket of its key to that of another key
/// keeps the buckets in agreement with the keys once the key at `p` is
/// replaced.
pub proof fn lemma_moved_consistent(
    m: Map<Seq<char>, Seq<usize>>,
    keys: Seq<Seq<char>>,
    p: usize,
    to: Seq<char>,
)
    requires
        consistent(m, keys),
        p < keys.len(),
        keys[p as int] != to,
    ensures
        consistent(moved(m, p, keys[p as int], to), keys.update(p as int, to)),
{
    let from = keys[p as int];
    let m1 = without_position(m, from, p);
    let m2 = moved(m, p, from, to);
    let keys2 = keys.update(p as int, to);
    let bf = bucket(m, from);
    let wf = without(bf, p);
    let bt = bucket(m, to);
    lemma_without(bf, p);
    assert(bucket(m1, to) == bt);
    assert(m.contains_key(keys[p as int]));
    assert(!bt.contains(p)) by {
        if bt.contains(p) {
            let j = choose|j: int| 0 <= j < bt.len() && bt[j] == p;
            assert(keys[m[to][j] as int] == to);
        }
    }
    lemma_push_no_duplicates(bt, p);
    assert forall|q: Seq<char>| #[trigger] m2.contains_key(q) implies m2[q].len() > 0
        && m2[q].no_duplicates() by {
        if q == to {
        } else if q == from {
            assert(m2[q] == wf);
        } else {
            assert(m.contains_key(q));
            assert(m2[q] == m[q]);
        }
    }
    assert forall|q: Seq<char>, j: int| m2.contains_key(q) && 0 <= j < m2[q].len() implies (
    #[trigger] m2[q][j]) < keys2.len() && keys2[m2[q][j] as int] == q by {
        if q == to {
            if j < bt.len() {
                assert(m[to][j] < keys.len());
                assert(bt.contains(bt[j]));
            }
        } else if q == from {
            assert(m2[q] == wf);
            assert(wf.contains(wf[j]));
            assert(bf.contains(wf[j]));
            let i = choose|i: int| 0 <= i < bf.len() && bf[i] == wf[j];
            assert(m[from][i] < keys.len());
        } else {
            assert(m2[q] == m[q]);
            assert(m[q][j] < keys.len());
        }
    }
    assert forall|x: int| 0 <= x < keys2.len() implies m2.contains_key(#[trigger] keys2[x])
        && m2[keys2[x]].contains(x as usize) by {
        if x == p {
            lemma_push_contains(bt, p, p);
        } else {
            let q = keys[x];
            assert(keys2[x] == q);
            assert(m[q].contains(x as usize));
            if q == to {
                lemma_push_contains(bt, p, x as usize);
            } else if q == from {
                assert(wf.contains(x as usize));
                assert(m2[q] == wf);
            } else {
                assert(m2[q] == m[q]);
            }
        }
    }
}

proof fn lemma_lowered_distinct(x: usize, y: usize, removed: usize)
    requires
        x != y,
        x != removed,
        y != removed,
    ensures
        lowered_one(x, removed) != lowered_one(y, removed),
{
}

/// What [`shifted`] holds: where each position of the bucket other than
/// `removed` now stands, none twice where the bucket had none twice.
pub proof fn lemma_shifted(b: Seq<usize>, removed: usize)
    ensures
        forall|j: int|
            0 <= j < shifted(b, removed).len() ==> b.contains(
                raised_one(#[trigger] shifted(b, removed)[j], removed),
            ) && raised_one(shifted(b, removed)[j], removed) != removed && lowered_one(
                raised_one(shifted(b, removed)[j], removed),
                removed,
            ) == shifted(b, removed)[j],
        forall|x: usize|
            b.contains(x) && x != removed ==> shifted(b, removed).contains(
                #[trigger] lowered_one(x, removed),
            ),
        b.no_duplicates() ==> shifted(b, removed).no_duplicates(),
{
    let w = without(b, removed);
    let s = shifted(b, removed);
    lemma_without(b, removed);
    assert forall|j: int| 0 <= j < s.len() implies b.contains(
        raised_one(#[trigger] s[j], removed),
    ) && raised_one(s[j], removed) != removed && lowered_one(raised_one(s[j], removed), removed)
        == s[j] by {
        assert(w.contains(w[j]));
        assert(s[j] == lowered_one(w[j], removed));
        assert(raised_one(s[j], removed) == w[j]);
    }
    assert forall|x: usize| b.contains(x) && x != removed implies s.contains(
        #[trigger] lowered_one(x, removed),
    ) by {
        assert(w.contains(x));
        let j = choose|j: int| 0 <= j < w.len() && w[j] == x;
        assert(s[j] == lowered_one(x, removed));
    }
    if b.no_duplicates() {
        assert forall|i: int, j: int| 0 <= i < s.len() && 0 <= j < s.len() && i != j implies s[i]
            != s[j] by {
            assert(w.contains(w[i]));
            assert(w.contains(w[j]));
            lemma_lowered_distinct(w[i], w[j], removed);
        }
    }
}

/// Renumbering the buckets keeps them in agreement with the keys once the
/// key at `removed` is taken out.
pub proof fn lemma_renumbered_consistent(
    m: Map<Seq<char>, Seq<usize>>,
    keys: Seq<Seq<char>>,
    removed: usize,
)
    requires
        consistent(m, keys),
        removed < keys.len(),
    ensures
        consistent(renumbered(m, removed), keys.remove(removed as int)),
{
    let m2 = renumbered(m, removed);
    let keys2 = keys.remove(removed as int);
    assert forall|k: Seq<char>| #[trigger] m2.contains_key(k) implies m2[k].len() > 0
        && m2[k].no_duplicates() by {
        lemma_shifted(m[k], removed);
    }
    assert forall|k: Seq<char>, j: int| m2.contains_key(k) && 0 <= j < m2[k].len() implies (
    #[trigger] m2[k][j]) < keys2.len() && keys2[m2[k][j] as int] == k by {
        lemma_shifted(m[k], removed);
        let x = raised_one(shifted(m[k], removed)[j], removed);
        let i = choose|i: int| 0 <= i < m[k].len() && m[k][i] == x;
        assert(m[k][i] < keys.len());
        assert(keys[x as int] == k);
    }
    assert forall|q: int| 0 <= q < keys2.len() implies m2.contains_key(#[trigger] keys2[q])
        && m2[keys2[q]].contains(q as usize) by {
        let x: int = if q < removed {
            q
        } else {
            q + 1
        };
        let k = keys[x];
        assert(keys2[q] == k);
        assert(m.contains_key(k) && m[k].contains(x as usize));
        lemma_shifted(m[k], removed);
        assert(lowered_one(x as usize, removed) == q as usize);
        assert(shifted(m[k], removed).contains(lowered_one(x as usize, removed)));
    }
}

/// One bucket: a key and the positions that stand under it.
struct Slot {
    key: String,
    positions: Vec<usize>,
}

/// A map from keys to buckets of positions. The buckets stand in a list,
/// and a hash map gives each key the place of its bucket in the list.
pub struct BucketMap {
    slot_of: StringHashMap<usize>,
    slots: Vec<Slot>,
}

/// Whether the hash map and the list belong together: each key of the map
/// leads to a bucket of that key, and each bucket of the list is the one
/// that its key leads to.
spec fn linked(slot_of: Map<Seq<char>, usize>, slots: Seq<Slot>) -> bool {
    &&& forall|k: Seq<char>| #[trigger]
        slot_of.contains_key(k) ==> slot_of[k] < slots.len() && slots[slot_of[k] as int].key@ == k
    &&& forall|s: int|
        0 <= s < slots.len() ==> slot_of.contains_key(#[trigger] slots[s].key@)
            && slot_of[slots[s].key@] == s
}

/// The buckets that the hash map and the list hold.
spec fn buckets_of(slot_of: Map<Seq<char>, usize>, slots: Seq<Slot>) -> Map<Seq<char>, Seq<usize>> {
    Map::new(
        |k: Seq<char>| slot_of.contains_key(k),
        |k: Seq<char>| slots[slot_of[k] as int].positions@,
    )
}

impl View for BucketMap {
    type V = Map<Seq<char>, Seq<usize>>;

    closed spec fn view(&self) -> Map<Seq<char>, Seq<usize>> {
        buckets_of(self.slot_of@, self.slots@)
    }
}

/// A copy of the bucket without position `p`.
fn bucket_without(b: &Vec<usize>, p: usize) -> (r: Vec<usize>)
    ensures
        r@ == without(b@, p),
{
    let mut out: Vec<usize> = Vec::new();
    let n = b.len();
    let mut i: usize = 0;
    while i < n
        invariant
            n == b@.len(),
            i <= n,
            out@ == without(b@.take(i as int), p),
        decreases n - i,
    {
        proof {
            assert(b@.take(i + 1).drop_last() =~= b@.take(i as int));
        }
        if b[i] != p {
            out.push(b[i]);
        }
        i += 1;
    }
    assert(b@.take(n as int) =~= b@);
    out
}

/// A copy of the bucket as it stands after the element at `removed` left
/// the sequence.
fn bucket_shifted(b: &Vec<usize>, removed: usize) -> (r: Vec<usize>)
    ensures
        r@ == shifted(b@, removed),
{
    let w = bucket_without(b, removed);
    let mut out: Vec<usize> = Vec::new();
    let n = w.len();
    let mut i: usize = 0;
    while i < n
        invariant
            n == w@.len(),
            i <= n,
            out@.len() == i,
            forall|j: int| 0 <= j < i ==> out@[j] == lowered_one(w@[j], removed),
        decreases n - i,
    {
        let q = w[i];
        if q > removed {
            out.push(q - 1);
        } else {
            out.push(q);
        }
        i += 1;
    }
    assert(out@ =~= lowered(w@, removed));
    out
}

/// The place of the bucket of a key, where it has one.
fn slot_for(slot_of: &StringHashMap<usize>, key: &str) -> (r: Option<usize>)
    ensures
        match r {
            Some(s) => slot_of@.contains_key(key@) && slot_of@[key@] == s,
            None => !slot_of@.contains_key(key@),
        },
{
    match slot_of.get(key) {
        Some(s) => Some(*s),
        None => None,
    }
}

/// Appends `p` to the bucket of `key`, at the end of the list where the key
/// had none.
fn insert_into(slot_of: &mut StringHashMap<usize>, slots: &mut Vec<Slot>, key: String, p: usize)
    requires
        linked(old(slot_of)@, old(slots)@),
    ensures
        linked(final(slot_of)@, final(slots)@),
        buckets_of(final(slot_of)@, final(slots)@) == with_position(
            buckets_of(old(slot_of)@, old(slots)@),
            key@,
            p,
        ),
{
    match slot_for(slot_of, key.as_str()) {
        Some(s) => {
            slots[s].positions.push(p);
        },
        None => {
            let s = slots.len();
            let mut positions: Vec<usize> = Vec::new();
            positions.push(p);
            slots.push(Slot { key: key.clone(), positions });
            slot_of.insert(key, s);
        },
    }
    proof {
        assert forall|s: int| 0 <= s < slots@.len() implies slot_of@.contains_key(
            #[trigger] slots@[s].key@,
        ) && slot_of@[slots@[s].key@] == s by {
            if s < old(slots)@.len() {
                assert(old(slot_of)@.contains_key(old(slots)@[s].key@));
            }
        }
        assert(buckets_of(slot_of@, slots@) =~= with_position(
            buckets_of(old(slot_of)@, old(slots)@),
            key@,
            p,
        ));
    }
}

/// A copy of a bucket.
fn bucket_copy(b: &Vec<usize>) -> (r: Vec<usize>)
    ensures
        r@ == b@,
{
    b.clone()
}

/// Takes `p` out of the bucket of `key`, and takes the bucket out of the
/// list where nothing is left in it; the last bucket of the list then
/// moves to its place.
fn remove_from(slot_of: &mut StringHashMap<usize>, slots: &mut Vec<Slot>, key: &str, p: usize)
    requires
        linked(old(slot_of)@, old(slots)@),
    ensures
        linked(final(slot_of)@, final(slots)@),
        buckets_of(final(slot_of)@, final(slots)@) == without_position(
            buckets_of(old(slot_of)@, old(slots)@),
            key@,
            p,
        ),
{
    let ghost before = buckets_of(old(slot_of)@, old(slots)@);
    match slot_for(slot_of, key) {
        None => {
            assert(before.remove(key@) =~= before);
        },
        Some(s) => {
            let left = bucket_without(&slots[s].positions, p);
            if left.len() > 0 {
                slots[s].positions = left;
                proof {
                    assert forall|t: int| 0 <= t < slots@.len() implies slot_of@.contains_key(
                        #[trigger] slots@[t].key@,
                    ) && slot_of@[slots@[t].key@] == t by {
                        assert(old(slot_of)@.contains_key(old(slots)@[t].key@));
                    }
                }
            } else {
                let last = slots.len() - 1;
                slot_of.remove(key);
                if s == last {
                    slots.pop();
                } else {
                    let moved = slots[last].key.clone();
                    proof {
                        assert(old(slot_of)@.contains_key(old(slots)@[last as int].key@));
                    }
                    slots.swap_remove(s);
                    slot_of.insert(moved, s);
                }
                proof {
                    assert forall|k: Seq<char>| #[trigger] slot_of@.contains_key(k) implies slot_of@[k]
                        < slots@.len() && slots@[slot_of@[k] as int].key@ == k by {
                        assert(old(slot_of)@.contains_key(k));
                        assert(old(slot_of)@.contains_key(old(slots)@[old(slot_of)@[k] as int].key@));
                    }
                    assert forall|t: int| 0 <= t < slots@.len() implies slot_of@.contains_key(
                        #[trigger] slots@[t].key@,
                    ) && slot_of@[slots@[t].key@] == t by {
                        assert(old(slot_of)@.contains_key(old(slots)@[t].key@));
                        assert(old(slot_of)@.contains_key(old(slots)@[last as int].key@));
                    }
                }
            }
            proof {
                assert forall|k: Seq<char>| #[trigger] slot_of@.contains_key(k) && k
                    != key@ implies slots@[slot_of@[k] as int].positions@ == before[k] by {
                    assert(old(slot_of)@.contains_key(k));
                    assert(old(slot_of)@.contains_key(old(slots)@[old(slot_of)@[k] as int].key@));
                }
                assert(buckets_of(slot_of@, slots@) =~= without_position(before, key@, p));
            }
        },
    }
}

/// The buckets as they stand after the element at `removed` left the
/// sequence, in a list of their own.
fn renumbered_parts(
    slot_of: &StringHashMap<usize>,
    slots: &Vec<Slot>,
    removed: usize,
) -> (r: (StringHashMap<usize>, Vec<Slot>))
    requires
        linked(slot_of@, slots@),
    ensures
        linked(r.0@, r.1@),
        buckets_of(r.0@, r.1@) == renumbered(buckets_of(slot_of@, slots@), removed),
{
    let ghost before = buckets_of(slot_of@, slots@);
    let mut fresh_of: StringHashMap<usize> = StringHashMap::new();
    let mut fresh: Vec<Slot> = Vec::new();
    let n = slots.len();
    let mut s: usize = 0;
    while s < n
        invariant
            n == slots@.len(),
            s <= n,
            linked(slot_of@, slots@),
            before == buckets_of(slot_of@, slots@),
            linked(fresh_of@, fresh@),
            forall|k: Seq<char>| #[trigger]
                fresh_of@.contains_key(k) <==> (slot_of@.contains_key(k) && slot_of@[k] < s
                    && shifted(before[k], removed).len() > 0),
            forall|k: Seq<char>| #[trigger]
                fresh_of@.contains_key(k) ==> fresh@[fresh_of@[k] as int].positions@ == shifted(
                    before[k],
                    removed,
                ),
        decreases n - s,
    {
        let ghost k0 = slots@[s as int].key@;
        proof {
            assert(slot_of@.contains_key(slots@[s as int].key@));
            assert(before[k0] == slots@[s as int].positions@);
        }
        let positions = bucket_shifted(&slots[s].positions, removed);
        if positions.len() > 0 {
            let ghost earlier_of = fresh_of@;
            let ghost earlier = fresh@;
            let place = fresh.len();
            fresh.push(Slot { key: slots[s].key.clone(), positions });
            fresh_of.insert(slots[s].key.clone(), place);
            proof {
                assert(!earlier_of.contains_key(k0));
                assert forall|t: int| 0 <= t < fresh@.len() implies fresh_of@.contains_key(
                    #[trigger] fresh@[t].key@,
                ) && fresh_of@[fresh@[t].key@] == t by {
                    if t < earlier.len() {
                        assert(earlier_of.contains_key(earlier[t].key@));
                    }
                }
                assert forall|k: Seq<char>| #[trigger] fresh_of@.contains_key(k) implies fresh_of@[k]
                    < fresh@.len() && fresh@[fresh_of@[k] as int].key@ == k by {
                    if k != k0 {
                        assert(earlier_of.contains_key(k));
                    }
                }
            }
        }
        proof {
            assert forall|k: Seq<char>| #[trigger]
                fresh_of@.contains_key(k) <==> (slot_of@.contains_key(k) && slot_of@[k] < s + 1
                    && shifted(before[k], removed).len() > 0) by {
                if slot_of@.contains_key(k) && slot_of@[k] == s {
                    assert(slots@[slot_of@[k] as int].key@ == k);
                }
            }
        }
        s += 1;
    }
    proof {
        assert(buckets_of(fresh_of@, fresh@) =~= renumbered(before, removed));
    }
    (fresh_of, fresh)
}

impl BucketMap {
    #[verifier::type_invariant]
    spec fn well_linked(&self) -> bool {
        linked(self.slot_of@, self.slots@)
    }

    /// No buckets.
    pub fn new() -> (r: BucketMap)
        ensures
            r@ == Map::<Seq<char>, Seq<usize>>::empty(),
    {
        let r = BucketMap { slot_of: StringHashMap::new(), slots: Vec::new() };
        assert(r@ =~= Map::<Seq<char>, Seq<usize>>::empty());
        r
    }

    /// The bucket of a key; empty for a key that has none.
    pub fn lookup(&self, key: &str) -> (r: Vec<usize>)
        ensures
            r@ == bucket(self@, key@),
    {
        proof {
            use_type_invariant(self);
        }
        match slot_for(&self.slot_of, key) {
            Some(s) => bucket_copy(&self.slots[s].positions),
            None => Vec::new(),
        }
    }

    /// Appends position `p` to the bucket of `key`, which is made where it
    /// was missing.
    pub fn insert_position(&mut self, key: String, p: usize)
        ensures
            final(self)@ == with_position(old(self)@, key@, p),
    {
        proof {
            use_type_invariant(&*self);
        }
        let mut taken = BucketMap::new();
        core::mem::swap(self, &mut taken);
        let BucketMap { mut slot_of, mut slots } = taken;
        insert_into(&mut slot_of, &mut slots, key, p);
        *self = BucketMap { slot_of, slots };
    }

    /// Takes position `p` out of the bucket of `key`, and drops the bucket
    /// where nothing is left in it.
    pub fn remove_position(&mut self, key: &str, p: usize)
        ensures
            final(self)@ == without_position(old(self)@, key@, p),
    {
        proof {
            use_type_invariant(&*self);
        }
        let mut taken = BucketMap::new();
        core::mem::swap(self, &mut taken);
        let BucketMap { mut slot_of, mut slots } = taken;
        remove_from(&mut slot_of, &mut slots, key, p);
        *self = BucketMap { slot_of, slots };
    }

    /// Moves position `p` from the bucket of `from` to the end of the
    /// bucket of `to`.
    pub fn move_position(&mut self, p: usize, from: &str, to: String)
        ensures
            final(self)@ == moved(old(self)@, p, from@, to@),
    {
        self.remove_position(from, p);
        self.insert_position(to, p);
    }

    /// The buckets of a sequence of keys.
    pub fn build(keys: &Vec<String>) -> (r: BucketMap)
        ensures
            r@ == grouped(texts(keys@)),
    {
        let mut r = BucketMap::new();
        let n = keys.len();
        let ghost all = texts(keys@);
        let mut i: usize = 0;
        assert(r@ =~= grouped(all.take(0)));
        while i < n
            invariant
                n == keys@.len(),
                all == texts(keys@),
                i <= n,
                r@ == grouped(all.take(i as int)),
            decreases n - i,
        {
            let ghost before = r@;
            r.insert_position(keys[i].clone(), i);
            proof {
                let k = all[i as int];
                let prev = all.take(i as int);
                let next = all.take(i + 1);
                assert(next.drop_last() =~= prev);
                assert(next.last() == k);
                assert forall|q: Seq<char>| next.contains(q) <==> (prev.contains(q) || q
                    == k) by {
                    if next.contains(q) {
                        let j = choose|j: int| 0 <= j < next.len() && next[j] == q;
                        if j < i {
                            assert(prev[j] == q);
                        }
                    }
                    if prev.contains(q) {
                        let j = choose|j: int| 0 <= j < prev.len() && prev[j] == q;
                        assert(next[j] == q);
                    }
                    if q == k {
                        assert(next[i as int] == q);
                    }
                }
                assert forall|q: Seq<char>| next.contains(q) implies positions_of(next, q) == (
                if q == k {
                    bucket(before, k).push(i)
                } else {
                    before[q]
                }) by {
                    let f_next = key_flags(next, q);
                    let f_prev = key_flags(prev, q);
                    assert(f_next.drop_last() =~= f_prev);
                    if q == k && !prev.contains(k) {
                        lemma_true_positions(f_prev);
                        if true_positions(f_prev).len() > 0 {
                            let x = true_positions(f_prev)[0];
                            assert(f_prev[x as int]);
                            assert(prev[x as int] == k);
                        }
                        assert(true_positions(f_prev) =~= Seq::<usize>::empty());
                    }
                }
                assert(r@ =~= grouped(next));
            }
            i += 1;
        }
        assert(all.take(n as int) =~= all);
        r
    }

    /// Renumbers the buckets after the element at `removed` left the
    /// sequence.
    pub fn renumber(&mut self, removed: usize)
        ensures
            final(self)@ == renumbered(old(self)@, removed),
    {
        proof {
            use_type_invariant(&*self);
        }
        let (slot_of, slots) = renumbered_parts(&self.slot_of, &self.slots, removed);
        *self = BucketMap { slot_of, slots };
    }
}

} // verus!
