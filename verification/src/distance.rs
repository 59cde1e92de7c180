//! Edit distance between two texts.

use vstd::prelude::*;
use vstd::string::*;
use crate::outside::{levenshtein_ascii, TABLE_SIDE};
use crate::text::chars_of;

verus! {

/// The least of three numbers.
pub open spec fn min3(x: nat, y: nat, z: nat) -> nat {
    if x <= y && x <= z {
        x
    } else if y <= z {
        y
    } else {
        z
    }
}

/// What replacing the last character of one text by that of the other
/// costs.
pub open spec fn replace_cost(x: char, y: char) -> nat {
    if x == y {
        0
    } else {
        1
    }
}

/// The Levenshtein distance between `a` and `b`, which counts the
/// single-character insertions, deletions and substitutions that turn one
/// into the other, by its recurrence: against an empty text the distance is
/// the length of the other text; else it is the least of what it costs to
/// drop the last character of `a`, to drop the last character of `b`, and
/// to put the last character of one for that of the other.
pub open spec fn edit_distance(a: Seq<char>, b: Seq<char>) -> nat
    decreases a.len() + b.len(),
{
    if a.len() == 0 {
        b.len()
    } else if b.len() == 0 {
        a.len()
    } else {
        min3(
            edit_distance(a.drop_last(), b) + 1,
            edit_distance(a, b.drop_last()) + 1,
            edit_distance(a.drop_last(), b.drop_last()) + replace_cost(a.last(), b.last()),
        )
    }
}

/// The distance never exceeds the longer of the two lengths.
pub proof fn lemma_distance_bound(a: Seq<char>, b: Seq<char>)
    ensures
        edit_distance(a, b) <= a.len() || edit_distance(a, b) <= b.len(),
    decreases a.len() + b.len(),
{
    if a.len() != 0 && b.len() != 0 {
        lemma_distance_bound(a.drop_last(), b.drop_last());
    }
}

/// The distance is zero exactly between a text and itself.
pub proof fn lemma_distance_zero(a: Seq<char>, b: Seq<char>)
    ensures
        edit_distance(a, b) == 0 <==> a == b,
    decreases a.len() + b.len(),
{
    if a.len() == 0 || b.len() == 0 {
        if edit_distance(a, b) == 0 {
            assert(a =~= b);
        }
    } else {
        lemma_distance_zero(a.drop_last(), b.drop_last());
        if edit_distance(a, b) == 0 {
            assert(a.drop_last() == b.drop_last());
            assert(a.last() == b.last());
            assert(a =~= a.drop_last().push(a.last()));
            assert(b =~= b.drop_last().push(b.last()));
        }
    }
}

/// One cell of the table: the distance between the first `i + 1` characters
/// of `a` and the first `j + 1` of `b`, from its three neighbours.
proof fn lemma_cell(a: Seq<char>, b: Seq<char>, i: int, j: int)
    requires
        0 <= i < a.len(),
        0 <= j < b.len(),
    ensures
        edit_distance(a.take(i + 1), b.take(j + 1)) == min3(
            edit_distance(a.take(i), b.take(j + 1)) + 1,
            edit_distance(a.take(i + 1), b.take(j)) + 1,
            edit_distance(a.take(i), b.take(j)) + replace_cost(a[i], b[j]),
        ),
{
    assert(a.take(i + 1).drop_last() =~= a.take(i));
    assert(b.take(j + 1).drop_last() =~= b.take(j));
    assert(a.take(i + 1).last() == a[i]);
    assert(b.take(j + 1).last() == b[j]);
}

/// The least of three machine numbers.
fn least_of(x: usize, y: usize, z: usize) -> (r: usize)
    ensures
        r == min3(x as nat, y as nat, z as nat),
{
    if x <= y && x <= z {
        x
    } else if y <= z {
        y
    } else {
        z
    }
}

/// The distance between two texts given by their characters, by the
/// row-by-row table method.
pub fn distance_of_chars(a: &Vec<char>, b: &Vec<char>) -> (r: usize)
    ensures
        r == edit_distance(a@, b@),
{
    let n = a.len();
    let m = b.len();
    if n == 0 {
        return m;
    }
    if m == 0 {
        return n;
    }
    // row[j] is the distance between the characters of `a` taken so far and
    // the first j + 1 characters of `b`.
    let mut row: Vec<usize> = Vec::new();
    let mut j: usize = 0;
    while j < m
        invariant
            m == b@.len(),
            j <= m,
            row@.len() == j,
            forall|k: int| 0 <= k < j ==> row@[k] == edit_distance(a@.take(0), b@.take(k + 1)),
        decreases m - j,
    {
        assert(a@.take(0).len() == 0);
        row.push(j + 1);
        j += 1;
    }
    let mut i: usize = 0;
    while i < n
        invariant
            n == a@.len(),
            m == b@.len(),
            m > 0,
            i <= n,
            row@.len() == m,
            forall|k: int| 0 <= k < m ==> row@[k] == edit_distance(a@.take(i as int), b@.take(k + 1)),
        decreases n - i,
    {
        let mut diag: usize = i;
        let mut left: usize = i + 1;
        proof {
            assert(b@.take(0).len() == 0);
            assert(a@.take(i as int).len() == i);
            assert(a@.take(i + 1).len() == i + 1);
            assert(diag == edit_distance(a@.take(i as int), b@.take(0)));
            assert(left == edit_distance(a@.take(i + 1), b@.take(0)));
        }
        let mut j: usize = 0;
        while j < m
            invariant
                n == a@.len(),
                m == b@.len(),
                i < n,
                j <= m,
                row@.len() == m,
                diag == edit_distance(a@.take(i as int), b@.take(j as int)),
                left == edit_distance(a@.take(i + 1), b@.take(j as int)),
                forall|k: int| 0 <= k < j ==> row@[k] == edit_distance(a@.take(i + 1), b@.take(k + 1)),
                forall|k: int| j <= k < m ==> row@[k] == edit_distance(a@.take(i as int), b@.take(k + 1)),
            decreases m - j,
        {
            let up = row[j];
            let cost: usize = if a[i] == b[j] { 0 } else { 1 };
            proof {
                lemma_cell(a@, b@, i as int, j as int);
                lemma_distance_bound(a@.take(i + 1), b@.take(j + 1));
                assert(a@.take(i + 1).len() == i + 1);
                assert(b@.take(j + 1).len() == j + 1);
            }
            let value = least_of(
                up.saturating_add(1),
                left.saturating_add(1),
                diag.saturating_add(cost),
            );
            assert(value == edit_distance(a@.take(i + 1), b@.take(j + 1)));
            diag = up;
            left = value;
            row.set(j, value);
            j += 1;
        }
        i += 1;
    }
    assert(a@.take(n as int) =~= a@);
    assert(b@.take(m as int) =~= b@);
    row[m - 1]
}

/// The Levenshtein distance between two texts. Short ASCII text goes to
/// the outside routine, any other text to the table method of this module.
pub fn levenshtein(a: &str, b: &str) -> (r: usize)
    ensures
        r == edit_distance(a@, b@),
{
    if a.is_ascii() && b.is_ascii() && a.unicode_len() <= TABLE_SIDE && b.unicode_len()
        <= TABLE_SIDE {
        levenshtein_ascii(a, b)
    } else {
        let x = chars_of(a);
        let y = chars_of(b);
        distance_of_chars(&x, &y)
    }
}

} // verus!
