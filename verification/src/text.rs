//! Text helpers shared by the records, the validators and the index.

use vstd::prelude::*;
use vstd::string::*;
use vstd::utf8::encode_utf8_decode_utf8;

verus! {

/// The characters of each string of a list.
pub open spec fn texts(list: Seq<String>) -> Seq<Seq<char>> {
    Seq::new(list.len(), |i: int| list[i]@)
}

/// The characters of a string, one element each.
pub fn chars_of(s: &str) -> (v: Vec<char>)
    ensures
        v@ == s@,
{
    let mut v: Vec<char> = Vec::new();
    for c in it: s.chars()
        invariant
            it.seq() == s@,
            v@ == it.seq().take(it.index() as int),
    {
        v.push(c);
    }
    v
}

/// Whether two texts hold the same characters.
pub fn same_text(a: &str, b: &str) -> (r: bool)
    ensures
        r == (a@ == b@),
{
    let x = a.as_bytes();
    let y = b.as_bytes();
    let n = x.len();
    if n != y.len() {
        return false;
    }
    let mut i: usize = 0;
    while i < n
        invariant
            x@ == a.spec_bytes(),
            y@ == b.spec_bytes(),
            n == x@.len(),
            n == y@.len(),
            i <= n,
            forall|j: int| 0 <= j < i ==> x@[j] == y@[j],
        decreases n - i,
    {
        if x[i] != y[i] {
            return false;
        }
        i += 1;
    }
    proof {
        // Equal bytes decode to equal characters.
        assert(x@ =~= y@);
        encode_utf8_decode_utf8(a@);
        encode_utf8_decode_utf8(b@);
    }
    true
}

/// Whether `list` holds a string with the characters of `item`.
pub fn contains_text(list: &Vec<String>, item: &str) -> (r: bool)
    ensures
        r == texts(list@).contains(item@),
{
    let n = list.len();
    let mut i: usize = 0;
    while i < n
        invariant
            n == list@.len(),
            i <= n,
            forall|j: int| 0 <= j < i ==> texts(list@)[j] != item@,
        decreases n - i,
    {
        if same_text(list[i].as_str(), item) {
            assert(texts(list@)[i as int] == item@);
            return true;
        }
        i += 1;
    }
    false
}

/// Whether two lists hold the same texts in the same order.
pub fn same_texts(a: &Vec<String>, b: &Vec<String>) -> (r: bool)
    ensures
        r == (texts(a@) == texts(b@)),
{
    let n = a.len();
    if n != b.len() {
        assert(texts(a@).len() != texts(b@).len());
        return false;
    }
    let mut i: usize = 0;
    while i < n
        invariant
            n == a@.len(),
            n == b@.len(),
            i <= n,
            forall|j: int| 0 <= j < i ==> texts(a@)[j] == texts(b@)[j],
        decreases n - i,
    {
        if !(a[i] == b[i]) {
            assert(texts(a@)[i as int] != texts(b@)[i as int]);
            return false;
        }
        i += 1;
    }
    assert(texts(a@) =~= texts(b@));
    true
}

/// Whether the two lists have a text in common.
pub open spec fn overlapping(a: Seq<Seq<char>>, b: Seq<Seq<char>>) -> bool {
    exists|i: int| 0 <= i < a.len() && b.contains(#[trigger] a[i])
}

/// Whether two lists of strings have a text in common.
pub fn texts_overlap(a: &Vec<String>, b: &Vec<String>) -> (r: bool)
    ensures
        r == overlapping(texts(a@), texts(b@)),
{
    let n = a.len();
    let mut i: usize = 0;
    while i < n
        invariant
            n == a@.len(),
            i <= n,
            forall|j: int| 0 <= j < i ==> !texts(b@).contains(#[trigger] texts(a@)[j]),
        decreases n - i,
    {
        if contains_text(b, a[i].as_str()) {
            assert(texts(b@).contains(texts(a@)[i as int]));
            return true;
        }
        i += 1;
    }
    false
}

/// A copy of a list of strings.
pub fn copy_texts(list: &Vec<String>) -> (r: Vec<String>)
    ensures
        texts(r@) == texts(list@),
{
    let mut out: Vec<String> = Vec::new();
    let n = list.len();
    let mut i: usize = 0;
    while i < n
        invariant
            n == list@.len(),
            i <= n,
            out@.len() == i,
            forall|j: int| 0 <= j < i ==> out@[j]@ == list@[j]@,
        decreases n - i,
    {
        out.push(list[i].clone());
        i += 1;
    }
    assert(texts(out@) =~= texts(list@));
    out
}

/// The part of an address that follows its first `@`; empty where it has
/// none.
pub open spec fn domain_part(email: Seq<char>) -> Seq<char>
    decreases email.len(),
{
    if email.len() == 0 {
        Seq::empty()
    } else if email[0] == '@' {
        email.skip(1)
    } else {
        domain_part(email.skip(1))
    }
}

/// Skipping characters that are not `@` does not change the domain.
pub proof fn lemma_domain_part_skip(email: Seq<char>, n: int)
    requires
        0 <= n <= email.len(),
        forall|j: int| 0 <= j < n ==> email[j] != '@',
    ensures
        domain_part(email) == domain_part(email.skip(n)),
    decreases n,
{
    if n > 0 {
        assert(email.skip(1).skip(n - 1) =~= email.skip(n));
        lemma_domain_part_skip(email.skip(1), n - 1);
    } else {
        assert(email.skip(0) =~= email);
    }
}

/// The domain of an address: what follows its first `@`.
pub fn domain_of(email: &str) -> (r: String)
    ensures
        r@ == domain_part(email@),
{
    let chars = chars_of(email);
    let n = chars.len();
    let mut i: usize = 0;
    while i < n
        invariant
            n == chars@.len(),
            chars@ == email@,
            i <= n,
            forall|j: int| 0 <= j < i ==> chars@[j] != '@',
        decreases n - i,
    {
        if chars[i] == '@' {
            proof {
                lemma_domain_part_skip(email@, i as int);
                assert(email@.skip(i as int)[0] == '@');
                assert(email@.skip(i as int).skip(1) =~= email@.subrange(i + 1, n as int));
            }
            return email.substring_char(i + 1, n).to_owned();
        }
        i += 1;
    }
    proof {
        lemma_domain_part_skip(email@, n as int);
        assert(email@.skip(n as int).len() == 0);
    }
    String::new()
}

} // verus!
