//! A single contact record.

use vstd::prelude::*;
use vstd::string::*;
use crate::error::{AppError, ErrorView};
use crate::text::{chars_of, contains_text, copy_texts, texts};
use crate::outside::now;
use crate::time::Timestamp;

verus! {

/// One person: a display name, phone numbers, an e-mail address, tags, and
/// when the record was made and last changed.
#[derive(Debug)]
pub struct Contact {
    pub name: String,
    pub phone: Vec<String>,
    pub email: String,
    pub tags: Vec<String>,
    pub created_at: Timestamp,
    pub updated_at: Timestamp,
}

/// A contact as plain values.
pub struct ContactView {
    pub name: Seq<char>,
    pub phone: Seq<Seq<char>>,
    pub email: Seq<char>,
    pub tags: Seq<Seq<char>>,
    pub created_at: Timestamp,
    pub updated_at: Timestamp,
}

impl View for Contact {
    type V = ContactView;

    open spec fn view(&self) -> ContactView {
        ContactView {
            name: self.name@,
            phone: texts(self.phone@),
            email: self.email@,
            tags: texts(self.tags@),
            created_at: self.created_at,
            updated_at: self.updated_at,
        }
    }
}

/// The contacts of a list as plain values.
pub open spec fn views(list: Seq<Contact>) -> Seq<ContactView> {
    Seq::new(list.len(), |i: int| list[i]@)
}

impl Clone for Contact {
    fn clone(&self) -> (r: Contact)
        ensures
            r@ == self@,
    {
        Contact {
            name: self.name.clone(),
            phone: copy_texts(&self.phone),
            email: self.email.clone(),
            tags: copy_texts(&self.tags),
            created_at: self.created_at,
            updated_at: self.updated_at,
        }
    }
}

/// Where the first `c` of `s` stands; the length of `s` where it has none.
pub open spec fn first_index_of(s: Seq<char>, c: char) -> int
    decreases s.len(),
{
    if s.len() == 0 || s[0] == c {
        0
    } else {
        1 + first_index_of(s.skip(1), c)
    }
}

/// The least index at or after `from` that holds `c` is the first index
/// of `c` in what follows `from`.
proof fn lemma_first_index_found(s: Seq<char>, c: char, from: int, at: int)
    requires
        0 <= from <= at <= s.len(),
        forall|j: int| from <= j < at ==> s[j] != c,
        at < s.len() ==> s[at] == c,
    ensures
        first_index_of(s.skip(from), c) == at - from,
    decreases at - from,
{
    let t = s.skip(from);
    if from < at {
        assert(t[0] == s[from]);
        assert(t.skip(1) =~= s.skip(from + 1));
        lemma_first_index_found(s, c, from + 1, at);
    } else if at < s.len() {
        assert(t[0] == s[at]);
    }
}

/// The three fields of a line `name,phone,email`; `None` unless the line
/// holds exactly two commas.
pub open spec fn line_fields(line: Seq<char>) -> Option<(Seq<char>, Seq<char>, Seq<char>)> {
    let c1 = first_index_of(line, ',');
    if c1 >= line.len() {
        None
    } else {
        let rest1 = line.skip(c1 + 1);
        let c2 = first_index_of(rest1, ',');
        if c2 >= rest1.len() {
            None
        } else {
            let rest2 = rest1.skip(c2 + 1);
            if first_index_of(rest2, ',') < rest2.len() {
                None
            } else {
                Some((line.take(c1), rest1.take(c2), rest2))
            }
        }
    }
}

/// What reading a line gives: the contact made of its three fields, with no
/// tags, or the error that names the line.
pub open spec fn contact_of_line(
    line: Seq<char>,
    created_at: Timestamp,
    updated_at: Timestamp,
) -> Result<ContactView, ErrorView> {
    match line_fields(line) {
        Some((name, phone, email)) => Ok(
            ContactView {
                name,
                phone: seq![phone],
                email,
                tags: Seq::empty(),
                created_at,
                updated_at,
            },
        ),
        None => Err(ErrorView::Parse("Invalid line: "@ + line)),
    }
}

/// Whether `s` ends with `suffix`.
pub open spec fn ends_with(s: Seq<char>, suffix: Seq<char>) -> bool {
    suffix.len() <= s.len() && s.skip(s.len() - suffix.len()) == suffix
}

/// The first index at or after `from` that holds `c`; the length where
/// there is none.
fn find_char(chars: &Vec<char>, from: usize, c: char) -> (at: usize)
    requires
        from <= chars@.len(),
    ensures
        from <= at <= chars@.len(),
        at - from == first_index_of(chars@.skip(from as int), c),
{
    let n = chars.len();
    let mut i: usize = from;
    while i < n && chars[i] != c
        invariant
            n == chars@.len(),
            from <= i <= n,
            forall|j: int| from <= j < i ==> chars@[j] != c,
        decreases n - i,
    {
        i += 1;
    }
    proof {
        lemma_first_index_found(chars@, c, from as int, i as int);
    }
    i
}

impl Contact {
    /// A contact with one phone number.
    pub fn new(
        name: &str,
        phone: &str,
        email: &str,
        tags: Vec<String>,
        created_at: Timestamp,
        updated_at: Timestamp,
    ) -> (r: Contact)
        ensures
            r@ == (ContactView {
                name: name@,
                phone: seq![phone@],
                email: email@,
                tags: texts(tags@),
                created_at,
                updated_at,
            }),
    {
        let mut phones: Vec<String> = Vec::new();
        phones.push(phone.to_owned());
        assert(texts(phones@) =~= seq![phone@]);
        Contact {
            name: name.to_owned(),
            phone: phones,
            email: email.to_owned(),
            tags,
            created_at,
            updated_at,
        }
    }

    /// Reads a line `name,phone,email` as a contact made and changed at the
    /// given times.
    pub fn from_line_at(
        line: &str,
        created_at: Timestamp,
        updated_at: Timestamp,
    ) -> (r: Result<Contact, AppError>)
        ensures
            match contact_of_line(line@, created_at, updated_at) {
                Ok(c) => r is Ok && r->Ok_0@ == c,
                Err(e) => r is Err && r->Err_0@ == e,
            },
    {
        let chars = chars_of(line);
        let n = chars.len();
        let c1 = find_char(&chars, 0, ',');
        proof {
            assert(chars@.skip(0) =~= chars@);
        }
        if c1 < n {
            let c2 = find_char(&chars, c1 + 1, ',');
            if c2 < n {
                let c3 = find_char(&chars, c2 + 1, ',');
                if c3 >= n {
                    proof {
                        let rest1 = line@.skip(c1 + 1);
                        assert(rest1.skip(c2 - c1) =~= line@.skip(c2 + 1));
                        assert(line@.take(c1 as int) =~= line@.subrange(0, c1 as int));
                        assert(rest1.take(c2 - (c1 + 1)) =~= line@.subrange(c1 + 1, c2 as int));
                        assert(line@.skip(c2 + 1) =~= line@.subrange(c2 + 1, n as int));
                    }
                    let name = line.substring_char(0, c1);
                    let phone = line.substring_char(c1 + 1, c2);
                    let email = line.substring_char(c2 + 1, n);
                    let c = Contact::new(name, phone, email, Vec::new(), created_at, updated_at);
                    assert(c@.tags =~= Seq::empty());
                    return Ok(c);
                } else {
                    proof {
                        let rest1 = line@.skip(c1 + 1);
                        assert(rest1.skip(c2 - c1) =~= line@.skip(c2 + 1));
                    }
                }
            }
        }
        Err(AppError::Parse(String::from_str("Invalid line: ").concat(line)))
    }

    /// Reads a line `name,phone,email` as a contact made now.
    ///
    /// The times come from the clock; [`Contact::from_line_at`] says what is
    /// returned for each pair of them.
    pub fn from_line(line: &str) -> (r: Result<Contact, AppError>)
        ensures
            exists|created_at: Timestamp, updated_at: Timestamp|
                match #[trigger] contact_of_line(line@, created_at, updated_at) {
                    Ok(c) => r is Ok && r->Ok_0@ == c,
                    Err(e) => r is Err && r->Err_0@ == e,
                },
    {
        let created_at = now();
        let updated_at = now();
        Contact::from_line_at(line, created_at, updated_at)
    }

    /// Whether the contact carries the tag.
    pub fn has_tag(&self, tag: &str) -> (r: bool)
        ensures
            r == self@.tags.contains(tag@),
    {
        contains_text(&self.tags, tag)
    }

    /// Whether the address ends with `@` and the domain.
    pub fn has_domain(&self, domain: &str) -> (r: bool)
        ensures
            r == ends_with(self@.email, seq!['@'] + domain@),
    {
        let e = chars_of(self.email.as_str());
        let d = chars_of(domain);
        let n = e.len();
        let m = d.len();
        if m >= n {
            return false;
        }
        let start = n - m;
        if e[start - 1] != '@' {
            proof {
                let suffix = seq!['@'] + domain@;
                assert(self@.email.skip(n - suffix.len())[0] == e@[start - 1]);
                assert(suffix[0] == '@');
            }
            return false;
        }
        let mut i: usize = 0;
        while i < m
            invariant
                e@ == self@.email,
                d@ == domain@,
                n == e@.len(),
                m == d@.len(),
                m < n,
                start == n - m,
                i <= m,
                forall|j: int| 0 <= j < i ==> e@[start + j] == d@[j],
            decreases m - i,
        {
            if e[start + i] != d[i] {
                proof {
                    let suffix = seq!['@'] + domain@;
                    assert(self@.email.skip(n - suffix.len())[1 + i] == e@[start + i]);
                    assert(suffix[1 + i] == d@[i as int]);
                }
                return false;
            }
            i += 1;
        }
        proof {
            let suffix = seq!['@'] + domain@;
            assert(self@.email.skip(n - suffix.len()) =~= suffix);
        }
        true
    }
}

} // verus!
