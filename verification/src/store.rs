//! What a store of contacts computes between loading and saving: the
//! positions that a search finds, and the list that a merge leaves.

use vstd::prelude::*;
use vstd::string::*;
use crate::buckets::bucket;
use crate::contact::{contact_of_line, ends_with, views, Contact, ContactView};
use crate::error::{AppError, ErrorView};
use crate::index::{fuzzy_matches, index_of, ContactsIndex};
use crate::policy::MergePolicy;
use crate::positions::{first_true, lemma_first_true, true_positions};
use crate::outside::lowercase;
use crate::text::{copy_texts, texts};
use crate::time::Timestamp;

verus! {

/// Names the file that a store keeps its contacts in.
pub struct AppState {
    pub path: String,
}

impl AppState {
    /// The state of a store that keeps its contacts in the file at `path`.
    pub fn new(path: &str) -> (r: AppState)
        ensures
            r.path@ == path@,
    {
        AppState { path: path.to_owned() }
    }
}

/// How far a fuzzy query of a store may be from what it finds.
pub const SEARCH_EDITS: usize = 2;

/// What a search finds: the positions under the name, then those under the
/// domain, then those that the fuzzy query is near; each part only where
/// its query is not empty.
pub open spec fn search_matches(
    cs: Seq<ContactView>,
    name: Seq<char>,
    domain: Seq<char>,
    fuzzy: Seq<char>,
) -> Seq<usize> {
    let index = index_of(cs);
    let by_name = if name.len() > 0 {
        bucket(index.names, lowercase(name))
    } else {
        Seq::empty()
    };
    let by_domain = if domain.len() > 0 {
        bucket(index.domains, lowercase(domain))
    } else {
        Seq::empty()
    };
    let by_fuzzy = if fuzzy.len() > 0 {
        fuzzy_matches(fuzzy, cs, SEARCH_EDITS as nat)
    } else {
        Seq::empty()
    };
    by_name + by_domain + by_fuzzy
}

/// Whether a contact passes the filters of a listing: it carries the tag,
/// where one is asked for, and its address ends with `@` and the domain,
/// where one is asked for.
pub open spec fn passes(c: ContactView, tag: Option<Seq<char>>, domain: Option<Seq<char>>) -> bool {
    &&& match tag {
        Some(t) => c.tags.contains(t),
        None => true,
    }
    &&& match domain {
        Some(d) => ends_with(c.email, seq!['@'] + d),
        None => true,
    }
}

/// The characters of a text that may be missing.
pub open spec fn text_of(o: Option<&str>) -> Option<Seq<char>> {
    match o {
        Some(s) => Some(s@),
        None => None,
    }
}

/// What a listing shows: the positions of the contacts that pass the
/// filters, in ascending order.
pub open spec fn listed(
    cs: Seq<ContactView>,
    tag: Option<Seq<char>>,
    domain: Option<Seq<char>>,
) -> Seq<usize> {
    true_positions(Seq::new(cs.len(), |i: int| passes(cs[i], tag, domain)))
}

/// The positions of the contacts that a listing shows.
pub fn list(contacts: &[Contact], tag: Option<&str>, domain: Option<&str>) -> (r: Vec<usize>)
    ensures
        r@ == listed(views(contacts@), text_of(tag), text_of(domain)),
{
    let ghost flags = Seq::new(
        contacts@.len(),
        |i: int| passes(views(contacts@)[i], text_of(tag), text_of(domain)),
    );
    let mut out: Vec<usize> = Vec::new();
    let n = contacts.len();
    let mut i: usize = 0;
    while i < n
        invariant
            n == contacts@.len(),
            i <= n,
            flags == Seq::new(
                contacts@.len(),
                |i: int| passes(views(contacts@)[i], text_of(tag), text_of(domain)),
            ),
            out@ == true_positions(flags.take(i as int)),
        decreases n - i,
    {
        let c = &contacts[i];
        let tagged = match tag {
            Some(t) => c.has_tag(t),
            None => true,
        };
        let placed = match domain {
            Some(d) => c.has_domain(d),
            None => true,
        };
        proof {
            assert(flags.take(i + 1).drop_last() =~= flags.take(i as int));
            assert(flags.take(i + 1).last() == (tagged && placed));
        }
        if tagged && placed {
            out.push(i);
        }
        i += 1;
    }
    assert(flags.take(n as int) =~= flags);
    out
}

/// Whether the numbers stand in strictly ascending order.
pub open spec fn ascending(s: Seq<usize>) -> bool {
    forall|i: int, j: int| 0 <= i < j < s.len() ==> s[i] < s[j]
}

/// The positions that a search of the contacts finds, in the order of its
/// three parts; a position that several parts find stands there several
/// times.
pub fn search(contacts: &[Contact], name: &str, domain: &str, fuzzy: &str) -> (r: Vec<usize>)
    ensures
        r@ == search_matches(views(contacts@), name@, domain@, fuzzy@),
{
    let index = ContactsIndex::build(contacts);
    let mut matches: Vec<usize> = Vec::new();
    if !name.is_empty() {
        let mut found = index.lookup_name(name);
        matches.append(&mut found);
    }
    if !domain.is_empty() {
        let mut found = index.lookup_domain(domain);
        matches.append(&mut found);
    }
    if !fuzzy.is_empty() {
        let mut found = index.fuzzy_search(fuzzy, contacts, SEARCH_EDITS);
        matches.append(&mut found);
    }
    assert(matches@ =~= search_matches(views(contacts@), name@, domain@, fuzzy@));
    matches
}

/// Puts `x` into the ascending list, unless it is there.
fn insert_ascending(list: &mut Vec<usize>, x: usize)
    requires
        ascending(old(list)@),
    ensures
        ascending(final(list)@),
        forall|y: usize| final(list)@.contains(y) <==> (old(list)@.contains(y) || y == x),
{
    let n = list.len();
    let mut i: usize = 0;
    while i < n && list[i] < x
        invariant
            n == list@.len(),
            list@ == old(list)@,
            i <= n,
            forall|j: int| 0 <= j < i ==> list@[j] < x,
        decreases n - i,
    {
        i += 1;
    }
    if i < n && list[i] == x {
        assert forall|y: usize| list@.contains(y) || y == x implies list@.contains(y) by {
            if y == x {
                assert(list@[i as int] == x);
            }
        }
        return ;
    }
    let ghost before = list@;
    list.insert(i, x);
    proof {
        let after = list@;
        assert forall|a: int, b: int| 0 <= a < b < after.len() implies after[a] < after[b] by {
            if b < i {
                assert(after[a] == before[a] && after[b] == before[b]);
            } else if b == i {
                assert(after[a] == before[a]);
            } else if a < i {
                assert(after[a] == before[a] && after[b] == before[b - 1]);
                assert(before[b - 1] >= x) by {
                    if b - 1 > i {
                        assert(before[i as int] < before[b - 1]);
                    }
                }
            } else if a == i {
                assert(after[b] == before[b - 1]);
                if b - 1 > i {
                    assert(before[i as int] < before[b - 1]);
                }
            } else {
                assert(after[a] == before[a - 1] && after[b] == before[b - 1]);
            }
        }
        assert forall|y: usize| after.contains(y) <==> (before.contains(y) || y == x) by {
            if after.contains(y) {
                let j = choose|j: int| 0 <= j < after.len() && after[j] == y;
                if j < i {
                    assert(before[j] == y);
                } else if j > i {
                    assert(before[j - 1] == y);
                }
            }
            if before.contains(y) {
                let j = choose|j: int| 0 <= j < before.len() && before[j] == y;
                if j < i {
                    assert(after[j] == y);
                } else {
                    assert(after[j + 1] == y);
                }
            }
            if y == x {
                assert(after[i as int] == x);
            }
        }
    }
}

/// The numbers of the list in ascending order, each once.
pub fn sorted_distinct(list: &Vec<usize>) -> (r: Vec<usize>)
    ensures
        ascending(r@),
        forall|y: usize| r@.contains(y) <==> list@.contains(y),
{
    let mut out: Vec<usize> = Vec::new();
    let n = list.len();
    let mut i: usize = 0;
    while i < n
        invariant
            n == list@.len(),
            i <= n,
            ascending(out@),
            forall|y: usize| out@.contains(y) <==> list@.take(i as int).contains(y),
        decreases n - i,
    {
        let ghost before = out@;
        insert_ascending(&mut out, list[i]);
        proof {
            let x = list@[i as int];
            let prev = list@.take(i as int);
            let next = list@.take(i + 1);
            assert forall|y: usize| out@.contains(y) <==> next.contains(y) by {
                if next.contains(y) {
                    let j = choose|j: int| 0 <= j < next.len() && next[j] == y;
                    if j < i {
                        assert(prev[j] == y);
                    }
                }
                if prev.contains(y) {
                    let j = choose|j: int| 0 <= j < prev.len() && prev[j] == y;
                    assert(next[j] == y);
                }
                if y == x {
                    assert(next[i as int] == y);
                }
            }
        }
        i += 1;
    }
    assert(list@.take(n as int) =~= list@);
    out
}

/// The positions that a search of the contacts finds, in ascending order,
/// each once.
pub fn search_sorted(contacts: &[Contact], name: &str, domain: &str, fuzzy: &str) -> (r: Vec<usize>)
    ensures
        ascending(r@),
        forall|p: usize|
            r@.contains(p) <==> search_matches(views(contacts@), name@, domain@, fuzzy@).contains(p),
{
    let found = search(contacts, name, domain, fuzzy);
    sorted_distinct(&found)
}

/// The contacts of the lines that can be read as `name,phone,email`, in
/// the order of the lines; the other lines are passed over.
pub open spec fn contacts_in_lines(
    lines: Seq<Seq<char>>,
    created_at: Timestamp,
    updated_at: Timestamp,
) -> Seq<ContactView>
    decreases lines.len(),
{
    if lines.len() == 0 {
        Seq::empty()
    } else {
        let before = contacts_in_lines(lines.drop_last(), created_at, updated_at);
        match contact_of_line(lines.last(), created_at, updated_at) {
            Ok(c) => before.push(c),
            Err(_) => before,
        }
    }
}

/// The contacts of the lines of a plain-text store.
pub fn contacts_of_lines(
    lines: &Vec<String>,
    created_at: Timestamp,
    updated_at: Timestamp,
) -> (r: Vec<Contact>)
    ensures
        views(r@) == contacts_in_lines(texts(lines@), created_at, updated_at),
{
    let ghost all = texts(lines@);
    let mut out: Vec<Contact> = Vec::new();
    let n = lines.len();
    let mut i: usize = 0;
    while i < n
        invariant
            n == lines@.len(),
            all == texts(lines@),
            i <= n,
            views(out@) == contacts_in_lines(all.take(i as int), created_at, updated_at),
        decreases n - i,
    {
        let ghost earlier = views(out@);
        proof {
            assert(all.take(i + 1).drop_last() =~= all.take(i as int));
            assert(all.take(i + 1).last() == lines@[i as int]@);
        }
        match Contact::from_line_at(lines[i].as_str(), created_at, updated_at) {
            Ok(c) => {
                let ghost v = c@;
                out.push(c);
                assert(views(out@) =~= earlier.push(v));
            },
            Err(_) => {},
        }
        i += 1;
    }
    assert(all.take(n as int) =~= all);
    out
}

/// The rows of a table as plain values: each a contact, or why it is none.
pub open spec fn row_views(rows: Seq<Result<Contact, String>>) -> Seq<Result<ContactView, Seq<char>>> {
    Seq::new(
        rows.len(),
        |i: int|
            match rows[i] {
                Ok(c) => Ok(c@),
                Err(why) => Err(why@),
            },
    )
}

/// Where the first row that is no contact stands; the number of rows where
/// each is one.
pub open spec fn first_bad_row(rows: Seq<Result<ContactView, Seq<char>>>) -> int {
    first_true(Seq::new(rows.len(), |i: int| rows[i] is Err))
}

/// What reading the rows of a table gives: the error of the first row that
/// is no contact, the error of a table without rows, or the contacts of
/// the rows in their order.
pub open spec fn table_outcome(
    rows: Seq<Result<ContactView, Seq<char>>>,
) -> Result<Seq<ContactView>, ErrorView> {
    let bad = first_bad_row(rows);
    if bad < rows.len() {
        Err(ErrorView::Parse(rows[bad]->Err_0))
    } else if rows.len() == 0 {
        Err(ErrorView::Parse("Error: No CSV data"@))
    } else {
        Ok(Seq::new(rows.len(), |i: int| rows[i]->Ok_0))
    }
}

/// The contacts of the rows that were decoded from a table.
pub fn contacts_of_rows(rows: Vec<Result<Contact, String>>) -> (r: Result<Vec<Contact>, AppError>)
    ensures
        match table_outcome(row_views(rows@)) {
            Ok(list) => r is Ok && views(r->Ok_0@) == list,
            Err(e) => r is Err && r->Err_0@ == e,
        },
{
    let ghost all = row_views(rows@);
    let ghost flags = Seq::new(all.len(), |i: int| all[i] is Err);
    let mut out: Vec<Contact> = Vec::new();
    let n = rows.len();
    let mut i: usize = 0;
    while i < n
        invariant
            n == rows@.len(),
            all == row_views(rows@),
            flags == Seq::new(all.len(), |i: int| all[i] is Err),
            i <= n,
            out@.len() == i,
            forall|j: int| 0 <= j < i ==> !flags[j],
            forall|j: int| 0 <= j < i ==> all[j] == Ok::<ContactView, Seq<char>>(out@[j]@),
        decreases n - i,
    {
        match &rows[i] {
            Ok(c) => {
                out.push(c.clone());
            },
            Err(why) => {
                proof {
                    lemma_first_true(flags, i as int);
                }
                return Err(AppError::Parse(why.clone()));
            },
        }
        i += 1;
    }
    proof {
        lemma_first_true(flags, n as int);
    }
    if n == 0 {
        return Err(AppError::Parse(String::from_str("Error: No CSV data")));
    }
    assert(views(out@) =~= Seq::new(all.len(), |i: int| all[i]->Ok_0));
    Ok(out)
}

/// For each contact, whether it has the name and the address of `c`.
pub open spec fn address_flags(items: Seq<ContactView>, c: ContactView) -> Seq<bool> {
    Seq::new(items.len(), |p: int| items[p].name == c.name && items[p].email == c.email)
}

/// The contact under the name that marks it as a second copy.
pub open spec fn marked_copy(c: ContactView) -> ContactView {
    ContactView {
        name: c.name + " (dup)"@,
        phone: c.phone,
        email: c.email,
        tags: c.tags,
        created_at: c.created_at,
        updated_at: c.updated_at,
    }
}

/// What merging one incoming contact into a list gives, where two contacts
/// are taken for one by name and address.
///
/// `Keep` skips it where the list has such a contact. `Overwrite` puts it
/// in place of the first such contact. `Duplicate` appends it, marked as a
/// copy where the list has such a contact. Where the list has none, each
/// policy appends it.
pub open spec fn list_merge_one(
    items: Seq<ContactView>,
    c: ContactView,
    policy: MergePolicy,
) -> Seq<ContactView> {
    let p = first_true(address_flags(items, c));
    if p >= items.len() {
        items.push(c)
    } else {
        match policy {
            MergePolicy::Keep => items,
            MergePolicy::Overwrite => items.update(p, c),
            MergePolicy::Duplicate => items.push(marked_copy(c)),
        }
    }
}

/// What merging the incoming contacts, one after the other, gives.
pub open spec fn list_merged(
    items: Seq<ContactView>,
    incoming: Seq<ContactView>,
    policy: MergePolicy,
) -> Seq<ContactView>
    decreases incoming.len(),
{
    if incoming.len() == 0 {
        items
    } else {
        list_merge_one(list_merged(items, incoming.drop_last(), policy), incoming.last(), policy)
    }
}

/// The first contact of the list that has the name and the address of `c`.
fn find_by_address(list: &Vec<Contact>, c: &Contact) -> (r: Option<usize>)
    ensures
        match r {
            Some(p) => p < list@.len() && p == first_true(address_flags(views(list@), c@)),
            None => first_true(address_flags(views(list@), c@)) == list@.len(),
        },
{
    let ghost flags = address_flags(views(list@), c@);
    let n = list.len();
    let mut i: usize = 0;
    while i < n
        invariant
            n == list@.len(),
            flags == address_flags(views(list@), c@),
            i <= n,
            forall|j: int| 0 <= j < i ==> !flags[j],
        decreases n - i,
    {
        if list[i].name == c.name && list[i].email == c.email {
            proof {
                lemma_first_true(flags, i as int);
            }
            return Some(i);
        }
        i += 1;
    }
    proof {
        lemma_first_true(flags, n as int);
    }
    None
}

/// The list that a store keeps after a merge: the existing contacts with
/// the imported ones merged in, one after the other, where two contacts
/// are taken for one by name and address.
pub fn merge_lists(
    existing: Vec<Contact>,
    imported: Vec<Contact>,
    policy: MergePolicy,
) -> (r: Vec<Contact>)
    ensures
        views(r@) == list_merged(views(existing@), views(imported@), policy),
{
    let ghost before = views(existing@);
    let ghost all = views(imported@);
    let mut list = existing;
    let n = imported.len();
    let mut i: usize = 0;
    while i < n
        invariant
            n == imported@.len(),
            all == views(imported@),
            i <= n,
            views(list@) == list_merged(before, all.take(i as int), policy),
        decreases n - i,
    {
        let c = imported[i].clone();
        let ghost earlier = views(list@);
        proof {
            assert(all.take(i + 1).drop_last() =~= all.take(i as int));
            assert(all.take(i + 1).last() == c@);
        }
        match find_by_address(&list, &c) {
            None => {
                list.push(c);
                assert(views(list@) =~= earlier.push(c@));
            },
            Some(p) => {
                match policy {
                    MergePolicy::Keep => {},
                    MergePolicy::Overwrite => {
                        list.set(p, c);
                        assert(views(list@) =~= earlier.update(p as int, c@));
                    },
                    MergePolicy::Duplicate => {
                        let copy = Contact {
                            name: c.name.clone().concat(" (dup)"),
                            phone: copy_texts(&c.phone),
                            email: c.email.clone(),
                            tags: copy_texts(&c.tags),
                            created_at: c.created_at,
                            updated_at: c.updated_at,
                        };
                        assert(copy@ == marked_copy(c@));
                        list.push(copy);
                        assert(views(list@) =~= earlier.push(marked_copy(c@)));
                    },
                }
            },
        }
        i += 1;
    }
    assert(all.take(n as int) =~= all);
    list
}

} // verus!
