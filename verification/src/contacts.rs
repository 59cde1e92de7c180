//! The contact collection: an ordered sequence of contacts and a live
//! index that every change keeps in step with it.

use vstd::prelude::*;
use vstd::string::*;
use crate::buckets::{
    bucket, consistent, lemma_grouped_consistent, lemma_moved_consistent,
    lemma_renumbered_consistent, lemma_with_position_consistent, rekeyed, renumbered,
    with_position,
};
use crate::contact::{views, Contact, ContactView};
use crate::error::{AppError, ErrorView};
use crate::index::{
    domain_key, domain_keys, index_of, name_key, name_keys, ContactsIndex, IndexView,
};
use crate::policy::MergePolicy;
use crate::positions::{
    first_true, lemma_first_true, lemma_first_true_found, lemma_first_true_in_range,
};
use crate::outside::{lowercase, now};
use crate::text::{contains_text, copy_texts, same_texts, texts};
use crate::time::Timestamp;
use crate::validation::{
    check_contact_exist, count_contacts_named, count_named, holds_identity, invalid_name_message,
    invalid_phone_message, same_identity, same_person, valid_email, valid_name, valid_phone,
    validate_email, validate_name, validate_phone_number, ValidationResponse,
};

verus! {

/// A collection as plain values: its contacts in order, and its index.
pub struct ContactsView {
    pub items: Seq<ContactView>,
    pub index: IndexView,
}

/// Whether the index agrees with the contacts: each position stands in the
/// name bucket of its contact's name key and in the domain bucket of its
/// contact's domain key, no bucket holds a position that is out of range,
/// stands under another key or stands there twice, and no bucket is empty.
pub open spec fn indexed(v: ContactsView) -> bool {
    &&& consistent(v.index.names, name_keys(v.items))
    &&& consistent(v.index.domains, domain_keys(v.items))
}

/// The collection with `c` appended and its position entered in the index.
pub open spec fn added(v: ContactsView, c: ContactView) -> ContactsView {
    ContactsView {
        items: v.items.push(c),
        index: IndexView {
            names: with_position(v.index.names, name_key(c), v.items.len() as usize),
            domains: with_position(v.index.domains, domain_key(c), v.items.len() as usize),
        },
    }
}

/// The collection without the contact at `p`: the later contacts move one
/// position down, and the index is renumbered to match.
pub open spec fn removed(v: ContactsView, p: int) -> ContactsView {
    ContactsView {
        items: v.items.remove(p),
        index: IndexView {
            names: renumbered(v.index.names, p as usize),
            domains: renumbered(v.index.domains, p as usize),
        },
    }
}

/// The collection with `c` in place of the contact at `p`, and `p` moved to
/// the buckets of `c` where a key differs.
pub open spec fn replaced(v: ContactsView, p: int, c: ContactView) -> ContactsView {
    ContactsView {
        items: v.items.update(p, c),
        index: IndexView {
            names: rekeyed(v.index.names, p as usize, name_key(v.items[p]), name_key(c)),
            domains: rekeyed(v.index.domains, p as usize, domain_key(v.items[p]), domain_key(c)),
        },
    }
}

/// The message for an addition that repeats a contact.
pub open spec fn duplicate_message() -> Seq<char> {
    "Contact with info already exists"@
}

/// The message for a deletion that names several contacts.
pub open spec fn ambiguous_message() -> Seq<char> {
    "There are more than one contact with the name. Please provide the phone number to continue the action"@
}

/// The message for an update that names no contact.
pub open spec fn not_found_message(name: Seq<char>, phone: Seq<char>) -> Seq<char> {
    "Contact with name '"@ + name + "' and phone '"@ + phone + "' not found"@
}

/// What an addition gives: the collection with `c` appended, or the error
/// where a contact of the same name shares a phone number with `c`.
pub open spec fn add_outcome(v: ContactsView, c: ContactView) -> Result<ContactsView, ErrorView> {
    if holds_identity(v.items, c) {
        Err(ErrorView::Validation(duplicate_message()))
    } else {
        Ok(added(v, c))
    }
}

/// The text of an argument that may be missing.
pub open spec fn text_or_empty(o: Option<String>) -> Seq<char> {
    match o {
        Some(s) => s@,
        None => Seq::empty(),
    }
}

/// For each contact, whether it stands under `key` and has the phone
/// number.
pub open spec fn delete_flags(items: Seq<ContactView>, key: Seq<char>, phone: Seq<char>) -> Seq<bool> {
    Seq::new(items.len(), |p: int| name_key(items[p]) == key && items[p].phone.contains(phone))
}

/// The position that a deletion removes: the only candidate, or the first
/// contact under the name key that has the phone number.
pub open spec fn delete_target(v: ContactsView, name: Seq<char>, phone: Seq<char>) -> Option<int> {
    let candidates = bucket(v.index.names, lowercase(name));
    if candidates.len() == 1 {
        Some(candidates[0] as int)
    } else {
        let p = first_true(delete_flags(v.items, lowercase(name), phone));
        if p < v.items.len() {
            Some(p)
        } else {
            None
        }
    }
}

/// What a deletion gives. With no candidate under the name the collection
/// stays as it is. With several and no phone number it fails. Else the
/// target is removed, or nothing where no candidate has the phone number.
pub open spec fn delete_outcome(
    v: ContactsView,
    name: Seq<char>,
    phone: Seq<char>,
) -> Result<ContactsView, ErrorView> {
    let candidates = bucket(v.index.names, lowercase(name));
    if candidates.len() == 0 {
        Ok(v)
    } else if candidates.len() > 1 && phone.len() == 0 {
        Err(ErrorView::Parse(ambiguous_message()))
    } else {
        match delete_target(v, name, phone) {
            Some(p) => Ok(removed(v, p)),
            None => Ok(v),
        }
    }
}

/// For each contact, whether it has the name and the phone number.
pub open spec fn update_flags(items: Seq<ContactView>, name: Seq<char>, phone: Seq<char>) -> Seq<bool> {
    Seq::new(items.len(), |p: int| items[p].name == name && items[p].phone.contains(phone))
}

/// The contact after an update: each field that was supplied is
/// overwritten, the tags are overwritten always, and the time of the last
/// change is `now`.
pub open spec fn revised(
    c: ContactView,
    tags: Seq<Seq<char>>,
    new_name: Seq<char>,
    new_phone: Seq<char>,
    new_email: Seq<char>,
    now: Timestamp,
) -> ContactView {
    ContactView {
        name: if new_name.len() > 0 {
            new_name
        } else {
            c.name
        },
        phone: if new_phone.len() > 0 {
            seq![new_phone]
        } else {
            c.phone
        },
        email: if new_email.len() > 0 {
            new_email
        } else {
            c.email
        },
        tags,
        created_at: c.created_at,
        updated_at: now,
    }
}

/// What an update gives: the error of the first rule that fails, or the
/// collection with the first contact of that name and phone number revised.
/// An empty new field counts as not supplied.
pub open spec fn update_outcome(
    v: ContactsView,
    name: Seq<char>,
    phone: Seq<char>,
    tags: Seq<Seq<char>>,
    new_name: Seq<char>,
    new_phone: Seq<char>,
    new_email: Seq<char>,
    now: Timestamp,
) -> Result<ContactsView, ErrorView> {
    let p = first_true(update_flags(v.items, name, phone));
    if !valid_name(name) {
        Err(ErrorView::Validation(invalid_name_message()))
    } else if !valid_phone(phone) {
        Err(ErrorView::Validation(invalid_phone_message()))
    } else if p >= v.items.len() {
        Err(ErrorView::Parse(not_found_message(name, phone)))
    } else if new_name.len() > 0 && !valid_name(new_name) {
        Err(ErrorView::Validation("New name is invalid"@))
    } else if new_phone.len() > 0 && !valid_phone(new_phone) {
        Err(ErrorView::Validation("New phone number is invalid"@))
    } else if new_email.len() > 0 && !valid_email(new_email) {
        Err(ErrorView::Validation("New email is invalid"@))
    } else {
        Ok(replaced(v, p, revised(v.items[p], tags, new_name, new_phone, new_email, now)))
    }
}

/// For each contact, whether it has the identity key of `c`: the same name
/// and the same list of phone numbers.
pub open spec fn identity_flags(items: Seq<ContactView>, c: ContactView) -> Seq<bool> {
    Seq::new(items.len(), |p: int| items[p].name == c.name && items[p].phone == c.phone)
}

/// The contact with the phone numbers of `c` appended to its own, changed
/// at `now`.
pub open spec fn extended(e: ContactView, c: ContactView, now: Timestamp) -> ContactView {
    ContactView {
        name: e.name,
        phone: e.phone + c.phone,
        email: e.email,
        tags: e.tags,
        created_at: e.created_at,
        updated_at: now,
    }
}

/// The contacts, each one that denotes the same person as `c` extended by
/// the phone numbers of `c`.
pub open spec fn extended_all(
    items: Seq<ContactView>,
    c: ContactView,
    now: Timestamp,
) -> Seq<ContactView> {
    Seq::new(
        items.len(),
        |i: int|
            if same_identity(items[i], c) {
                extended(items[i], c, now)
            } else {
                items[i]
            },
    )
}

/// What merging one incoming contact gives.
///
/// `Keep` skips it where a contact has its identity key and appends it
/// where none has. `Overwrite` puts it in place of the first contact that
/// has its identity key and appends it where none has. `Duplicate` appends
/// its phone numbers to every contact that denotes the same person, and
/// adds no contact.
pub open spec fn merge_one(
    v: ContactsView,
    c: ContactView,
    policy: MergePolicy,
    now: Timestamp,
) -> ContactsView {
    let p = first_true(identity_flags(v.items, c));
    match policy {
        MergePolicy::Keep => if p < v.items.len() {
            v
        } else {
            added(v, c)
        },
        MergePolicy::Overwrite => if p < v.items.len() {
            replaced(v, p, c)
        } else {
            added(v, c)
        },
        MergePolicy::Duplicate => ContactsView {
            items: extended_all(v.items, c, now),
            index: v.index,
        },
    }
}

/// What merging the incoming contacts, one after the other, gives.
pub open spec fn merged(
    v: ContactsView,
    incoming: Seq<ContactView>,
    policy: MergePolicy,
    now: Timestamp,
) -> ContactsView
    decreases incoming.len(),
{
    if incoming.len() == 0 {
        v
    } else {
        merge_one(merged(v, incoming.drop_last(), policy, now), incoming.last(), policy, now)
    }
}

/// What was decoded from a source, as plain values: the contacts, or why
/// there are none.
pub open spec fn decoded_view(
    decoded: Result<Vec<Contact>, String>,
) -> Result<Seq<ContactView>, Seq<char>> {
    match decoded {
        Ok(list) => Ok(views(list@)),
        Err(why) => Err(why@),
    }
}

/// What a merge gives: the contacts merged in, or the error where the
/// source could not be decoded.
pub open spec fn merge_outcome(
    v: ContactsView,
    decoded: Result<Seq<ContactView>, Seq<char>>,
    policy: MergePolicy,
    now: Timestamp,
) -> Result<ContactsView, ErrorView> {
    match decoded {
        Ok(incoming) => Ok(merged(v, incoming, policy, now)),
        Err(why) => Err(ErrorView::Parse("Error, JSON... : "@ + why)),
    }
}

/// What adding the records, one after the other, gives: the collection
/// after the last addition that succeeded, and the error of the first that
/// failed, after which nothing is added.
pub open spec fn imported(
    v: ContactsView,
    records: Seq<ContactView>,
) -> (ContactsView, Option<ErrorView>)
    decreases records.len(),
{
    if records.len() == 0 {
        (v, None)
    } else {
        let (before, failed) = imported(v, records.drop_last());
        if failed is Some {
            (before, failed)
        } else {
            match add_outcome(before, records.last()) {
                Ok(after) => (after, None),
                Err(e) => (before, Some(e)),
            }
        }
    }
}

/// What an import gives, from the status of the response and what was
/// decoded from its body: a status other than 200 is a network error, a
/// body that could not be decoded is a parse error, and the records of a
/// body that could are added one after the other.
pub open spec fn import_outcome(
    v: ContactsView,
    status: u16,
    status_text: Seq<char>,
    decoded: Result<Seq<ContactView>, Seq<char>>,
) -> (ContactsView, Option<ErrorView>) {
    if status != 200 {
        (v, Some(ErrorView::Network("Failed to import: "@ + status_text)))
    } else {
        match decoded {
            Ok(records) => imported(v, records),
            Err(why) => (v, Some(ErrorView::Parse("Invalid JSON: "@ + why))),
        }
    }
}

/// What an export gives, from the status of the response: a status other
/// than 200 is a network error.
pub open spec fn export_outcome(status: u16, status_text: Seq<char>) -> Option<ErrorView> {
    if status != 200 {
        Some(ErrorView::Network("Failed to export: "@ + status_text))
    } else {
        None
    }
}

proof fn lemma_keys_push(cs: Seq<ContactView>, c: ContactView)
    ensures
        name_keys(cs.push(c)) == name_keys(cs).push(name_key(c)),
        domain_keys(cs.push(c)) == domain_keys(cs).push(domain_key(c)),
{
    assert(name_keys(cs.push(c)) =~= name_keys(cs).push(name_key(c)));
    assert(domain_keys(cs.push(c)) =~= domain_keys(cs).push(domain_key(c)));
}

proof fn lemma_keys_remove(cs: Seq<ContactView>, p: int)
    requires
        0 <= p < cs.len(),
    ensures
        name_keys(cs.remove(p)) == name_keys(cs).remove(p),
        domain_keys(cs.remove(p)) == domain_keys(cs).remove(p),
{
    assert(name_keys(cs.remove(p)) =~= name_keys(cs).remove(p));
    assert(domain_keys(cs.remove(p)) =~= domain_keys(cs).remove(p));
}

proof fn lemma_keys_update(cs: Seq<ContactView>, p: int, c: ContactView)
    requires
        0 <= p < cs.len(),
    ensures
        name_keys(cs.update(p, c)) == name_keys(cs).update(p, name_key(c)),
        domain_keys(cs.update(p, c)) == domain_keys(cs).update(p, domain_key(c)),
{
    assert(name_keys(cs.update(p, c)) =~= name_keys(cs).update(p, name_key(c)));
    assert(domain_keys(cs.update(p, c)) =~= domain_keys(cs).update(p, domain_key(c)));
}

/// An addition keeps the index in agreement with the contacts.
pub proof fn lemma_added_indexed(v: ContactsView, c: ContactView)
    requires
        indexed(v),
        v.items.len() < usize::MAX,
    ensures
        indexed(added(v, c)),
{
    lemma_keys_push(v.items, c);
    lemma_with_position_consistent(v.index.names, name_keys(v.items), name_key(c));
    lemma_with_position_consistent(v.index.domains, domain_keys(v.items), domain_key(c));
}

/// A removal keeps the index in agreement with the contacts.
pub proof fn lemma_removed_indexed(v: ContactsView, p: int)
    requires
        indexed(v),
        0 <= p < v.items.len(),
    ensures
        indexed(removed(v, p)),
{
    lemma_keys_remove(v.items, p);
    lemma_renumbered_consistent(v.index.names, name_keys(v.items), p as usize);
    lemma_renumbered_consistent(v.index.domains, domain_keys(v.items), p as usize);
}

/// A replacement keeps the index in agreement with the contacts.
pub proof fn lemma_replaced_indexed(v: ContactsView, p: int, c: ContactView)
    requires
        indexed(v),
        0 <= p < v.items.len(),
    ensures
        indexed(replaced(v, p, c)),
{
    lemma_keys_update(v.items, p, c);
    let names = name_keys(v.items);
    let domains = domain_keys(v.items);
    if name_key(v.items[p]) == name_key(c) {
        assert(names.update(p, name_key(c)) =~= names);
    } else {
        lemma_moved_consistent(v.index.names, names, p as usize, name_key(c));
    }
    if domain_key(v.items[p]) == domain_key(c) {
        assert(domains.update(p, domain_key(c)) =~= domains);
    } else {
        lemma_moved_consistent(v.index.domains, domains, p as usize, domain_key(c));
    }
}

/// Appending phone numbers to contacts keeps the index in agreement with
/// them.
pub proof fn lemma_extended_indexed(v: ContactsView, c: ContactView, now: Timestamp)
    requires
        indexed(v),
    ensures
        indexed(ContactsView { items: extended_all(v.items, c, now), index: v.index }),
{
    let items = extended_all(v.items, c, now);
    assert(name_keys(items) =~= name_keys(v.items));
    assert(domain_keys(items) =~= domain_keys(v.items));
}

/// In a collection whose index agrees with its contacts, each position
/// stands in the name bucket of its contact's lowercase name and in the
/// domain bucket of its contact's lowercase domain, and every position that
/// a bucket holds is a position of the collection.
pub proof fn lemma_index_covers_positions(v: ContactsView)
    requires
        indexed(v),
    ensures
        forall|p: int|
            0 <= p < v.items.len() ==> bucket(v.index.names, name_key(#[trigger] v.items[p])).contains(
                p as usize,
            ) && bucket(v.index.domains, domain_key(v.items[p])).contains(p as usize),
        forall|k: Seq<char>, j: int|
            0 <= j < bucket(v.index.names, k).len() ==> (#[trigger] bucket(v.index.names, k)[j])
                < v.items.len(),
        forall|k: Seq<char>, j: int|
            0 <= j < bucket(v.index.domains, k).len() ==> (#[trigger] bucket(v.index.domains, k)[j])
                < v.items.len(),
{
    assert forall|p: int| 0 <= p < v.items.len() implies bucket(
        v.index.names,
        name_key(#[trigger] v.items[p]),
    ).contains(p as usize) && bucket(v.index.domains, domain_key(v.items[p])).contains(
        p as usize,
    ) by {
        assert(name_keys(v.items)[p] == name_key(v.items[p]));
        assert(domain_keys(v.items)[p] == domain_key(v.items[p]));
    }
    assert forall|k: Seq<char>, j: int| 0 <= j < bucket(v.index.names, k).len() implies (
    #[trigger] bucket(v.index.names, k)[j]) < v.items.len() by {
        assert(v.index.names[k][j] < name_keys(v.items).len());
    }
    assert forall|k: Seq<char>, j: int| 0 <= j < bucket(v.index.domains, k).len() implies (
    #[trigger] bucket(v.index.domains, k)[j]) < v.items.len() by {
        assert(v.index.domains[k][j] < domain_keys(v.items).len());
    }
}

/// Whether some bucket holds the position.
pub open spec fn holds_position(m: Map<Seq<char>, Seq<usize>>, p: usize) -> bool {
    exists|k: Seq<char>| #[trigger] bucket(m, k).contains(p)
}

/// Whether the positions that the buckets hold are the numbers from 0 up to
/// the length of the collection, each under one key of either index, with
/// none missing.
pub open spec fn contiguous(v: ContactsView) -> bool {
    &&& forall|p: usize| p < v.items.len() <==> #[trigger] holds_position(v.index.names, p)
    &&& forall|p: usize| p < v.items.len() <==> #[trigger] holds_position(v.index.domains, p)
    &&& forall|p: usize, k1: Seq<char>, k2: Seq<char>|
        bucket(v.index.names, k1).contains(p) && bucket(v.index.names, k2).contains(p) ==> k1
            == k2
    &&& forall|p: usize, k1: Seq<char>, k2: Seq<char>|
        bucket(v.index.domains, k1).contains(p) && bucket(v.index.domains, k2).contains(p) ==> k1
            == k2
}

/// In a collection whose index agrees with its contacts, the positions are
/// contiguous.
pub proof fn lemma_positions_contiguous(v: ContactsView)
    requires
        indexed(v),
    ensures
        contiguous(v),
{
    lemma_consistent_contiguous(v.index.names, name_keys(v.items));
    lemma_consistent_contiguous(v.index.domains, domain_keys(v.items));
}

/// Whatever a deletion does, the index agrees with the contacts after it
/// and the positions are contiguous.
pub proof fn lemma_delete_keeps_positions_contiguous(v: ContactsView, name: Seq<char>, phone: Seq<char>)
    requires
        indexed(v),
    ensures
        match delete_outcome(v, name, phone) {
            Ok(after) => indexed(after) && contiguous(after),
            Err(_) => true,
        },
{
    match delete_outcome(v, name, phone) {
        Ok(after) => {
            lemma_delete_outcome_indexed(v, name, phone);
            lemma_positions_contiguous(after);
        },
        Err(_) => {},
    }
}

/// A deletion that succeeds leaves the index in agreement with the
/// contacts.
pub proof fn lemma_delete_outcome_indexed(v: ContactsView, name: Seq<char>, phone: Seq<char>)
    requires
        indexed(v),
    ensures
        match delete_outcome(v, name, phone) {
            Ok(after) => indexed(after),
            Err(_) => true,
        },
{
    let key = lowercase(name);
    let candidates = bucket(v.index.names, key);
    if candidates.len() == 1 {
        assert(v.index.names[key][0] < name_keys(v.items).len());
        lemma_removed_indexed(v, candidates[0] as int);
    } else if candidates.len() > 1 && phone.len() > 0 {
        let flags = delete_flags(v.items, key, phone);
        let p = first_true(flags);
        lemma_first_true_in_range(flags);
        if p < v.items.len() {
            lemma_removed_indexed(v, p);
        }
    }
}

/// A change to a collection: an addition, a deletion or an update, with
/// its arguments as plain values.
pub enum Change {
    Add { contact: ContactView },
    Delete { name: Seq<char>, phone: Seq<char> },
    Update {
        name: Seq<char>,
        phone: Seq<char>,
        tags: Seq<Seq<char>>,
        new_name: Seq<char>,
        new_phone: Seq<char>,
        new_email: Seq<char>,
        now: Timestamp,
    },
}

/// The collection after a change: what the change gives where it
/// succeeds, and the collection as it was where it fails.
pub open spec fn after_change(v: ContactsView, change: Change) -> ContactsView {
    let outcome = match change {
        Change::Add { contact } => add_outcome(v, contact),
        Change::Delete { name, phone } => delete_outcome(v, name, phone),
        Change::Update { name, phone, tags, new_name, new_phone, new_email, now } => update_outcome(
            v,
            name,
            phone,
            tags,
            new_name,
            new_phone,
            new_email,
            now,
        ),
    };
    match outcome {
        Ok(after) => after,
        Err(_) => v,
    }
}

/// The collection after a sequence of changes, one after the other.
pub open spec fn after_changes(v: ContactsView, changes: Seq<Change>) -> ContactsView
    decreases changes.len(),
{
    if changes.len() == 0 {
        v
    } else {
        after_change(after_changes(v, changes.drop_last()), changes.last())
    }
}

/// After any sequence of additions, deletions and updates the index agrees
/// with the contacts, as long as the positions stay machine numbers.
pub proof fn lemma_changes_keep_index(v: ContactsView, changes: Seq<Change>)
    requires
        indexed(v),
        v.items.len() + changes.len() <= usize::MAX,
    ensures
        indexed(after_changes(v, changes)),
        contiguous(after_changes(v, changes)),
        after_changes(v, changes).items.len() <= v.items.len() + changes.len(),
    decreases changes.len(),
{
    if changes.len() > 0 {
        let before = after_changes(v, changes.drop_last());
        lemma_changes_keep_index(v, changes.drop_last());
        match changes.last() {
            Change::Add { contact } => {
                lemma_added_indexed(before, contact);
            },
            Change::Delete { name, phone } => {
                lemma_delete_outcome_indexed(before, name, phone);
                let flags = delete_flags(before.items, lowercase(name), phone);
                lemma_first_true_in_range(flags);
            },
            Change::Update { name, phone, tags, new_name, new_phone, new_email, now } => {
                let flags = update_flags(before.items, name, phone);
                let p = first_true(flags);
                lemma_first_true_in_range(flags);
                if p < before.items.len() {
                    lemma_replaced_indexed(
                        before,
                        p,
                        revised(before.items[p], tags, new_name, new_phone, new_email, now),
                    );
                }
            },
        }
    }
    lemma_positions_contiguous(after_changes(v, changes));
}

proof fn lemma_consistent_contiguous(m: Map<Seq<char>, Seq<usize>>, keys: Seq<Seq<char>>)
    requires
        consistent(m, keys),
    ensures
        forall|p: usize| p < keys.len() <==> #[trigger] holds_position(m, p),
        forall|p: usize, k1: Seq<char>, k2: Seq<char>|
            bucket(m, k1).contains(p) && bucket(m, k2).contains(p) ==> k1 == k2,
{
    assert forall|p: usize| p < keys.len() implies #[trigger] holds_position(m, p) by {
        let k = keys[p as int];
        assert(m[k].contains(p as int as usize));
        assert(bucket(m, k).contains(p));
    }
    assert forall|p: usize, k: Seq<char>| bucket(m, k).contains(p) implies p < keys.len()
        && keys[p as int] == k by {
        let j = choose|j: int| 0 <= j < bucket(m, k).len() && bucket(m, k)[j] == p;
        assert(m[k][j] < keys.len());
    }
}

/// Under `Keep`, an incoming contact whose identity key a contact of the
/// collection has changes nothing: the collection keeps its size and each
/// contact stays as it was.
pub proof fn lemma_keep_leaves_known(v: ContactsView, c: ContactView, now: Timestamp, p: int)
    requires
        0 <= p < v.items.len(),
        v.items[p].name == c.name,
        v.items[p].phone == c.phone,
    ensures
        merge_one(v, c, MergePolicy::Keep, now) == v,
{
    let flags = identity_flags(v.items, c);
    lemma_first_true_in_range(flags);
    lemma_first_true_found(flags, p);
}

/// Under `Overwrite`, an incoming contact whose identity key a contact of
/// the collection has takes the place of the first such contact, with all
/// its fields; the collection keeps its size and the other contacts stay as
/// they were.
pub proof fn lemma_overwrite_replaces_known(v: ContactsView, c: ContactView, now: Timestamp, p: int)
    requires
        0 <= p < v.items.len(),
        v.items[p].name == c.name,
        v.items[p].phone == c.phone,
    ensures
        ({
            let first = first_true(identity_flags(v.items, c));
            let after = merge_one(v, c, MergePolicy::Overwrite, now);
            &&& 0 <= first <= p
            &&& after.items == v.items.update(first, c)
            &&& after.items.len() == v.items.len()
            &&& after.items[first] == c
        }),
{
    let flags = identity_flags(v.items, c);
    lemma_first_true_in_range(flags);
    lemma_first_true_found(flags, p);
}

/// Under `Duplicate`, the collection keeps its size; each contact that has
/// the name of the incoming contact and one of its phone numbers holds its
/// own phone numbers and then those of the incoming contact, and each
/// other contact stays as it was.
pub proof fn lemma_duplicate_extends(v: ContactsView, c: ContactView, now: Timestamp)
    ensures
        ({
            let after = merge_one(v, c, MergePolicy::Duplicate, now);
            &&& after.items.len() == v.items.len()
            &&& after.index == v.index
            &&& forall|i: int|
                0 <= i < v.items.len() && same_identity(v.items[i], c) ==> (#[trigger] after.items[i]).phone
                    == v.items[i].phone + c.phone && after.items[i].name == v.items[i].name
                    && after.items[i].email == v.items[i].email
            &&& forall|i: int|
                0 <= i < v.items.len() && !same_identity(v.items[i], c) ==> #[trigger] after.items[i]
                    == v.items[i]
        }),
{
}

/// Two indices that agree with one and the same sequence of contacts hold
/// the same positions under every key, whatever their order: a rebuilt
/// index finds what the live index finds.
pub proof fn lemma_same_lookups(a: ContactsView, b: ContactsView, k: Seq<char>, p: usize)
    requires
        indexed(a),
        indexed(b),
        a.items == b.items,
    ensures
        bucket(a.index.names, k).contains(p) <==> bucket(b.index.names, k).contains(p),
        bucket(a.index.domains, k).contains(p) <==> bucket(b.index.domains, k).contains(p),
{
    lemma_consistent_same(a.index.names, b.index.names, name_keys(a.items), k, p);
    lemma_consistent_same(b.index.names, a.index.names, name_keys(a.items), k, p);
    lemma_consistent_same(a.index.domains, b.index.domains, domain_keys(a.items), k, p);
    lemma_consistent_same(b.index.domains, a.index.domains, domain_keys(a.items), k, p);
}

proof fn lemma_consistent_same(
    m1: Map<Seq<char>, Seq<usize>>,
    m2: Map<Seq<char>, Seq<usize>>,
    keys: Seq<Seq<char>>,
    k: Seq<char>,
    p: usize,
)
    requires
        consistent(m1, keys),
        consistent(m2, keys),
    ensures
        bucket(m1, k).contains(p) ==> bucket(m2, k).contains(p),
{
    if bucket(m1, k).contains(p) {
        let j = choose|j: int| 0 <= j < bucket(m1, k).len() && bucket(m1, k)[j] == p;
        assert(m1[k][j] < keys.len());
        assert(keys[p as int] == k);
        assert(m2[keys[p as int]].contains(p as int as usize));
    }
}

/// Building an index twice from one snapshot gives one and the same index,
/// so every lookup gives the same positions in the same order.
pub proof fn lemma_rebuild_same(cs: Seq<ContactView>, a: IndexView, b: IndexView, key: Seq<char>)
    requires
        a == index_of(cs),
        b == index_of(cs),
    ensures
        a == b,
        bucket(a.names, key) == bucket(b.names, key),
        bucket(a.domains, key) == bucket(b.domains, key),
{
}

/// The contact collection.
pub struct Contacts {
    items: Vec<Contact>,
    index: ContactsIndex,
}

impl View for Contacts {
    type V = ContactsView;

    closed spec fn view(&self) -> ContactsView {
        ContactsView { items: views(self.items@), index: self.index@ }
    }
}

impl Contacts {
    #[verifier::type_invariant]
    spec fn in_step(&self) -> bool {
        indexed(self@)
    }

    /// Whether the index agrees with the contacts. It does in every
    /// collection there is: each is made in agreement, and no change breaks
    /// it.
    pub open spec fn wf(&self) -> bool {
        indexed(self@)
    }

    /// The collection of the given contacts, with its index built from
    /// them.
    pub fn new(items: Vec<Contact>) -> (r: Contacts)
        ensures
            r.wf(),
            r@.items == views(items@),
            r@.index == index_of(views(items@)),
    {
        let index = ContactsIndex::build(items.as_slice());
        proof {
            vstd::std_specs::vec::axiom_spec_len(&items);
            lemma_grouped_consistent(name_keys(views(items@)));
            lemma_grouped_consistent(domain_keys(views(items@)));
        }
        Contacts { items, index }
    }

    /// The contacts, in order.
    pub fn as_slice(&self) -> (r: &[Contact])
        ensures
            views(r@) == self@.items,
            self.wf(),
    {
        proof {
            use_type_invariant(self);
        }
        self.items.as_slice()
    }

    /// An iterator over the contacts, in order.
    pub fn iter(&self) -> (r: core::slice::Iter<'_, Contact>)
        ensures
            views(vstd::std_specs::slice::into_iter_elts(r)) == self@.items,
    {
        let all = self.items.as_slice();
        let r = all.iter();
        proof {
            vstd::std_specs::slice::axiom_spec_slice_iter(all);
            assert(vstd::std_specs::slice::into_iter_elts(r) =~= self.items@);
        }
        r
    }

    /// The number of contacts.
    pub fn len(&self) -> (r: usize)
        ensures
            r == self@.items.len(),
    {
        self.items.len()
    }

    /// The live index.
    pub fn index(&self) -> (r: &ContactsIndex)
        ensures
            r@ == self@.index,
            self.wf(),
    {
        proof {
            use_type_invariant(self);
        }
        &self.index
    }

    /// Whether some contact denotes the same person as `new_contact`: has
    /// its name and one of its phone numbers.
    pub fn check_contact_exist(&self, new_contact: &Contact) -> (r: bool)
        ensures
            r == holds_identity(self@.items, new_contact@),
    {
        check_contact_exist(new_contact, self.items.as_slice())
    }

    /// Whether more than one contact has the name.
    pub fn check_contact_duplicates(&self, name: String) -> (r: bool)
        ensures
            r == (count_named(self@.items, name@) > 1),
    {
        count_contacts_named(&name, self.items.as_slice()) > 1
    }

    /// Appends a contact and enters its position in the index.
    fn append(&mut self, contact: Contact)
        ensures
            final(self).wf(),
            final(self)@ == added(old(self)@, contact@),
    {
        proof {
            use_type_invariant(&*self);
        }
        let mut taken = Contacts::new(Vec::new());
        core::mem::swap(self, &mut taken);
        let Contacts { mut items, mut index } = taken;
        let n = items.len();
        index.enter(&contact, n);
        items.push(contact);
        proof {
            vstd::std_specs::vec::axiom_spec_len(&items);
            assert(views(items@) =~= old(self)@.items.push(contact@));
            lemma_added_indexed(old(self)@, contact@);
        }
        *self = Contacts { items, index };
    }

    /// Removes the contact at `p` and renumbers the index.
    fn remove_at(&mut self, p: usize)
        requires
            p < old(self)@.items.len(),
        ensures
            final(self).wf(),
            final(self)@ == removed(old(self)@, p as int),
    {
        proof {
            use_type_invariant(&*self);
        }
        let mut taken = Contacts::new(Vec::new());
        core::mem::swap(self, &mut taken);
        let Contacts { mut items, mut index } = taken;
        items.remove(p);
        index.renumber(p);
        proof {
            assert(views(items@) =~= old(self)@.items.remove(p as int));
            lemma_removed_indexed(old(self)@, p as int);
        }
        *self = Contacts { items, index };
    }

    /// Puts `contact` in place of the contact at `p` and moves `p` to its
    /// buckets.
    fn replace_at(&mut self, p: usize, contact: Contact)
        requires
            p < old(self)@.items.len(),
        ensures
            final(self).wf(),
            final(self)@ == replaced(old(self)@, p as int, contact@),
    {
        proof {
            use_type_invariant(&*self);
        }
        let mut taken = Contacts::new(Vec::new());
        core::mem::swap(self, &mut taken);
        let Contacts { mut items, mut index } = taken;
        index.rekey(p, &items[p], &contact);
        items.set(p, contact);
        proof {
            assert(views(items@) =~= old(self)@.items.update(p as int, contact@));
            lemma_replaced_indexed(old(self)@, p as int, contact@);
        }
        *self = Contacts { items, index };
    }

    /// Adds a contact, unless a contact of the same name shares a phone
    /// number with it.
    pub fn add(&mut self, contact: Contact) -> (r: Result<(), AppError>)
        ensures
            final(self).wf(),
            match add_outcome(old(self)@, contact@) {
                Ok(v) => r is Ok && final(self)@ == v,
                Err(e) => r is Err && r->Err_0@ == e && final(self)@ == old(self)@,
            },
    {
        proof {
            use_type_invariant(&*self);
        }
        if self.check_contact_exist(&contact) {
            return Err(AppError::Validation(String::from_str("Contact with info already exists")));
        }
        self.append(contact);
        Ok(())
    }

    /// The first candidate, in the order of the collection, that has the
    /// phone number.
    fn pick_by_phone(&self, candidates: &Vec<usize>, name: &String, phone: &String) -> (r: Option<usize>)
        requires
            candidates@ == bucket(self@.index.names, lowercase(name@)),
        ensures
            match r {
                Some(p) => p < self@.items.len() && p == first_true(
                    delete_flags(self@.items, lowercase(name@), phone@),
                ),
                None => first_true(delete_flags(self@.items, lowercase(name@), phone@))
                    == self@.items.len(),
            },
    {
        proof {
            use_type_invariant(self);
        }
        let ghost v = self@;
        let ghost key = lowercase(name@);
        let ghost flags = delete_flags(v.items, key, phone@);
        let n = candidates.len();
        let mut best: Option<usize> = None;
        let mut j: usize = 0;
        while j < n
            invariant
                indexed(v),
                v == self@,
                key == lowercase(name@),
                flags == delete_flags(v.items, key, phone@),
                candidates@ == bucket(v.index.names, key),
                n == candidates@.len(),
                j <= n,
                match best {
                    Some(b) => b < v.items.len() && flags[b as int] && forall|i: int|
                        0 <= i < j && flags[candidates@[i] as int] ==> b <= candidates@[i],
                    None => forall|i: int| 0 <= i < j ==> !flags[candidates@[i] as int],
                },
            decreases n - j,
        {
            let p = candidates[j];
            proof {
                assert(v.index.names.contains_key(key));
                assert(v.index.names[key][j as int] < name_keys(v.items).len());
                assert(name_keys(v.items)[p as int] == key);
            }
            if contains_text(&self.items[p].phone, phone.as_str()) {
                assert(flags[p as int]);
                match best {
                    Some(b) => {
                        if p < b {
                            best = Some(p);
                        }
                    },
                    None => {
                        best = Some(p);
                    },
                }
            } else {
                assert(!flags[p as int]);
            }
            j += 1;
        }
        proof {
            let at: int = match best {
                Some(b) => b as int,
                None => v.items.len() as int,
            };
            assert forall|q: int| 0 <= q < at implies !flags[q] by {
                if flags[q] {
                    assert(name_keys(v.items)[q] == key);
                    assert(v.index.names[name_keys(v.items)[q]].contains(q as usize));
                    let i = choose|i: int|
                        0 <= i < candidates@.len() && candidates@[i] == q as usize;
                    assert(flags[candidates@[i] as int]);
                }
            }
            lemma_first_true(flags, at);
        }
        best
    }

    /// Deletes a contact by name, letter case aside, and where several
    /// contacts stand under the name, by phone number.
    pub fn delete(&mut self, name: String, phone: Option<String>) -> (r: Result<(), AppError>)
        ensures
            final(self).wf(),
            match delete_outcome(old(self)@, name@, text_or_empty(phone)) {
                Ok(v) => r is Ok && final(self)@ == v,
                Err(e) => r is Err && r->Err_0@ == e && final(self)@ == old(self)@,
            },
    {
        proof {
            use_type_invariant(&*self);
        }
        let given = match phone {
            Some(p) => p,
            None => String::new(),
        };
        let candidates = self.index.lookup_name(name.as_str());
        if candidates.len() == 0 {
            return Ok(());
        }
        if candidates.len() == 1 {
            let p = candidates[0];
            proof {
                let v = self@;
                assert(v.index.names[lowercase(name@)][0] < name_keys(v.items).len());
            }
            self.remove_at(p);
            return Ok(());
        }
        if given.as_str().is_empty() {
            return Err(
                AppError::Parse(
                    String::from_str(
                        "There are more than one contact with the name. Please provide the phone number to continue the action",
                    ),
                ),
            );
        }
        match self.pick_by_phone(&candidates, &name, &given) {
            Some(p) => {
                self.remove_at(p);
            },
            None => {},
        }
        Ok(())
    }

    /// The first contact that has the name and the phone number.
    fn find_by_name_and_phone(&self, name: &String, phone: &String) -> (r: Option<usize>)
        ensures
            match r {
                Some(p) => p < self@.items.len() && p == first_true(
                    update_flags(self@.items, name@, phone@),
                ),
                None => first_true(update_flags(self@.items, name@, phone@)) == self@.items.len(),
            },
    {
        let ghost flags = update_flags(self@.items, name@, phone@);
        let n = self.items.len();
        let mut i: usize = 0;
        while i < n
            invariant
                n == self.items@.len(),
                flags == update_flags(self@.items, name@, phone@),
                i <= n,
                forall|j: int| 0 <= j < i ==> !flags[j],
            decreases n - i,
        {
            if self.items[i].name == *name && contains_text(&self.items[i].phone, phone.as_str()) {
                proof {
                    lemma_first_true(flags, i as int);
                }
                return Some(i);
            }
            i += 1;
        }
        proof {
            lemma_first_true(flags, n as int);
        }
        None
    }

    /// The first contact that has the identity key of `c`.
    fn find_by_key(&self, c: &Contact) -> (r: Option<usize>)
        ensures
            match r {
                Some(p) => p < self@.items.len() && p == first_true(identity_flags(self@.items, c@)),
                None => first_true(identity_flags(self@.items, c@)) == self@.items.len(),
            },
    {
        let ghost flags = identity_flags(self@.items, c@);
        let n = self.items.len();
        let mut i: usize = 0;
        while i < n
            invariant
                n == self.items@.len(),
                flags == identity_flags(self@.items, c@),
                i <= n,
                forall|j: int| 0 <= j < i ==> !flags[j],
            decreases n - i,
        {
            if self.items[i].name == c.name && same_texts(&self.items[i].phone, &c.phone) {
                proof {
                    lemma_first_true(flags, i as int);
                }
                return Some(i);
            }
            i += 1;
        }
        proof {
            lemma_first_true(flags, n as int);
        }
        None
    }

    /// Updates the first contact that has the name and the phone number, at
    /// the time `now`: see [`update_outcome`].
    pub fn update_at(
        &mut self,
        name: String,
        phone: String,
        tags: Vec<String>,
        new_name: Option<String>,
        new_phone: Option<String>,
        new_email: Option<String>,
        now: Timestamp,
    ) -> (r: Result<(), AppError>)
        ensures
            final(self).wf(),
            match update_outcome(
                old(self)@,
                name@,
                phone@,
                texts(tags@),
                text_or_empty(new_name),
                text_or_empty(new_phone),
                text_or_empty(new_email),
                now,
            ) {
                Ok(v) => r is Ok && final(self)@ == v,
                Err(e) => r is Err && r->Err_0@ == e && final(self)@ == old(self)@,
            },
    {
        proof {
            use_type_invariant(&*self);
        }
        if !validate_name(name.as_str()) {
            return Err(AppError::Validation(ValidationResponse::check_name()));
        }
        if !validate_phone_number(phone.as_str()) {
            return Err(AppError::Validation(ValidationResponse::check_phone_number()));
        }
        let new_name = match new_name {
            Some(s) => s,
            None => String::new(),
        };
        let new_phone = match new_phone {
            Some(s) => s,
            None => String::new(),
        };
        let new_email = match new_email {
            Some(s) => s,
            None => String::new(),
        };
        let p = match self.find_by_name_and_phone(&name, &phone) {
            Some(p) => p,
            None => {
                let mut message = String::from_str("Contact with name '");
                message.append(name.as_str());
                message.append("' and phone '");
                message.append(phone.as_str());
                message.append("' not found");
                return Err(AppError::Parse(message));
            },
        };
        if !new_name.as_str().is_empty() && !validate_name(new_name.as_str()) {
            return Err(AppError::Validation(String::from_str("New name is invalid")));
        }
        if !new_phone.as_str().is_empty() && !validate_phone_number(new_phone.as_str()) {
            return Err(AppError::Validation(String::from_str("New phone number is invalid")));
        }
        if !new_email.as_str().is_empty() && !validate_email(new_email.as_str()) {
            return Err(AppError::Validation(String::from_str("New email is invalid")));
        }
        let current = &self.items[p];
        let name_now = if new_name.as_str().is_empty() {
            current.name.clone()
        } else {
            new_name
        };
        let phone_now = if new_phone.as_str().is_empty() {
            copy_texts(&current.phone)
        } else {
            let mut one: Vec<String> = Vec::new();
            one.push(new_phone);
            assert(texts(one@) =~= seq![new_phone@]);
            one
        };
        let email_now = if new_email.as_str().is_empty() {
            current.email.clone()
        } else {
            new_email
        };
        let after = Contact {
            name: name_now,
            phone: phone_now,
            email: email_now,
            tags,
            created_at: current.created_at,
            updated_at: now,
        };
        self.replace_at(p, after);
        Ok(())
    }

    /// Updates the first contact that has the name and the phone number.
    /// The name and the phone number must be valid, and so must each new
    /// field that is supplied and not empty; the tags are overwritten
    /// always.
    ///
    /// The time of the change comes from the clock; [`Contacts::update_at`]
    /// says what is done for each time.
    pub fn update(
        &mut self,
        name: String,
        phone: String,
        tags: Vec<String>,
        new_name: Option<String>,
        new_phone: Option<String>,
        new_email: Option<String>,
    ) -> (r: Result<(), AppError>)
        ensures
            final(self).wf(),
            exists|now: Timestamp|
                match #[trigger] update_outcome(
                    old(self)@,
                    name@,
                    phone@,
                    texts(tags@),
                    text_or_empty(new_name),
                    text_or_empty(new_phone),
                    text_or_empty(new_email),
                    now,
                ) {
                    Ok(v) => r is Ok && final(self)@ == v,
                    Err(e) => r is Err && r->Err_0@ == e && final(self)@ == old(self)@,
                },
    {
        let at = now();
        self.update_at(name, phone, tags, new_name, new_phone, new_email, at)
    }

    /// Appends the phone numbers of `c` to every contact that denotes the
    /// same person.
    fn extend_matching(&mut self, c: &Contact, now: Timestamp)
        ensures
            final(self).wf(),
            final(self)@ == (ContactsView {
                items: extended_all(old(self)@.items, c@, now),
                index: old(self)@.index,
            }),
    {
        proof {
            use_type_invariant(&*self);
        }
        let ghost before = self@;
        let mut taken = Contacts::new(Vec::new());
        core::mem::swap(self, &mut taken);
        let Contacts { mut items, index } = taken;
        let n = items.len();
        let mut i: usize = 0;
        while i < n
            invariant
                n == items@.len(),
                n == before.items.len(),
                i <= n,
                forall|j: int|
                    0 <= j < i ==> views(items@)[j] == extended_all(before.items, c@, now)[j],
                forall|j: int| i <= j < n ==> views(items@)[j] == before.items[j],
            decreases n - i,
        {
            if same_person(&items[i], c) {
                let current = &items[i];
                let mut phones = copy_texts(&current.phone);
                let mut more = copy_texts(&c.phone);
                phones.append(&mut more);
                let after = Contact {
                    name: current.name.clone(),
                    phone: phones,
                    email: current.email.clone(),
                    tags: copy_texts(&current.tags),
                    created_at: current.created_at,
                    updated_at: now,
                };
                let ghost changed = after@;
                let ghost earlier = views(items@);
                proof {
                    assert(texts(phones@) =~= texts(current.phone@) + texts(c.phone@));
                    assert(earlier[i as int] == before.items[i as int]);
                    assert(changed == extended(before.items[i as int], c@, now));
                }
                items.set(i, after);
                proof {
                    assert(views(items@) =~= earlier.update(i as int, changed));
                }
            } else {
                proof {
                    assert(views(items@)[i as int] == before.items[i as int]);
                }
            }
            i += 1;
        }
        proof {
            assert(views(items@) =~= extended_all(before.items, c@, now));
            lemma_extended_indexed(before, c@, now);
        }
        *self = Contacts { items, index };
    }

    /// Reconciles the collection with what was decoded from a merge
    /// source, at the time `now`: see [`merge_outcome`].
    pub fn merge_at(
        &mut self,
        decoded: Result<Vec<Contact>, String>,
        policy: MergePolicy,
        now: Timestamp,
    ) -> (r: Result<(), AppError>)
        ensures
            final(self).wf(),
            match merge_outcome(old(self)@, decoded_view(decoded), policy, now) {
                Ok(v) => r is Ok && final(self)@ == v,
                Err(e) => r is Err && r->Err_0@ == e && final(self)@ == old(self)@,
            },
    {
        proof {
            use_type_invariant(&*self);
        }
        let incoming = match decoded {
            Ok(list) => list,
            Err(why) => {
                return Err(AppError::Parse(String::from_str("Error, JSON... : ").concat(why.as_str())));
            },
        };
        let ghost before = self@;
        let ghost all = views(incoming@);
        let n = incoming.len();
        let mut i: usize = 0;
        while i < n
            invariant
                n == incoming@.len(),
                all == views(incoming@),
                i <= n,
                self.wf(),
                self@ == merged(before, all.take(i as int), policy, now),
            decreases n - i,
        {
            let c = incoming[i].clone();
            proof {
                assert(all.take(i + 1).drop_last() =~= all.take(i as int));
                assert(all.take(i + 1).last() == c@);
            }
            match policy {
                MergePolicy::Keep => {
                    match self.find_by_key(&c) {
                        Some(_p) => {},
                        None => {
                            self.append(c);
                        },
                    }
                },
                MergePolicy::Overwrite => {
                    match self.find_by_key(&c) {
                        Some(p) => {
                            self.replace_at(p, c);
                        },
                        None => {
                            self.append(c);
                        },
                    }
                },
                MergePolicy::Duplicate => {
                    self.extend_matching(&c, now);
                },
            }
            i += 1;
        }
        assert(all.take(n as int) =~= all);
        Ok(())
    }

    /// Reconciles the collection with what was decoded from a merge source.
    /// An incoming contact and a contact of the collection are taken for
    /// one where they have the same name and the same list of phone numbers.
    ///
    /// The time of the changes comes from the clock; [`Contacts::merge_at`]
    /// says what is done for each time.
    pub fn merge_from_file(
        &mut self,
        decoded: Result<Vec<Contact>, String>,
        policy: MergePolicy,
    ) -> (r: Result<(), AppError>)
        ensures
            final(self).wf(),
            exists|now: Timestamp|
                match #[trigger] merge_outcome(old(self)@, decoded_view(decoded), policy, now) {
                    Ok(v) => r is Ok && final(self)@ == v,
                    Err(e) => r is Err && r->Err_0@ == e && final(self)@ == old(self)@,
                },
    {
        let at = now();
        self.merge_at(decoded, policy, at)
    }

    /// Adds the records one after the other and stops at the first that is
    /// refused.
    pub fn add_all(&mut self, records: Vec<Contact>) -> (r: Result<(), AppError>)
        ensures
            final(self).wf(),
            final(self)@ == imported(old(self)@, views(records@)).0,
            match imported(old(self)@, views(records@)).1 {
                Some(e) => r is Err && r->Err_0@ == e,
                None => r is Ok,
            },
    {
        proof {
            use_type_invariant(&*self);
        }
        let ghost before = self@;
        let ghost all = views(records@);
        let n = records.len();
        let mut i: usize = 0;
        while i < n
            invariant
                n == records@.len(),
                all == views(records@),
                i <= n,
                self.wf(),
                before == old(self)@,
                imported(before, all.take(i as int)) == (self@, None::<ErrorView>),
            decreases n - i,
        {
            let c = records[i].clone();
            proof {
                assert(all.take(i + 1).drop_last() =~= all.take(i as int));
                assert(all.take(i + 1).last() == c@);
            }
            let ghost earlier = self@;
            match self.add(c) {
                Ok(()) => {},
                Err(e) => {
                    proof {
                        assert(add_outcome(earlier, all[i as int]) is Err);
                        assert(imported(before, all.take(i + 1)) == (earlier, Some(e@)));
                        lemma_imported_stops(before, all, i + 1);
                    }
                    return Err(e);
                },
            }
            i += 1;
        }
        assert(all.take(n as int) =~= all);
        Ok(())
    }

    /// Takes in the answer to a request for the contacts of a remote peer:
    /// see [`import_outcome`].
    pub fn import_from_remote(
        &mut self,
        status: u16,
        status_text: &str,
        decoded: Result<Vec<Contact>, String>,
    ) -> (r: Result<(), AppError>)
        ensures
            final(self).wf(),
            final(self)@ == import_outcome(old(self)@, status, status_text@, decoded_view(decoded)).0,
            match import_outcome(old(self)@, status, status_text@, decoded_view(decoded)).1 {
                Some(e) => r is Err && r->Err_0@ == e,
                None => r is Ok,
            },
    {
        proof {
            use_type_invariant(&*self);
        }
        if status != 200 {
            return Err(AppError::Network(String::from_str("Failed to import: ").concat(status_text)));
        }
        match decoded {
            Ok(records) => self.add_all(records),
            Err(why) => Err(AppError::Parse(String::from_str("Invalid JSON: ").concat(why.as_str()))),
        }
    }

    /// Takes in the answer to the request that sent the contacts to a
    /// remote peer: see [`export_outcome`].
    pub fn export_to_remote(&self, status: u16, status_text: &str) -> (r: Result<(), AppError>)
        ensures
            match export_outcome(status, status_text@) {
                Some(e) => r is Err && r->Err_0@ == e,
                None => r is Ok,
            },
    {
        if status != 200 {
            return Err(AppError::Network(String::from_str("Failed to export: ").concat(status_text)));
        }
        Ok(())
    }
}

/// Once an addition has failed, the records after it change nothing.
proof fn lemma_imported_stops(v: ContactsView, records: Seq<ContactView>, at: int)
    requires
        0 <= at <= records.len(),
        imported(v, records.take(at)).1 is Some,
    ensures
        imported(v, records) == imported(v, records.take(at)),
    decreases records.len() - at,
{
    if at < records.len() {
        assert(records.take(at + 1).drop_last() =~= records.take(at));
        lemma_imported_stops(v, records, at + 1);
    } else {
        assert(records.take(at) =~= records);
    }
}

} // verus!
