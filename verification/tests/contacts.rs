use rusty_rolodex::contact::Contact;
use rusty_rolodex::contacts::Contacts;
use rusty_rolodex::error::AppError;
use rusty_rolodex::index::ContactsIndex;
use rusty_rolodex::policy::MergePolicy;
use rusty_rolodex::time::Timestamp;

const T0: Timestamp = Timestamp { secs: 0, nanos: 0 };
const T1: Timestamp = Timestamp { secs: 1_700_000_000, nanos: 7 };

fn person(name: &str, phone: &str, email: &str) -> Contact {
    Contact::new(name, phone, email, vec![], T0, T0)
}

fn tagged(name: &str, phones: &[&str], email: &str, tags: &[&str]) -> Contact {
    Contact {
        name: name.to_string(),
        phone: phones.iter().map(|p| p.to_string()).collect(),
        email: email.to_string(),
        tags: tags.iter().map(|t| t.to_string()).collect(),
        created_at: T0,
        updated_at: T0,
    }
}

fn names(contacts: &Contacts) -> Vec<String> {
    contacts.as_slice().iter().map(|c| c.name.clone()).collect()
}

fn sorted(mut positions: Vec<usize>) -> Vec<usize> {
    positions.sort();
    positions
}

/// Holds the live index to what an index built afresh finds, and to the
/// positions of the collection.
fn assert_index_in_step(contacts: &Contacts) {
    let items = contacts.as_slice();
    let fresh = ContactsIndex::build(items);
    for (p, c) in items.iter().enumerate() {
        let by_name = contacts.index().lookup_name(&c.name);
        assert!(by_name.contains(&p), "position {} is missing under its name", p);
        assert_eq!(sorted(by_name.clone()), fresh.lookup_name(&c.name));
        assert!(by_name.iter().all(|q| *q < items.len()));
        let domain = rusty_rolodex::text::domain_of(&c.email);
        let by_domain = contacts.index().lookup_domain(&domain);
        assert!(by_domain.contains(&p), "position {} is missing under its domain", p);
        assert_eq!(sorted(by_domain.clone()), fresh.lookup_domain(&domain));
        assert!(by_domain.iter().all(|q| *q < items.len()));
    }
}

fn message(r: Result<(), AppError>) -> String {
    match r {
        Ok(()) => panic!("the call did not fail"),
        Err(e) => e.describe(),
    }
}

#[test]
fn added_contacts_are_found_by_name_and_domain() {
    let mut contacts = Contacts::new(vec![]);
    contacts.add(person("Alice", "123", "alice@work.com")).unwrap();
    contacts.add(person("Bob", "456", "bob@home.com")).unwrap();
    assert_eq!(contacts.index().lookup_name("alice"), vec![0]);
    assert_eq!(contacts.index().lookup_domain("work.com"), vec![0]);
    assert_eq!(contacts.index().lookup_name("BOB"), vec![1]);
    assert_eq!(contacts.index().lookup_domain("home.com"), vec![1]);
    assert_eq!(contacts.len(), 2);
    assert_index_in_step(&contacts);
}

#[test]
fn delete_by_name_is_not_ambiguous_for_another_name_with_the_same_phone() {
    let mut contacts = Contacts::new(vec![]);
    contacts.add(person("Alice", "123", "alice@work.com")).unwrap();
    contacts.add(person("Alicia", "123", "alicia@work.com")).unwrap();
    contacts.delete("Alice".to_string(), None).unwrap();
    assert!(contacts.index().lookup_name("alice").is_empty());
    assert_eq!(contacts.index().lookup_name("alicia"), vec![0]);
    assert_eq!(contacts.index().lookup_domain("work.com"), vec![0]);
    assert_eq!(names(&contacts), ["Alicia"]);
    assert_index_in_step(&contacts);
}

#[test]
fn merge_keep_leaves_the_existing_record_untouched() {
    let mut contacts = Contacts::new(vec![tagged("Alice", &["123"], "alice@old.com", &["old"])]);
    let incoming = vec![tagged("Alice", &["123"], "alice@new.com", &["new"])];
    contacts.merge_at(Ok(incoming), MergePolicy::Keep, T1).unwrap();
    assert_eq!(contacts.len(), 1);
    let kept = &contacts.as_slice()[0];
    assert_eq!(kept.email, "alice@old.com");
    assert_eq!(kept.tags, ["old"]);
    assert_eq!(kept.phone, ["123"]);
    assert_eq!(kept.updated_at, T0);
    assert_eq!(contacts.index().lookup_domain("old.com"), vec![0]);
    assert!(contacts.index().lookup_domain("new.com").is_empty());
    assert_index_in_step(&contacts);
}

#[test]
fn merge_keep_appends_what_is_new_and_indexes_it() {
    let mut contacts = Contacts::new(vec![person("Alice", "123", "alice@work.com")]);
    let incoming = vec![
        person("Bob", "555", "bob@home.com"),
        person("Alice", "999", "alice@work.com"),
        person("Bob", "555", "bob@elsewhere.com"),
    ];
    contacts.merge_at(Ok(incoming), MergePolicy::Keep, T1).unwrap();
    assert_eq!(names(&contacts), ["Alice", "Bob", "Alice"]);
    assert_eq!(contacts.index().lookup_name("alice"), vec![0, 2]);
    assert_eq!(contacts.index().lookup_name("bob"), vec![1]);
    assert_eq!(contacts.index().lookup_domain("home.com"), vec![1]);
    assert!(contacts.index().lookup_domain("elsewhere.com").is_empty());
    assert_index_in_step(&contacts);
}

#[test]
fn merge_overwrite_replaces_the_existing_record() {
    let mut contacts = Contacts::new(vec![
        person("Bob", "555", "bob@home.com"),
        tagged("Alice", &["123"], "alice@old.com", &["old", "friend"]),
    ]);
    let mut incoming = tagged("Alice", &["123"], "alice@new.com", &["new"]);
    incoming.updated_at = T1;
    contacts.merge_at(Ok(vec![incoming]), MergePolicy::Overwrite, T0).unwrap();
    assert_eq!(contacts.len(), 2);
    let now = &contacts.as_slice()[1];
    assert_eq!(now.phone, ["123"]);
    assert_eq!(now.tags, ["new"]);
    assert_eq!(now.email, "alice@new.com");
    assert_eq!(now.updated_at, T1);
    assert_eq!(contacts.index().lookup_domain("new.com"), vec![1]);
    assert!(contacts.index().lookup_domain("old.com").is_empty());
    assert_eq!(contacts.index().lookup_name("alice"), vec![1]);
    assert_index_in_step(&contacts);
}

#[test]
fn merge_overwrite_appends_where_the_phone_list_differs() {
    let mut contacts = Contacts::new(vec![tagged("Alice", &["123", "456"], "alice@old.com", &[])]);
    let incoming = vec![
        tagged("Alice", &["123"], "alice@new.com", &[]),
        tagged("Alice", &["456", "123"], "alice@new.com", &[]),
    ];
    contacts.merge_at(Ok(incoming), MergePolicy::Overwrite, T1).unwrap();
    assert_eq!(contacts.len(), 3);
    assert_eq!(contacts.as_slice()[0].email, "alice@old.com");
    assert_eq!(contacts.index().lookup_name("alice"), vec![0, 1, 2]);
    assert_eq!(contacts.index().lookup_domain("new.com"), vec![1, 2]);
    assert_index_in_step(&contacts);
}

#[test]
fn merge_duplicate_extends_the_phone_list_and_adds_no_record() {
    let mut contacts = Contacts::new(vec![
        tagged("Alice", &["123"], "alice@work.com", &["a"]),
        tagged("Alice", &["777"], "alice@home.com", &[]),
        tagged("Bob", &["123"], "bob@work.com", &[]),
    ]);
    let incoming = vec![tagged("Alice", &["999", "123"], "alice@new.com", &["b"])];
    contacts.merge_at(Ok(incoming), MergePolicy::Duplicate, T1).unwrap();
    assert_eq!(contacts.len(), 3);
    let items = contacts.as_slice();
    assert_eq!(items[0].phone, ["123", "999", "123"]);
    assert_eq!(items[0].email, "alice@work.com");
    assert_eq!(items[0].tags, ["a"]);
    assert_eq!(items[0].updated_at, T1);
    assert_eq!(items[0].created_at, T0);
    assert_eq!(items[1].phone, ["777"]);
    assert_eq!(items[1].updated_at, T0);
    assert_eq!(items[2].phone, ["123"]);
    assert_eq!(items[2].updated_at, T0);
    assert!(contacts.index().lookup_domain("new.com").is_empty());
    assert_index_in_step(&contacts);
}

#[test]
fn merge_duplicate_drops_a_record_that_matches_nobody() {
    let mut contacts = Contacts::new(vec![person("Alice", "123", "alice@work.com")]);
    let incoming = vec![person("Bob", "555", "bob@home.com"), person("Alice", "555", "a@b.org")];
    contacts.merge_at(Ok(incoming), MergePolicy::Duplicate, T1).unwrap();
    assert_eq!(names(&contacts), ["Alice"]);
    assert_eq!(contacts.as_slice()[0].phone, ["123"]);
    assert_eq!(contacts.as_slice()[0].updated_at, T0);
    assert!(contacts.index().lookup_name("bob").is_empty());
}

#[test]
fn merge_duplicate_sees_the_numbers_that_an_earlier_record_brought() {
    let mut contacts = Contacts::new(vec![person("Alice", "123", "alice@work.com")]);
    let incoming = vec![
        tagged("Alice", &["123", "456"], "x@y.org", &[]),
        tagged("Alice", &["456"], "x@y.org", &[]),
    ];
    contacts.merge_at(Ok(incoming), MergePolicy::Duplicate, T1).unwrap();
    assert_eq!(contacts.as_slice()[0].phone, ["123", "123", "456", "456"]);
}

#[test]
fn merge_of_a_source_that_was_not_decoded_is_a_parse_error() {
    let mut contacts = Contacts::new(vec![person("Alice", "123", "alice@work.com")]);
    for policy in [MergePolicy::Keep, MergePolicy::Overwrite, MergePolicy::Duplicate] {
        let r = contacts.merge_from_file(Err("expected value at line 1 column 1".to_string()), policy);
        assert!(matches!(r, Err(AppError::Parse(_))));
        assert_eq!(
            message(r),
            "Parse error: Error, JSON... : expected value at line 1 column 1"
        );
        assert_eq!(names(&contacts), ["Alice"]);
        assert_index_in_step(&contacts);
    }
}

#[test]
fn merge_of_no_records_changes_nothing() {
    for policy in [MergePolicy::Keep, MergePolicy::Overwrite, MergePolicy::Duplicate] {
        let mut contacts = Contacts::new(vec![person("Alice", "123", "alice@work.com")]);
        contacts.merge_from_file(Ok(vec![]), policy).unwrap();
        assert_eq!(names(&contacts), ["Alice"]);
        assert_eq!(contacts.as_slice()[0].updated_at, T0);
    }
}

#[test]
fn merge_duplicate_stamps_the_time_of_the_clock() {
    let mut contacts = Contacts::new(vec![person("Alice", "123", "alice@work.com")]);
    let before = chrono::Utc::now().timestamp();
    contacts.merge_from_file(Ok(vec![person("Alice", "123", "a@b.org")]), MergePolicy::Duplicate).unwrap();
    let after = chrono::Utc::now().timestamp();
    let at = contacts.as_slice()[0].updated_at.secs;
    assert!(before <= at && at <= after);
}

#[test]
fn add_refuses_the_same_name_with_a_shared_phone() {
    let mut contacts = Contacts::new(vec![tagged("Alice", &["123", "456"], "alice@work.com", &[])]);
    let r = contacts.add(person("Alice", "456", "other@home.com"));
    assert!(matches!(r, Err(AppError::Validation(_))));
    assert_eq!(message(r), "Validation failed: Contact with info already exists");
    assert_eq!(contacts.len(), 1);
    assert!(contacts.index().lookup_domain("home.com").is_empty());
    assert_eq!(contacts.index().lookup_name("alice"), vec![0]);
    // Another phone number, or another name, is another person.
    contacts.add(person("Alice", "789", "alice@home.com")).unwrap();
    contacts.add(person("alice", "123", "alice@else.com")).unwrap();
    contacts.add(person("Bob", "123", "bob@work.com")).unwrap();
    assert_eq!(contacts.index().lookup_name("Alice"), vec![0, 1, 2]);
    assert_eq!(contacts.index().lookup_domain("work.com"), vec![0, 3]);
    assert_index_in_step(&contacts);
}

#[test]
fn check_contact_exist_and_duplicates_of_a_collection() {
    let contacts = Contacts::new(vec![
        person("Alice", "123", "alice@work.com"),
        person("Alice", "456", "alice@home.com"),
        person("Bob", "123", "bob@work.com"),
    ]);
    assert!(contacts.check_contact_exist(&person("Alice", "456", "x@y.org")));
    assert!(!contacts.check_contact_exist(&person("Bob", "456", "x@y.org")));
    assert!(!contacts.check_contact_exist(&person("Cleo", "123", "x@y.org")));
    assert!(contacts.check_contact_duplicates("Alice".to_string()));
    assert!(!contacts.check_contact_duplicates("alice".to_string()));
    assert!(!contacts.check_contact_duplicates("Bob".to_string()));
    assert!(!contacts.check_contact_duplicates("Cleo".to_string()));
}

#[test]
fn delete_of_an_unknown_name_changes_nothing() {
    let mut contacts = Contacts::new(vec![person("Alice", "123", "alice@work.com")]);
    contacts.delete("Bob".to_string(), None).unwrap();
    contacts.delete("Bob".to_string(), Some("123".to_string())).unwrap();
    contacts.delete("".to_string(), None).unwrap();
    assert_eq!(names(&contacts), ["Alice"]);
    assert_index_in_step(&contacts);
}

#[test]
fn delete_of_a_name_that_several_contacts_have_needs_a_phone() {
    let mut contacts = Contacts::new(vec![
        person("Alice", "123", "alice@work.com"),
        person("Bob", "555", "bob@work.com"),
        person("ALICE", "456", "alice@home.com"),
    ]);
    for phone in [None, Some(String::new())] {
        let r = contacts.delete("alice".to_string(), phone);
        assert!(matches!(r, Err(AppError::Parse(_))));
        assert_eq!(
            message(r),
            "Parse error: There are more than one contact with the name. Please provide the phone number to continue the action"
        );
        assert_eq!(names(&contacts), ["Alice", "Bob", "ALICE"]);
        assert_index_in_step(&contacts);
    }
    // A phone number that no candidate has removes nothing.
    contacts.delete("alice".to_string(), Some("555".to_string())).unwrap();
    assert_eq!(names(&contacts), ["Alice", "Bob", "ALICE"]);
    // The phone number picks the candidate.
    contacts.delete("alice".to_string(), Some("456".to_string())).unwrap();
    assert_eq!(names(&contacts), ["Alice", "Bob"]);
    assert_eq!(contacts.index().lookup_name("alice"), vec![0]);
    assert!(contacts.index().lookup_domain("home.com").is_empty());
    assert_index_in_step(&contacts);
    // One candidate is removed whatever the phone number.
    contacts.delete("ALICE".to_string(), Some("000".to_string())).unwrap();
    assert_eq!(names(&contacts), ["Bob"]);
    assert_eq!(contacts.index().lookup_name("bob"), vec![0]);
    assert_eq!(contacts.index().lookup_domain("work.com"), vec![0]);
    assert_index_in_step(&contacts);
}

#[test]
fn delete_picks_the_first_candidate_that_has_the_phone() {
    let mut contacts = Contacts::new(vec![
        person("Zed", "1", "zed@z.org"),
        tagged("Alice", &["123", "9"], "alice@a.org", &[]),
        tagged("alice", &["9"], "alice@b.org", &[]),
        tagged("Alice", &["9", "5"], "alice@c.org", &[]),
    ]);
    contacts.delete("ALICE".to_string(), Some("9".to_string())).unwrap();
    let emails: Vec<&str> = contacts.as_slice().iter().map(|c| c.email.as_str()).collect();
    assert_eq!(emails, ["zed@z.org", "alice@b.org", "alice@c.org"]);
    assert_eq!(contacts.index().lookup_name("alice"), vec![1, 2]);
    assert_index_in_step(&contacts);
}

#[test]
fn delete_renumbers_every_later_position_in_both_indices() {
    let mut contacts = Contacts::new(vec![
        person("Ann", "1", "ann@one.org"),
        person("Ben", "2", "ben@two.org"),
        person("Cat", "3", "cat@one.org"),
        person("Dan", "4", "dan@two.org"),
        person("Eve", "5", "eve@one.org"),
    ]);
    contacts.delete("Ben".to_string(), None).unwrap();
    assert_eq!(names(&contacts), ["Ann", "Cat", "Dan", "Eve"]);
    assert_eq!(contacts.index().lookup_name("ann"), vec![0]);
    assert!(contacts.index().lookup_name("ben").is_empty());
    assert_eq!(contacts.index().lookup_name("cat"), vec![1]);
    assert_eq!(contacts.index().lookup_name("dan"), vec![2]);
    assert_eq!(contacts.index().lookup_name("eve"), vec![3]);
    assert_eq!(contacts.index().lookup_domain("one.org"), vec![0, 1, 3]);
    assert_eq!(contacts.index().lookup_domain("two.org"), vec![2]);
    contacts.delete("Dan".to_string(), None).unwrap();
    assert!(contacts.index().lookup_domain("two.org").is_empty());
    assert_eq!(contacts.index().lookup_domain("one.org"), vec![0, 1, 2]);
    contacts.delete("Ann".to_string(), None).unwrap();
    contacts.delete("Eve".to_string(), None).unwrap();
    contacts.delete("Cat".to_string(), None).unwrap();
    assert_eq!(contacts.len(), 0);
    assert!(contacts.index().lookup_domain("one.org").is_empty());
    assert_index_in_step(&contacts);
}

#[test]
fn positions_stay_contiguous_through_a_run_of_changes() {
    let mut contacts = Contacts::new(vec![]);
    for i in 0..12 {
        let name = ["Ann", "Ben", "Cat"][i % 3];
        let phone = format!("00000000{:02}", i);
        let email = format!("p{}@d{}.org", i, i % 4);
        contacts.add(Contact::new(name, &phone, &email, vec![], T0, T0)).unwrap();
        assert_index_in_step(&contacts);
    }
    contacts.delete("Ben".to_string(), Some("0000000004".to_string())).unwrap();
    assert_index_in_step(&contacts);
    contacts
        .update_at(
            "Cat".to_string(),
            "0000000008".to_string(),
            vec![],
            Some("Ann".to_string()),
            None,
            Some("moved@d0.org".to_string()),
            T1,
        )
        .unwrap();
    assert_index_in_step(&contacts);
    contacts.delete("Ann".to_string(), Some("0000000000".to_string())).unwrap();
    assert_index_in_step(&contacts);
    contacts.delete("ann".to_string(), Some("0000000008".to_string())).unwrap();
    assert_index_in_step(&contacts);
    assert_eq!(contacts.len(), 9);
    let mut seen: Vec<usize> = Vec::new();
    for name in ["ann", "ben", "cat"] {
        seen.extend(contacts.index().lookup_name(name));
    }
    assert_eq!(sorted(seen), (0..9).collect::<Vec<usize>>());
    let mut seen: Vec<usize> = Vec::new();
    for domain in ["d0.org", "d1.org", "d2.org", "d3.org"] {
        seen.extend(contacts.index().lookup_domain(domain));
    }
    assert_eq!(sorted(seen), (0..9).collect::<Vec<usize>>());
}

#[test]
fn update_overwrites_what_was_supplied_and_the_tags() {
    let mut contacts = Contacts::new(vec![
        person("Bob", "5555555555", "bob@work.com"),
        tagged("Alice", &["1234567890", "0987654321"], "alice@work.com", &["old"]),
    ]);
    contacts
        .update_at(
            "Alice".to_string(),
            "0987654321".to_string(),
            vec!["new".to_string(), "vip".to_string()],
            None,
            Some("1112223334".to_string()),
            None,
            T1,
        )
        .unwrap();
    let c = &contacts.as_slice()[1];
    assert_eq!(c.name, "Alice");
    assert_eq!(c.phone, ["1112223334"]);
    assert_eq!(c.email, "alice@work.com");
    assert_eq!(c.tags, ["new", "vip"]);
    assert_eq!(c.created_at, T0);
    assert_eq!(c.updated_at, T1);
    assert_eq!(contacts.as_slice()[0].updated_at, T0);
    assert_index_in_step(&contacts);
}

#[test]
fn update_moves_the_position_to_its_new_buckets() {
    let mut contacts = Contacts::new(vec![
        person("Alice", "1234567890", "alice@work.com"),
        person("Bob", "5555555555", "bob@work.com"),
        person("Carol", "7777777777", "carol@home.com"),
    ]);
    contacts
        .update_at(
            "Alice".to_string(),
            "1234567890".to_string(),
            vec![],
            Some("Carol".to_string()),
            Some(String::new()),
            Some("alice@home.com".to_string()),
            T1,
        )
        .unwrap();
    assert!(contacts.index().lookup_name("alice").is_empty());
    assert_eq!(contacts.index().lookup_name("carol"), vec![2, 0]);
    assert_eq!(contacts.index().lookup_domain("work.com"), vec![1]);
    assert_eq!(contacts.index().lookup_domain("home.com"), vec![2, 0]);
    assert_eq!(contacts.as_slice()[0].phone, ["1234567890"]);
    assert_index_in_step(&contacts);
    // A new name that differs in letter case only stays in its bucket.
    contacts
        .update_at(
            "Bob".to_string(),
            "5555555555".to_string(),
            vec![],
            Some("BOB".to_string()),
            None,
            Some("bob@WORK.com".to_string()),
            T1,
        )
        .unwrap();
    assert_eq!(contacts.index().lookup_name("bob"), vec![1]);
    assert_eq!(contacts.index().lookup_domain("work.com"), vec![1]);
    assert_eq!(contacts.as_slice()[1].name, "BOB");
    assert_index_in_step(&contacts);
}

#[test]
fn update_fails_by_the_first_rule_that_is_broken_and_changes_nothing() {
    let mut contacts = Contacts::new(vec![tagged("Alice", &["1234567890"], "alice@work.com", &["old"])]);
    let call = |contacts: &mut Contacts,
                name: &str,
                phone: &str,
                new_name: Option<&str>,
                new_phone: Option<&str>,
                new_email: Option<&str>| {
        contacts.update_at(
            name.to_string(),
            phone.to_string(),
            vec!["new".to_string()],
            new_name.map(|s| s.to_string()),
            new_phone.map(|s| s.to_string()),
            new_email.map(|s| s.to_string()),
            T1,
        )
    };
    let cases: Vec<(Result<(), AppError>, &str)> = vec![
        (
            call(&mut contacts, "4lice", "12", Some("4"), Some("1"), Some("x")),
            "Validation failed: Invalid name! Please check the name and try and again",
        ),
        (
            call(&mut contacts, "Alice", "12", Some("4"), Some("1"), Some("x")),
            "Validation failed: Invalid phone number! Please check the number and try and again",
        ),
        (
            call(&mut contacts, "Alice", "0000000000", Some("4"), Some("1"), Some("x")),
            "Parse error: Contact with name 'Alice' and phone '0000000000' not found",
        ),
        (
            call(&mut contacts, "alice", "1234567890", None, None, None),
            "Parse error: Contact with name 'alice' and phone '1234567890' not found",
        ),
        (
            call(&mut contacts, "Alice", "1234567890", Some("4"), Some("1"), Some("x")),
            "Validation failed: New name is invalid",
        ),
        (
            call(&mut contacts, "Alice", "1234567890", Some("Al"), Some("1"), Some("x")),
            "Validation failed: New phone number is invalid",
        ),
        (
            call(&mut contacts, "Alice", "1234567890", Some("Al"), Some("1234567899"), Some("x")),
            "Validation failed: New email is invalid",
        ),
    ];
    for (r, expected) in cases {
        assert_eq!(message(r), expected);
    }
    let c = &contacts.as_slice()[0];
    assert_eq!(c.name, "Alice");
    assert_eq!(c.phone, ["1234567890"]);
    assert_eq!(c.email, "alice@work.com");
    assert_eq!(c.tags, ["old"]);
    assert_eq!(c.updated_at, T0);
    assert_eq!(contacts.index().lookup_name("alice"), vec![0]);
    assert!(contacts.index().lookup_name("al").is_empty());
    assert_index_in_step(&contacts);
}

#[test]
fn update_stamps_the_time_of_the_clock() {
    let mut contacts = Contacts::new(vec![person("Alice", "1234567890", "alice@work.com")]);
    let before = chrono::Utc::now().timestamp();
    contacts
        .update("Alice".to_string(), "1234567890".to_string(), vec![], None, None, None)
        .unwrap();
    let after = chrono::Utc::now().timestamp();
    let c = &contacts.as_slice()[0];
    assert!(before <= c.updated_at.secs && c.updated_at.secs <= after);
    assert_eq!(c.created_at, T0);
    assert_eq!(c.name, "Alice");
    assert!(c.tags.is_empty());
}

#[test]
fn import_adds_each_record_until_one_is_refused() {
    let mut contacts = Contacts::new(vec![person("Alice", "123", "alice@work.com")]);
    let records = vec![
        person("Bob", "555", "bob@home.com"),
        person("Alice", "123", "again@work.com"),
        person("Carol", "777", "carol@home.com"),
    ];
    let r = contacts.import_from_remote(200, "200 OK", Ok(records));
    assert_eq!(message(r), "Validation failed: Contact with info already exists");
    assert_eq!(names(&contacts), ["Alice", "Bob"]);
    assert_eq!(contacts.index().lookup_domain("home.com"), vec![1]);
    assert_index_in_step(&contacts);
    let more = vec![person("Carol", "777", "carol@home.com"), person("Dan", "888", "dan@work.com")];
    contacts.import_from_remote(200, "200 OK", Ok(more)).unwrap();
    assert_eq!(names(&contacts), ["Alice", "Bob", "Carol", "Dan"]);
    assert_index_in_step(&contacts);
}

#[test]
fn import_of_a_refused_request_is_a_network_error() {
    let mut contacts = Contacts::new(vec![person("Alice", "123", "alice@work.com")]);
    for (status, text) in [(404u16, "404 Not Found"), (201, "201 Created"), (500, "500 Internal Server Error")] {
        let r = contacts.import_from_remote(status, text, Ok(vec![person("Bob", "5", "b@b.org")]));
        assert!(matches!(r, Err(AppError::Network(_))));
        assert_eq!(message(r), format!("Network error: Failed to import: {}", text));
        assert_eq!(names(&contacts), ["Alice"]);
    }
    // The status is looked at before the body.
    let r = contacts.import_from_remote(503, "503 Service Unavailable", Err("eof".to_string()));
    assert!(matches!(r, Err(AppError::Network(_))));
}

#[test]
fn import_of_a_body_that_was_not_decoded_is_a_parse_error() {
    let mut contacts = Contacts::new(vec![person("Alice", "123", "alice@work.com")]);
    let r = contacts.import_from_remote(200, "200 OK", Err("missing field `record`".to_string()));
    assert!(matches!(r, Err(AppError::Parse(_))));
    assert_eq!(message(r), "Parse error: Invalid JSON: missing field `record`");
    assert_eq!(names(&contacts), ["Alice"]);
}

#[test]
fn export_fails_on_any_status_but_200() {
    let contacts = Contacts::new(vec![person("Alice", "123", "alice@work.com")]);
    contacts.export_to_remote(200, "200 OK").unwrap();
    let r = contacts.export_to_remote(403, "403 Forbidden");
    assert!(matches!(r, Err(AppError::Network(_))));
    assert_eq!(message(r), "Network error: Failed to export: 403 Forbidden");
    assert!(contacts.export_to_remote(204, "204 No Content").is_err());
}

#[test]
fn add_all_of_no_records_changes_nothing() {
    let mut contacts = Contacts::new(vec![person("Alice", "123", "alice@work.com")]);
    contacts.add_all(vec![]).unwrap();
    assert_eq!(names(&contacts), ["Alice"]);
}

#[test]
fn a_collection_holds_its_contacts_in_the_order_given() {
    let contacts = Contacts::new(vec![
        person("Carol", "3", "carol@x.org"),
        person("Alice", "1", "alice@x.org"),
        person("Bob", "2", "bob@y.org"),
    ]);
    assert_eq!(names(&contacts), ["Carol", "Alice", "Bob"]);
    assert_eq!(contacts.len(), 3);
    assert_eq!(contacts.index().lookup_name("alice"), vec![1]);
    assert_eq!(contacts.index().lookup_domain("x.org"), vec![0, 1]);
    assert_index_in_step(&contacts);
}

#[test]
fn each_kind_of_error_describes_itself() {
    assert_eq!(AppError::Io("disk full".to_string()).describe(), "I/O error: disk full");
    assert_eq!(AppError::Parse("bad".to_string()).describe(), "Parse error: bad");
    assert_eq!(AppError::Validation("no".to_string()).describe(), "Validation failed: no");
    assert_eq!(AppError::Network("down".to_string()).describe(), "Network error: down");
    assert_eq!(AppError::Io(String::new()).describe(), "I/O error: ");
}

#[test]
fn index_stays_in_step_through_many_mixed_changes() {
    let names = ["Ann", "ann", "Ben", "Cat", "Dan Lee", "Éva"];
    let domains = ["one.org", "two.org", "THREE.org", "four.org"];
    let mut seed: u64 = 0x2545_F491_4F6C_DD1D;
    let mut next = |bound: usize| {
        seed = seed.wrapping_mul(6364136223846793005).wrapping_add(1442695040888963407);
        ((seed >> 33) as usize) % bound
    };
    let mut contacts = Contacts::new(vec![]);
    let mut expected_len = 0usize;
    for step in 0..400 {
        let name = names[next(names.len())];
        let phone = format!("55500000{:02}", next(30));
        match next(4) {
            0 | 1 => {
                let email = format!("p{}@{}", step, domains[next(domains.len())]);
                let c = Contact::new(name, &phone, &email, vec![], T0, T0);
                let known = contacts.check_contact_exist(&c);
                let r = contacts.add(c);
                assert_eq!(r.is_err(), known);
                if !known {
                    expected_len += 1;
                }
            }
            2 => {
                let candidates = contacts.index().lookup_name(name).len();
                let with_phone = next(2) == 0;
                let before = contacts.len();
                let r = contacts.delete(name.to_string(), if with_phone { Some(phone) } else { None });
                if candidates > 1 && !with_phone {
                    assert!(r.is_err());
                    assert_eq!(contacts.len(), before);
                } else {
                    assert!(r.is_ok());
                    if candidates == 1 {
                        assert_eq!(contacts.len(), before - 1);
                    }
                }
                expected_len = contacts.len();
            }
            _ => {
                let new_name = names[next(names.len())];
                let new_email = format!("q{}@{}", step, domains[next(domains.len())]);
                let found = contacts
                    .iter()
                    .position(|c| c.name == name && c.phone.contains(&phone));
                let r = contacts.update_at(
                    name.to_string(),
                    phone,
                    vec![format!("t{}", step)],
                    Some(new_name.to_string()),
                    None,
                    Some(new_email.clone()),
                    T1,
                );
                assert_eq!(r.is_ok(), found.is_some());
                if let Some(p) = found {
                    assert_eq!(contacts.as_slice()[p].name, new_name);
                    assert_eq!(contacts.as_slice()[p].email, new_email);
                }
            }
        }
        assert_eq!(contacts.len(), expected_len);
        assert_index_in_step(&contacts);
    }
    assert!(contacts.len() > 0);
}
