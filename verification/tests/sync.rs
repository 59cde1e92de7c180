use chrono::Utc;
use rusty_rolodex::contact::Contact;
use rusty_rolodex::contacts::Contacts;
use rusty_rolodex::error::AppError;
use rusty_rolodex::policy::MergePolicy;
use rusty_rolodex::store::merge_lists;
use rusty_rolodex::time::Timestamp;

fn make_contact(name: &str, email: &str, phone: &str) -> Contact {
    let t = Utc::now();
    let now = Timestamp { secs: t.timestamp(), nanos: t.timestamp_subsec_nanos() };
    Contact {
        name: name.to_string(),
        email: email.to_string(),
        phone: vec![phone.to_string()],
        tags: vec![],
        created_at: now,
        updated_at: now,
    }
}

#[test]
fn test_merge_keep_policy() -> Result<(), AppError> {
    // Create existing contact
    let mut existing_contacts =
        Contacts::new(vec![make_contact("Alice", "alice@example.com", "123")]);

    // Incoming contact (duplicate)
    let imported_contacts = vec![
        make_contact("Alice", "alice@example.com", "123"),
        make_contact("Bob", "bob@example.com", "555"),
    ];

    existing_contacts.merge_from_file(Ok(imported_contacts), MergePolicy::Keep)?;

    let merged = existing_contacts.as_slice().to_vec();
    println!("Keep policy: {:?}", merged);
    // Should keep the original Alice (123), and add Bob
    assert_eq!(merged.len(), 2);
    assert!(merged.iter().any(|c| c.name == "Alice" && c.phone.contains(&"123".to_string())));
    assert!(merged.iter().any(|c| c.name == "Bob"));
    Ok(())
}

#[test]
fn test_merge_overwrite_policy() -> Result<(), AppError> {
    let existing_contacts = vec![make_contact("Alice", "alice@example.com", "123")];

    let imported_contacts = vec![make_contact("Alice", "alice@example.com", "999")];

    let merged = merge_lists(existing_contacts, imported_contacts, MergePolicy::Overwrite);
    println!("Overwrite policy: {:?}", merged);

    // Should overwrite Alice's phone to 999
    assert_eq!(merged.len(), 1);
    assert_eq!(merged[0].phone, ["999"]);
    Ok(())
}

#[test]
fn test_merge_duplicate_policy() -> Result<(), AppError> {
    let mut existing_contacts =
        Contacts::new(vec![make_contact("Alice", "alice@example.com", "123")]);

    //duplicate contact
    let imported_contacts = vec![make_contact("Alice", "alice@example.com", "123")];

    existing_contacts.merge_from_file(Ok(imported_contacts), MergePolicy::Duplicate)?;

    let merged = existing_contacts.as_slice().to_vec();
    println!("Duplicate policy: {:?}", merged);
    // Should combine both phone entries
    assert_eq!(merged.len(), 1);
    assert!(merged.iter().any(|c| c.phone.len() == 2));
    Ok(())
}

#[test]
fn list_merge_keeps_the_existing_contact_of_one_name_and_address() {
    let existing = vec![make_contact("Alice", "alice@example.com", "123")];
    let imported = vec![
        make_contact("Alice", "alice@example.com", "999"),
        make_contact("Alice", "alice@other.com", "999"),
        make_contact("Alice", "alice@other.com", "111"),
    ];
    let merged = merge_lists(existing, imported, MergePolicy::Keep);
    assert_eq!(merged.len(), 2);
    assert_eq!(merged[0].phone, ["123"]);
    assert_eq!(merged[1].email, "alice@other.com");
    assert_eq!(merged[1].phone, ["999"]);
}

#[test]
fn list_merge_overwrites_the_first_of_several() {
    let existing = vec![
        make_contact("Bob", "bob@example.com", "1"),
        make_contact("Alice", "alice@example.com", "2"),
        make_contact("Alice", "alice@example.com", "3"),
    ];
    let imported = vec![
        make_contact("Alice", "alice@example.com", "9"),
        make_contact("Cleo", "cleo@example.com", "4"),
    ];
    let merged = merge_lists(existing, imported, MergePolicy::Overwrite);
    assert_eq!(merged.len(), 4);
    assert_eq!(merged[0].phone, ["1"]);
    assert_eq!(merged[1].phone, ["9"]);
    assert_eq!(merged[2].phone, ["3"]);
    assert_eq!(merged[3].name, "Cleo");
}

#[test]
fn list_merge_marks_a_second_copy() {
    let existing = vec![make_contact("Alice", "alice@example.com", "123")];
    let imported = vec![
        make_contact("Alice", "alice@example.com", "999"),
        make_contact("Alice", "alice@example.com", "888"),
        make_contact("Alice (dup)", "alice@example.com", "777"),
        make_contact("Bob", "bob@example.com", "555"),
    ];
    let merged = merge_lists(existing, imported, MergePolicy::Duplicate);
    let names: Vec<&str> = merged.iter().map(|c| c.name.as_str()).collect();
    assert_eq!(names, ["Alice", "Alice (dup)", "Alice (dup)", "Alice (dup) (dup)", "Bob"]);
    assert_eq!(merged[1].phone, ["999"]);
    assert_eq!(merged[2].phone, ["888"]);
    assert_eq!(merged[3].phone, ["777"]);
}

#[test]
fn list_merge_of_nothing_changes_nothing() {
    for policy in [MergePolicy::Keep, MergePolicy::Overwrite, MergePolicy::Duplicate] {
        let existing = vec![make_contact("Alice", "alice@example.com", "123")];
        let merged = merge_lists(existing, vec![], policy);
        assert_eq!(merged.len(), 1);
        assert_eq!(merged[0].name, "Alice");
        let from_nothing = merge_lists(vec![], vec![make_contact("Bob", "b@b.org", "5")], policy);
        assert_eq!(from_nothing.len(), 1);
        assert_eq!(from_nothing[0].name, "Bob");
    }
}

#[test]
fn policy_from_its_name() {
    assert_eq!(MergePolicy::from_str("overwrite"), MergePolicy::Overwrite);
    assert_eq!(MergePolicy::from_str("OverWrite"), MergePolicy::Overwrite);
    assert_eq!(MergePolicy::from_str("duplication"), MergePolicy::Duplicate);
    assert_eq!(MergePolicy::from_str("DUPLICATION"), MergePolicy::Duplicate);
    assert_eq!(MergePolicy::from_str("duplicate"), MergePolicy::Keep);
    assert_eq!(MergePolicy::from_str("keep"), MergePolicy::Keep);
    assert_eq!(MergePolicy::from_str(""), MergePolicy::Keep);
    assert_eq!(MergePolicy::from_str("anything"), MergePolicy::Keep);
}

#[test]
fn policy_from_a_word_of_the_command_line() {
    assert_eq!(MergePolicy::from_word("keep"), Some(MergePolicy::Keep));
    assert_eq!(MergePolicy::from_word("overwrite"), Some(MergePolicy::Overwrite));
    assert_eq!(MergePolicy::from_word("duplicate"), Some(MergePolicy::Duplicate));
    assert_eq!(MergePolicy::from_word("duplication"), None);
    assert_eq!(MergePolicy::from_word("Keep"), None);
    assert_eq!(MergePolicy::from_word(""), None);
}
