//! The rules that inputs are held to, and the messages for those that fail
//! them.

use vstd::prelude::*;
use vstd::string::*;
use crate::contact::{views, Contact, ContactView};
use crate::error::{AppError, ErrorView};
use crate::outside::{
    char_is_alphabetic, char_is_whitespace, is_alphabetic, is_whitespace, regex_is_match,
    regex_match,
};
use crate::text::{chars_of, overlapping, texts, texts_overlap};
use crate::time::Timestamp;

verus! {

/// The pattern of a phone number: ten digits or more and nothing else.
pub open spec fn phone_pattern() -> Seq<char> {
    "^\\d{10,}$"@
}

/// The pattern of an address: a local part, `@`, and a dotted domain.
pub open spec fn email_pattern() -> Seq<char> {
    "^[\\w\\.-]+@[\\w\\.-]+\\.\\w+$"@
}

/// A name is valid where it holds a character that is not white space and
/// nothing but letters and white space.
pub open spec fn valid_name(name: Seq<char>) -> bool {
    &&& exists|i: int| 0 <= i < name.len() && !is_whitespace(#[trigger] name[i])
    &&& forall|i: int|
        0 <= i < name.len() ==> is_alphabetic(#[trigger] name[i]) || is_whitespace(name[i])
}

/// A phone number is valid where the phone pattern matches it.
pub open spec fn valid_phone(phone: Seq<char>) -> bool {
    regex_match(phone_pattern(), phone) == Some(true)
}

/// An address is valid where the address pattern matches it.
pub open spec fn valid_email(email: Seq<char>) -> bool {
    regex_match(email_pattern(), email) == Some(true)
}

/// Two records denote the same person where they have the same name and a
/// phone number in common.
pub open spec fn same_identity(a: ContactView, b: ContactView) -> bool {
    a.name == b.name && overlapping(a.phone, b.phone)
}

/// Whether some contact of the list denotes the same person as `c`.
pub open spec fn holds_identity(list: Seq<ContactView>, c: ContactView) -> bool {
    exists|i: int| 0 <= i < list.len() && same_identity(#[trigger] list[i], c)
}

/// How many contacts of the list have the name.
pub open spec fn count_named(list: Seq<ContactView>, name: Seq<char>) -> nat
    decreases list.len(),
{
    if list.len() == 0 {
        0
    } else if list.last().name == name {
        count_named(list.drop_last(), name) + 1
    } else {
        count_named(list.drop_last(), name)
    }
}

/// The message for a name that is not valid.
pub open spec fn invalid_name_message() -> Seq<char> {
    "Invalid name! Please check the name and try and again"@
}

/// The message for an address that is not valid.
pub open spec fn invalid_email_message() -> Seq<char> {
    "Invalid email! Please check the email and try and again"@
}

/// The message for a phone number that is not valid.
pub open spec fn invalid_phone_message() -> Seq<char> {
    "Invalid phone number! Please check the number and try and again"@
}

/// What making a contact from checked fields gives: the contact, or the
/// message of the first rule that a field fails, the name first, then the
/// address, then the phone number.
pub open spec fn checked_contact(
    name: Seq<char>,
    phone: Seq<char>,
    email: Seq<char>,
    tags: Seq<Seq<char>>,
    created_at: Timestamp,
    updated_at: Timestamp,
) -> Result<ContactView, ErrorView> {
    if !valid_name(name) {
        Err(ErrorView::Validation(invalid_name_message()))
    } else if !valid_email(email) {
        Err(ErrorView::Validation(invalid_email_message()))
    } else if !valid_phone(phone) {
        Err(ErrorView::Validation(invalid_phone_message()))
    } else {
        Ok(ContactView { name, phone: seq![phone], email, tags, created_at, updated_at })
    }
}

/// The messages for inputs that fail the rules.
pub struct ValidationResponse;

impl ValidationResponse {
    /// The message for a name that is not valid.
    pub fn check_name() -> (r: String)
        ensures
            r@ == invalid_name_message(),
    {
        String::from_str("Invalid name! Please check the name and try and again")
    }

    /// The message for an address that is not valid.
    pub fn check_email() -> (r: String)
        ensures
            r@ == invalid_email_message(),
    {
        String::from_str("Invalid email! Please check the email and try and again")
    }

    /// The message for a phone number that is not valid.
    pub fn check_phone_number() -> (r: String)
        ensures
            r@ == invalid_phone_message(),
    {
        String::from_str("Invalid phone number! Please check the number and try and again")
    }
}

/// A contact of fields that pass the three rules.
pub fn validated_contact(
    name: &str,
    phone: &str,
    email: &str,
    tags: Vec<String>,
    created_at: Timestamp,
    updated_at: Timestamp,
) -> (r: Result<Contact, AppError>)
    ensures
        match checked_contact(name@, phone@, email@, texts(tags@), created_at, updated_at) {
            Ok(c) => r is Ok && r->Ok_0@ == c,
            Err(e) => r is Err && r->Err_0@ == e,
        },
{
    if !validate_name(name) {
        return Err(AppError::Validation(ValidationResponse::check_name()));
    }
    if !validate_email(email) {
        return Err(AppError::Validation(ValidationResponse::check_email()));
    }
    if !validate_phone_number(phone) {
        return Err(AppError::Validation(ValidationResponse::check_phone_number()));
    }
    Ok(Contact::new(name, phone, email, tags, created_at, updated_at))
}

/// Whether two contacts denote the same person.
pub fn same_person(a: &Contact, b: &Contact) -> (r: bool)
    ensures
        r == same_identity(a@, b@),
{
    a.name == b.name && texts_overlap(&a.phone, &b.phone)
}

/// Whether some contact of the list denotes the same person as `contact`.
pub fn check_contact_exist(contact: &Contact, contact_list: &[Contact]) -> (r: bool)
    ensures
        r == holds_identity(views(contact_list@), contact@),
{
    let n = contact_list.len();
    let mut i: usize = 0;
    while i < n
        invariant
            n == contact_list@.len(),
            i <= n,
            forall|j: int| 0 <= j < i ==> !same_identity(#[trigger] views(contact_list@)[j], contact@),
        decreases n - i,
    {
        if same_person(&contact_list[i], contact) {
            assert(same_identity(views(contact_list@)[i as int], contact@));
            return true;
        }
        i += 1;
    }
    false
}

/// How many contacts of the list have the name.
pub fn count_contacts_named(name: &String, contact_list: &[Contact]) -> (r: usize)
    ensures
        r == count_named(views(contact_list@), name@),
{
    let n = contact_list.len();
    let ghost all = views(contact_list@);
    let mut count: usize = 0;
    let mut i: usize = 0;
    while i < n
        invariant
            n == contact_list@.len(),
            all == views(contact_list@),
            i <= n,
            count <= i,
            count == count_named(all.take(i as int), name@),
        decreases n - i,
    {
        proof {
            assert(all.take(i + 1).drop_last() =~= all.take(i as int));
            assert(all.take(i + 1).last() == contact_list@[i as int]@);
        }
        if contact_list[i].name == *name {
            count += 1;
        }
        i += 1;
    }
    assert(all.take(n as int) =~= all);
    count
}

/// Whether more than one contact of the list has the name.
pub fn check_contact_duplicates(name: String, contact_list: Vec<Contact>) -> (r: bool)
    ensures
        r == (count_named(views(contact_list@), name@) > 1),
{
    count_contacts_named(&name, contact_list.as_slice()) > 1
}

/// Whether a name holds a character that is not white space and nothing
/// but letters and white space.
pub fn validate_name(name: &str) -> (r: bool)
    ensures
        r == valid_name(name@),
{
    let chars = chars_of(name);
    let n = chars.len();
    let mut seen = false;
    let mut i: usize = 0;
    while i < n
        invariant
            n == chars@.len(),
            chars@ == name@,
            i <= n,
            forall|j: int|
                0 <= j < i ==> is_alphabetic(#[trigger] name@[j]) || is_whitespace(name@[j]),
            seen == exists|j: int| 0 <= j < i && !is_whitespace(#[trigger] name@[j]),
        decreases n - i,
    {
        let c = chars[i];
        let blank = char_is_whitespace(c);
        if !blank && !char_is_alphabetic(c) {
            assert(!(is_alphabetic(name@[i as int]) || is_whitespace(name@[i as int])));
            return false;
        }
        if !blank {
            assert(!is_whitespace(name@[i as int]));
            seen = true;
        }
        i += 1;
    }
    seen
}

/// Whether the phone pattern matches the text.
pub fn validate_phone_number(phone: &str) -> (r: bool)
    ensures
        r == valid_phone(phone@),
{
    match regex_is_match("^\\d{10,}$", phone) {
        Some(found) => found,
        None => false,
    }
}

/// Whether the address pattern matches the text.
pub fn validate_email(email: &str) -> (r: bool)
    ensures
        r == valid_email(email@),
{
    match regex_is_match("^[\\w\\.-]+@[\\w\\.-]+\\.\\w+$", email) {
        Some(found) => found,
        None => false,
    }
}

} // verus!
