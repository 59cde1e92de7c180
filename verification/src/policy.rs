//! Merge policies.

use vstd::prelude::*;
use vstd::string::*;
use crate::outside::{lowercase, to_lowercase};
use crate::text::same_text;

verus! {

/// How an incoming record is reconciled with an existing one.
#[derive(Debug, Clone, Copy, PartialEq, Eq, Structural)]
pub enum MergePolicy {
    /// The existing record stays.
    Keep,
    /// The incoming record takes the place of the existing one.
    Overwrite,
    /// What the incoming record brings is added to what exists.
    Duplicate,
}

/// The policy that a lowercase name stands for: `overwrite`, `duplication`,
/// and `Keep` for every other text.
pub open spec fn policy_named(lower: Seq<char>) -> MergePolicy {
    if lower == "overwrite"@ {
        MergePolicy::Overwrite
    } else if lower == "duplication"@ {
        MergePolicy::Duplicate
    } else {
        MergePolicy::Keep
    }
}

/// The policy that a word of the command line stands for: `keep`,
/// `overwrite` or `duplicate`, and none for every other text.
pub open spec fn policy_of_word(word: Seq<char>) -> Option<MergePolicy> {
    if word == "keep"@ {
        Some(MergePolicy::Keep)
    } else if word == "overwrite"@ {
        Some(MergePolicy::Overwrite)
    } else if word == "duplicate"@ {
        Some(MergePolicy::Duplicate)
    } else {
        None
    }
}

impl MergePolicy {
    /// The policy that a name stands for, letter case aside; `Keep` for a
    /// name that stands for none.
    pub fn from_str(s: &str) -> (r: MergePolicy)
        ensures
            r == policy_named(lowercase(s@)),
    {
        let lower = to_lowercase(s);
        if same_text(lower.as_str(), "overwrite") {
            MergePolicy::Overwrite
        } else if same_text(lower.as_str(), "duplication") {
            MergePolicy::Duplicate
        } else {
            MergePolicy::Keep
        }
    }

    /// The policy that a word of the command line stands for.
    pub fn from_word(word: &str) -> (r: Option<MergePolicy>)
        ensures
            r == policy_of_word(word@),
    {
        if same_text(word, "keep") {
            Some(MergePolicy::Keep)
        } else if same_text(word, "overwrite") {
            Some(MergePolicy::Overwrite)
        } else if same_text(word, "duplicate") {
            Some(MergePolicy::Duplicate)
        } else {
            None
        }
    }
}

} // verus!
