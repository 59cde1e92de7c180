//! An indexed contact collection.
//!
//! [`contacts::Contacts`] owns an ordered sequence of [`contact::Contact`]
//! and a live [`index::ContactsIndex`]: buckets of positions by lowercase
//! name and by lowercase e-mail domain, which every addition, deletion,
//! update and merge keeps in step with the sequence. The index also stands
//! alone, built once from a snapshot, for exact lookups and for search by
//! edit distance.
//!
//! The other modules hold what these rest on: [`buckets`] and [`positions`]
//! for the bucket maps and their laws, [`distance`] for the edit distance,
//! [`text`] and [`time`] for strings and timestamps, [`validation`] for the
//! rules on inputs, [`policy`] and [`store`] for merging and searching whole
//! lists, and [`error`] for the error type. Everything is proved but the
//! contracts of the calls in [`outside`].

pub mod buckets;
pub mod contact;
pub mod contacts;
pub mod distance;
pub mod error;
pub mod index;
pub mod outside;
pub mod policy;
pub mod positions;
pub mod store;
pub mod text;
pub mod time;
pub mod validation;
