//! Making the column names of a table into identifiers.

use vstd::prelude::*;
use vstd::string::*;

use crate::clean_column_names::stable::{stable_outcome, StableCleaner};
use crate::clean_column_names::unique::{fresh_outcome, Uniquifier};
use crate::errors::Error;
use crate::text::same_text;

pub mod stable;
pub mod unique;

verus! {

/// What algorithm should be use to clean column names?
#[derive(Debug, Clone, Copy, PartialEq, Eq, Structural)]
pub enum ColumnNameCleanerType {
    /// Guarantee that all column names are unique, lowercase C identifiers.
    /// Conflicting column names will be suffixed to make them unique.
    Unique,
    /// Guarantee that all column names will always map to the _same_
    /// unique lowercase C identifier in an easily predictable fashion.
    /// This may fail if two conflicting column names are present.
    Stable,
}

/// The algorithm that goes by the name `s`, if any does.
pub open spec fn cleaner_named(s: Seq<char>) -> Option<ColumnNameCleanerType> {
    if s == "unique"@ {
        Some(ColumnNameCleanerType::Unique)
    } else if s == "stable"@ {
        Some(ColumnNameCleanerType::Stable)
    } else {
        None
    }
}

/// A character that may stand first in an identifier: a lower case letter
/// or an underscore.
pub open spec fn is_head_char(c: char) -> bool {
    c == '_' || ('a' <= c <= 'z')
}

/// A character that may stand in an identifier: a lower case letter, a
/// digit or an underscore.
pub open spec fn is_tail_char(c: char) -> bool {
    is_head_char(c) || ('0' <= c <= '9')
}

/// A lower case C identifier: a letter or an underscore, then letters,
/// digits and underscores.
pub open spec fn is_safe_name(s: Seq<char>) -> bool {
    &&& s.len() >= 1
    &&& is_head_char(s[0])
    &&& forall|i: int| 1 <= i < s.len() ==> is_tail_char(#[trigger] s[i])
}

/// Appends a character to a string.
///
/// Calls `String::push` of std, which puts the character at the end of the
/// string.
#[verifier::external_body]
pub(crate) fn push_char(s: &mut String, c: char)
    ensures
        final(s)@ == old(s)@.push(c),
{
    s.push(c)
}

/// Interface used to clean column names.
pub trait ColumnNameCleaner {
    /// The identifiers that have been handed out.
    spec fn used_ids(&self) -> Set<Seq<char>>;

    /// Whether, as things stand, the column name `name` is given an
    /// identifier.
    spec fn accepts(&self, name: Seq<char>) -> bool;

    /// The identifier that the column name `name` is given, where it is
    /// given one.
    spec fn id_for(&self, name: Seq<char>) -> Seq<char>;

    /// Given a `name`, return an idenfitier to use as a column name.  The
    /// identifier is a lower case C identifier that has not been handed out
    /// before.
    fn unique_id_for(&mut self, name: &str) -> (r: Result<String, Error>)
        ensures
            r is Ok <==> old(self).accepts(name@),
            r matches Ok(id) ==> id@ == old(self).id_for(name@) && is_safe_name(id@)
                && !old(self).used_ids().contains(id@) && final(self).used_ids() == old(
                self,
            ).used_ids().insert(id@),
            r is Err ==> final(self).used_ids() == old(self).used_ids(),
    ;
}

impl ColumnNameCleanerType {
    /// Reads the name of an algorithm: `unique` or `stable`.
    pub fn from_str(s: &str) -> (r: Result<ColumnNameCleanerType, Error>)
        ensures
            match cleaner_named(s@) {
                Some(kind) => r == Ok::<ColumnNameCleanerType, Error>(kind),
                None => r matches Err(Error::UnknownCleaner(t)) && t@ == s@,
            },
    {
        if same_text(s, "unique") {
            Ok(ColumnNameCleanerType::Unique)
        } else if same_text(s, "stable") {
            Ok(ColumnNameCleanerType::Stable)
        } else {
            Err(Error::UnknownCleaner(s.to_owned()))
        }
    }

    /// Construct an appropriate `ColumnNameCleaner` instance.
    pub fn build_cleaner(self) -> (cleaner: Cleaner)
        ensures
            cleaner.used_ids() == Set::<Seq<char>>::empty(),
            self == ColumnNameCleanerType::Unique <==> cleaner is Unique,
            self == ColumnNameCleanerType::Stable <==> cleaner is Stable,
    {
        match self {
            ColumnNameCleanerType::Unique => Cleaner::Unique(Uniquifier::default()),
            ColumnNameCleanerType::Stable => Cleaner::Stable(StableCleaner::default()),
        }
    }
}

/// A column name cleaner of either kind.
pub enum Cleaner {
    /// Makes identifiers differ by suffixes.
    Unique(Uniquifier),
    /// Makes the same identifier of the same name, always.
    Stable(StableCleaner),
}

/// What one call of a cleaner of either kind does: what a call of the
/// cleaner inside it does, which stays of its kind.
pub open spec fn cleaner_outcome(
    before: Cleaner,
    name: Seq<char>,
    after: Cleaner,
    r: Result<String, Error>,
) -> bool {
    match (before, after) {
        (Cleaner::Unique(a), Cleaner::Unique(b)) => fresh_outcome(a, name, b, r),
        (Cleaner::Stable(a), Cleaner::Stable(b)) => stable_outcome(a, name, b, r),
        _ => false,
    }
}

impl ColumnNameCleaner for Cleaner {
    open spec fn used_ids(&self) -> Set<Seq<char>> {
        match self {
            Cleaner::Unique(cleaner) => cleaner.used_ids(),
            Cleaner::Stable(cleaner) => cleaner.used_ids(),
        }
    }

    open spec fn accepts(&self, name: Seq<char>) -> bool {
        match self {
            Cleaner::Unique(cleaner) => cleaner.accepts(name),
            Cleaner::Stable(cleaner) => cleaner.accepts(name),
        }
    }

    open spec fn id_for(&self, name: Seq<char>) -> Seq<char> {
        match self {
            Cleaner::Unique(cleaner) => cleaner.id_for(name),
            Cleaner::Stable(cleaner) => cleaner.id_for(name),
        }
    }

    /// Hands the name to the cleaner inside.
    fn unique_id_for(&mut self, name: &str) -> (r: Result<String, Error>)
        ensures
            cleaner_outcome(*old(self), name@, *final(self), r),
    {
        match self {
            Cleaner::Unique(cleaner) => cleaner.unique_id_for(name),
            Cleaner::Stable(cleaner) => cleaner.unique_id_for(name),
        }
    }
}

} // verus!
