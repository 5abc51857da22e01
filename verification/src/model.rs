//! The relationship model.
//!
//! A `Relation` is one observed account identity together with the
//! epoch-seconds instant it was first associated with the subject. Equality
//! of relations is identity-only: two relations with the same identity and
//! different timestamps are the same account, by design — "who" is the key,
//! "when" an attribute. A `Relationships` value is a point-in-time snapshot
//! of the two relation lists, "following" and "followers".

use vstd::prelude::*;
use crate::date::{Date, date_key, date_of_timestamp, valid_timestamp, date_from_timestamp,
    MIN_TIMESTAMP, MAX_TIMESTAMP};

verus! {

/// Why an operation failed: the instant has no representable calendar date,
/// or a requested month series ends before it starts.
#[derive(Clone, Copy, PartialEq, Eq, Structural, Debug)]
pub enum RelationError {
    InvalidTimestamp,
    EmptyRange,
}

/// One observed account identity and the instant it was first observed.
/// Immutable after construction.
#[derive(Debug)]
pub struct Relation {
    name: String,
    start_timestamp: i64,
}

/// The mathematical value of a `Relation`: its identity as a character
/// sequence and its first-observation instant as an integer.
pub struct RelationView {
    pub name: Seq<char>,
    pub ts: int,
}

impl View for Relation {
    type V = RelationView;

    closed spec fn view(&self) -> RelationView {
        RelationView { name: self.name@, ts: self.start_timestamp as int }
    }
}

impl Relation {
    /// Every relation holds a nonempty identity and a representable instant.
    #[verifier::type_invariant]
    spec fn inv(self) -> bool {
        self@.name.len() > 0 && MIN_TIMESTAMP <= self@.ts <= MAX_TIMESTAMP
    }

    /// Builds a relation from an identity and an epoch-seconds instant.
    /// Rejects exactly the instants whose calendar date the library cannot
    /// represent.
    pub fn new(name: String, start_timestamp: i64) -> (r: Result<Relation, RelationError>)
        requires
            name@.len() > 0,
        ensures
            match r {
                Ok(rel) => rel@.name == name@ && rel@.ts == start_timestamp as int
                    && valid_timestamp(start_timestamp),
                Err(e) => e == RelationError::InvalidTimestamp
                    && !valid_timestamp(start_timestamp),
            },
    {
        if start_timestamp < MIN_TIMESTAMP || start_timestamp > MAX_TIMESTAMP {
            Err(RelationError::InvalidTimestamp)
        } else {
            Ok(Relation { name, start_timestamp })
        }
    }

    /// The account identity.
    pub fn name(&self) -> (r: &str)
        ensures
            r@ == self@.name,
    {
        self.name.as_str()
    }

    /// The epoch-seconds instant of first observation.
    pub fn start_timestamp(&self) -> (r: i64)
        ensures
            r as int == self@.ts,
    {
        self.start_timestamp
    }

    /// The canonical identity order, for display sorting only: is this
    /// relation's identity lexicographically on or before that of `other`?
    /// Independent of the timestamps, as equality is.
    pub fn le_by_identity(&self, other: &Relation) -> (r: bool)
        ensures
            r == crate::order::chars_le(self@.name, other@.name),
    {
        crate::order::str_le(&self.name, &other.name)
    }

    /// The canonical three-way comparison: less, equal or greater by the
    /// identities alone, lexicographically. Agrees with `eq` on equality and
    /// never consults the timestamps.
    pub fn compare_by_identity(&self, other: &Relation) -> (r: core::cmp::Ordering)
        ensures
            (r == core::cmp::Ordering::Equal) == (self@.name == other@.name),
            (r == core::cmp::Ordering::Less) == (self@.name != other@.name
                && crate::order::chars_le(self@.name, other@.name)),
            (r == core::cmp::Ordering::Greater) == (self@.name != other@.name
                && crate::order::chars_le(other@.name, self@.name)),
    {
        proof {
            crate::order::lemma_chars_le_total(self@.name, other@.name);
        }
        if crate::order::str_le(&self.name, &other.name) {
            if crate::order::str_le(&other.name, &self.name) {
                proof {
                    crate::order::lemma_chars_le_antisym(self@.name, other@.name);
                }
                core::cmp::Ordering::Equal
            } else {
                core::cmp::Ordering::Less
            }
        } else {
            core::cmp::Ordering::Greater
        }
    }

    /// The UTC calendar date of first observation; used for bucketing only,
    /// never for equality.
    pub fn started_at(&self) -> (r: Date)
        ensures
            date_key(r) == date_of_timestamp(self@.ts),
    {
        proof {
            use_type_invariant(self);
        }
        date_from_timestamp(self.start_timestamp)
    }
}

impl Clone for Relation {
    /// A clone carries the same identity and instant.
    fn clone(&self) -> (r: Self)
        ensures
            r == *self,
    {
        proof {
            use_type_invariant(self);
        }
        Relation { name: self.name.clone(), start_timestamp: self.start_timestamp }
    }
}

impl PartialEq for Relation {
    /// Relations are equal iff their identities match, whatever their
    /// timestamps: this governs every membership and difference operation.
    fn eq(&self, other: &Self) -> (r: bool) {
        self.name == other.name
    }
}

impl vstd::std_specs::cmp::PartialEqSpecImpl for Relation {
    open spec fn obeys_eq_spec() -> bool {
        true
    }

    open spec fn eq_spec(&self, other: &Relation) -> bool {
        self@.name == other@.name
    }
}

/// A point-in-time snapshot of the two relation lists: the accounts the
/// subject follows and the accounts that follow the subject. Immutable for
/// the duration of an analysis run.
pub struct Relationships {
    following: Vec<Relation>,
    followers: Vec<Relation>,
}

/// The mathematical value of a `Relationships`: the two sequences.
pub struct RelationshipsView {
    pub following: Seq<Relation>,
    pub followers: Seq<Relation>,
}

impl View for Relationships {
    type V = RelationshipsView;

    closed spec fn view(&self) -> RelationshipsView {
        RelationshipsView { following: self.following@, followers: self.followers@ }
    }
}

impl Relationships {
    /// Builds a snapshot from the two lists, preserving their order and
    /// performing no deduplication.
    pub fn new(following: Vec<Relation>, followers: Vec<Relation>) -> (r: Self)
        ensures
            r@.following == following@,
            r@.followers == followers@,
    {
        Relationships { following, followers }
    }

    /// The accounts the subject follows, in input order.
    pub fn following(&self) -> (r: &Vec<Relation>)
        ensures
            r@ == self@.following,
    {
        &self.following
    }

    /// The accounts that follow the subject, in input order.
    pub fn followers(&self) -> (r: &Vec<Relation>)
        ensures
            r@ == self@.followers,
    {
        &self.followers
    }
}

} // verus!
