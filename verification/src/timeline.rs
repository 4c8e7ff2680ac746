//! Timelines, isolation levels and the policies by which a query asks for a
//! time, with the rule that says when a read must be linearized.

use vstd::prelude::*;

verus! {

/// A named order of time. Collections of different timelines cannot be read
/// together.
#[derive(Debug, PartialEq, Eq)]
pub enum Timeline {
    /// Milliseconds since the Unix epoch: the timeline of the system itself.
    EpochMilliseconds,
    /// A timeline that an outside system defines.
    External(String),
    /// A timeline that a user defines.
    User(String),
}

impl Clone for Timeline {
    fn clone(&self) -> (r: Self)
        ensures
            r == *self,
    {
        match self {
            Timeline::EpochMilliseconds => Timeline::EpochMilliseconds,
            Timeline::External(name) => Timeline::External(name.clone()),
            Timeline::User(name) => Timeline::User(name.clone()),
        }
    }
}

/// How the collections of a query relate to timelines.
#[derive(Debug, PartialEq, Eq)]
pub enum TimelineContext {
    /// The query reads collections of exactly this timeline.
    TimelineDependent(Timeline),
    /// The query depends on a time, but on no timeline of its own.
    TimestampDependent,
    /// The query's result is the same at every time.
    TimestampIndependent,
}

/// The isolation level of a transaction.
#[derive(Clone, Copy, Debug, PartialEq, Eq, Structural)]
pub enum IsolationLevel {
    Serializable,
    StrongSessionSerializable,
    StrictSerializable,
}

/// What the expression of an explicit time evaluated to, by its type.
#[derive(Debug, PartialEq, Eq)]
pub enum AsOfValue {
    /// The expression evaluated to null.
    Null,
    /// A time of the system's own type.
    MzTimestamp(u64),
    /// An integral numeric.
    Numeric(i128),
    Int16(i16),
    Int32(i32),
    Int64(i64),
    UInt16(u16),
    UInt32(u32),
    UInt64(u64),
    /// A timestamp with time zone, in milliseconds since the Unix epoch.
    TimestampTz(i64),
    /// A timestamp without time zone, in milliseconds since the Unix epoch.
    Timestamp(i64),
    /// A value of a type that cannot stand for a time, with the name of
    /// that type.
    Unsupported(String),
}

impl Clone for AsOfValue {
    fn clone(&self) -> (r: Self)
        ensures
            r == *self,
    {
        match self {
            AsOfValue::Null => AsOfValue::Null,
            AsOfValue::MzTimestamp(t) => AsOfValue::MzTimestamp(*t),
            AsOfValue::Numeric(v) => AsOfValue::Numeric(*v),
            AsOfValue::Int16(v) => AsOfValue::Int16(*v),
            AsOfValue::Int32(v) => AsOfValue::Int32(*v),
            AsOfValue::Int64(v) => AsOfValue::Int64(*v),
            AsOfValue::UInt16(v) => AsOfValue::UInt16(*v),
            AsOfValue::UInt32(v) => AsOfValue::UInt32(*v),
            AsOfValue::UInt64(v) => AsOfValue::UInt64(*v),
            AsOfValue::TimestampTz(v) => AsOfValue::TimestampTz(*v),
            AsOfValue::Timestamp(v) => AsOfValue::Timestamp(*v),
            AsOfValue::Unsupported(name) => AsOfValue::Unsupported(name.clone()),
        }
    }
}

/// The policy by which a query asks for its time: without a bound, after the
/// freshest table write, at exactly a time, or at a time or later.
#[derive(Debug, PartialEq, Eq)]
pub enum QueryWhen {
    /// No bound: the common case.
    Immediately,
    /// The read of a read-then-write: it must see every write before it.
    FreshestTableWrite,
    /// Exactly at this time.
    AtTimestamp(AsOfValue),
    /// At this time or later.
    AtLeastTimestamp(AsOfValue),
}

impl Clone for QueryWhen {
    fn clone(&self) -> (r: Self)
        ensures
            r == *self,
    {
        match self {
            QueryWhen::Immediately => QueryWhen::Immediately,
            QueryWhen::FreshestTableWrite => QueryWhen::FreshestTableWrite,
            QueryWhen::AtTimestamp(t) => QueryWhen::AtTimestamp(t.clone()),
            QueryWhen::AtLeastTimestamp(t) => QueryWhen::AtLeastTimestamp(t.clone()),
        }
    }
}

impl QueryWhen {
    /// The time that the policy names, if it names one.
    pub open spec fn spec_advance_to_timestamp(self) -> Option<AsOfValue> {
        match self {
            QueryWhen::AtTimestamp(t) => Some(t),
            QueryWhen::AtLeastTimestamp(t) => Some(t),
            _ => None,
        }
    }

    /// Whether the chosen time is raised to the collections' since.
    pub open spec fn spec_advance_to_since(&self) -> bool {
        !(self is AtTimestamp)
    }

    /// Whether the chosen time may be raised towards the collections' upper.
    pub open spec fn spec_can_advance_to_upper(&self) -> bool {
        self is Immediately
    }

    /// Whether the chosen time may be raised to the timeline's oracle time.
    pub open spec fn spec_can_advance_to_timeline_ts(&self) -> bool {
        self is Immediately || self is FreshestTableWrite
    }

    /// Whether the chosen time must be raised to the timeline's oracle time.
    pub open spec fn spec_must_advance_to_timeline_ts(&self) -> bool {
        self is FreshestTableWrite
    }

    /// The time that the policy names, if it names one.
    pub fn advance_to_timestamp(&self) -> (r: Option<&AsOfValue>)
        ensures
            match r {
                Some(value) => self.spec_advance_to_timestamp() == Some(*value),
                None => self.spec_advance_to_timestamp() is None,
            },
    {
        match self {
            QueryWhen::AtTimestamp(t) => Some(t),
            QueryWhen::AtLeastTimestamp(t) => Some(t),
            _ => None,
        }
    }

    /// Whether the chosen time is raised to the collections' since.
    #[verifier::when_used_as_spec(spec_advance_to_since)]
    pub fn advance_to_since(&self) -> (r: bool)
        ensures
            r == self.spec_advance_to_since(),
    {
        match self {
            QueryWhen::AtTimestamp(_) => false,
            _ => true,
        }
    }

    /// Whether the chosen time may be raised towards the collections' upper.
    #[verifier::when_used_as_spec(spec_can_advance_to_upper)]
    pub fn can_advance_to_upper(&self) -> (r: bool)
        ensures
            r == self.spec_can_advance_to_upper(),
    {
        match self {
            QueryWhen::Immediately => true,
            _ => false,
        }
    }

    /// Whether the chosen time may be raised to the timeline's oracle time.
    #[verifier::when_used_as_spec(spec_can_advance_to_timeline_ts)]
    pub fn can_advance_to_timeline_ts(&self) -> (r: bool)
        ensures
            r == self.spec_can_advance_to_timeline_ts(),
    {
        match self {
            QueryWhen::Immediately => true,
            QueryWhen::FreshestTableWrite => true,
            _ => false,
        }
    }

    /// Whether the chosen time must be raised to the timeline's oracle time.
    #[verifier::when_used_as_spec(spec_must_advance_to_timeline_ts)]
    pub fn must_advance_to_timeline_ts(&self) -> (r: bool)
        ensures
            r == self.spec_must_advance_to_timeline_ts(),
    {
        match self {
            QueryWhen::FreshestTableWrite => true,
            _ => false,
        }
    }
}

/// The timeline of a context: its own, the system's where it has none of its
/// own but depends on a time, and none where it depends on no time.
pub open spec fn timeline_of(context: TimelineContext) -> Option<Timeline> {
    match context {
        TimelineContext::TimelineDependent(timeline) => Some(timeline),
        TimelineContext::TimestampDependent => Some(Timeline::EpochMilliseconds),
        TimelineContext::TimestampIndependent => None,
    }
}

/// Whether a read must be linearized: there is a timeline, and the policy
/// demands the oracle's time, or permits it under an isolation level that is
/// strict or scoped to the session.
pub open spec fn needs_linearization(
    isolation_level: IsolationLevel,
    when: QueryWhen,
    context: TimelineContext,
) -> bool {
    &&& timeline_of(context) is Some
    &&& (when.spec_must_advance_to_timeline_ts() || (when.spec_can_advance_to_timeline_ts() && (
    isolation_level == IsolationLevel::StrictSerializable || isolation_level
        == IsolationLevel::StrongSessionSerializable)))
}

/// The timeline of a context.
pub fn get_timeline(timeline_context: &TimelineContext) -> (r: Option<Timeline>)
    ensures
        r == timeline_of(*timeline_context),
{
    match timeline_context {
        TimelineContext::TimelineDependent(timeline) => Some(timeline.clone()),
        TimelineContext::TimestampDependent => Some(Timeline::EpochMilliseconds),
        TimelineContext::TimestampIndependent => None,
    }
}

/// The timeline whose oracle gives the read its linearized time, if and only
/// if the read must be linearized.
pub fn get_linearized_timeline(
    isolation_level: IsolationLevel,
    when: &QueryWhen,
    timeline_context: &TimelineContext,
) -> (r: Option<Timeline>)
    ensures
        r == if needs_linearization(isolation_level, *when, *timeline_context) {
            timeline_of(*timeline_context)
        } else {
            None
        },
{
    let timeline = get_timeline(timeline_context);
    let strong = match isolation_level {
        IsolationLevel::Serializable => false,
        _ => true,
    };
    match timeline {
        Some(timeline) => {
            if when.must_advance_to_timeline_ts() || (when.can_advance_to_timeline_ts() && strong) {
                Some(timeline)
            } else {
                None
            }
        },
        None => None,
    }
}

} // verus!
