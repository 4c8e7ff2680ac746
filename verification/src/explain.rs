//! The explanation of a determination, as text.

use crate::timeline::Timeline;
use crate::ids::{CollectionIdBundle, ComputeInstanceId};
use crate::timestamp_selection::{
    invalid_inputs, is_invalid_input, listed_before, tracks, AdapterError, InvalidInput, TimestampContext,
    TimestampDetermination, TimestampProvider,
};
use vstd::prelude::*;
use vstd::string::StringExecFns;

verus! {

/// The digit that stands for a number below ten.
pub open spec fn digit(d: nat) -> char {
    if d == 0 {
        '0'
    } else if d == 1 {
        '1'
    } else if d == 2 {
        '2'
    } else if d == 3 {
        '3'
    } else if d == 4 {
        '4'
    } else if d == 5 {
        '5'
    } else if d == 6 {
        '6'
    } else if d == 7 {
        '7'
    } else if d == 8 {
        '8'
    } else {
        '9'
    }
}

/// The decimal digits of a number.
pub open spec fn decimal(n: nat) -> Seq<char>
    decreases n,
{
    if n < 10 {
        seq![digit(n)]
    } else {
        decimal(n / 10).push(digit(n % 10))
    }
}

/// The decimal digits of a number, after a minus sign where it is negative.
pub open spec fn signed_decimal(n: int) -> Seq<char> {
    if n < 0 {
        seq!['-'] + decimal((-n) as nat)
    } else {
        decimal(n as nat)
    }
}

/// A text after as many spaces as bring it to a width; as it is where it is
/// that wide already.
pub open spec fn right_aligned(text: Seq<char>, width: nat) -> Seq<char> {
    if text.len() >= width {
        text
    } else {
        Seq::new((width - text.len()) as nat, |i: int| ' ') + text
    }
}

/// The date and time of day, to the millisecond, that lies the given number
/// of milliseconds after the Unix epoch, as chrono writes it in the form
/// `%Y-%m-%d %H:%M:%S%.3f`; none where chrono has no such date.
pub uninterp spec fn civil_time(millis: i64) -> Option<Seq<char>>;

/// A text as `Debug` writes it: between double quotes, with what needs it
/// escaped.
pub uninterp spec fn quoted_text(text: Seq<char>) -> Seq<char>;

/// `format!("{:13}", ts)`: the decimal digits of the number, after spaces
/// where they are fewer than thirteen.
#[verifier::external_body]
fn padded_time(ts: u64) -> (r: String)
    ensures
        r@ == right_aligned(decimal(ts as nat), 13),
{
    format!("{:13}", ts)
}

/// `format!("{:13}", millis)`: the sign and the decimal digits of the number,
/// after spaces where they are fewer than thirteen characters.
#[verifier::external_body]
fn padded_millis(millis: i64) -> (r: String)
    ensures
        r@ == right_aligned(signed_decimal(millis as int), 13),
{
    format!("{:13}", millis)
}

/// `chrono::DateTime::from_timestamp_millis`, and for the time that it
/// gives, `NaiveDateTime::format` with `%Y-%m-%d %H:%M:%S%.3f`.
#[verifier::external_body]
fn civil_time_of(millis: i64) -> (r: Option<String>)
    ensures
        match r {
            Some(text) => civil_time(millis) == Some(text@),
            None => civil_time(millis) is None,
        },
{
    match chrono::DateTime::from_timestamp_millis(millis) {
        Some(time) => Some(time.naive_utc().format("%Y-%m-%d %H:%M:%S%.3f").to_string()),
        None => None,
    }
}

/// `format!("{:?}", text)`: the text as `Debug` writes it.
#[verifier::external_body]
fn quoted(text: &str) -> (r: String)
    ensures
        r@ == quoted_text(text@),
{
    format!("{:?}", text)
}

/// A time as it is shown in a timeline: right-aligned to thirteen places,
/// and in the timeline of the system followed by its date and time of day in
/// parentheses, where it has one.
pub open spec fn time_in_timeline(ts: u64, timeline: Option<Timeline>) -> Seq<char> {
    let number = right_aligned(decimal(ts as nat), 13);
    if timeline == Some(Timeline::EpochMilliseconds) && ts <= i64::MAX && civil_time(
        ts as i64,
    ) is Some {
        number + " ("@ + civil_time(ts as i64)->Some_0 + ")"@
    } else {
        number
    }
}

/// The times of a list as they are shown in a timeline, with a comma and a
/// space between them.
pub open spec fn times_joined(times: Seq<u64>, timeline: Option<Timeline>) -> Seq<char>
    decreases times.len(),
{
    if times.len() == 0 {
        Seq::empty()
    } else if times.len() == 1 {
        time_in_timeline(times[0], timeline)
    } else {
        times_joined(times.drop_last(), timeline) + ", "@ + time_in_timeline(
            times.last(),
            timeline,
        )
    }
}

/// A list of times as it is shown in a timeline: between square brackets.
pub open spec fn times_in_timeline(times: Seq<u64>, timeline: Option<Timeline>) -> Seq<char> {
    "["@ + times_joined(times, timeline) + "]"@
}

/// A timeline, or the lack of one, as `Debug` writes it.
pub open spec fn timeline_text(timeline: Option<Timeline>) -> Seq<char> {
    match timeline {
        None => "None"@,
        Some(Timeline::EpochMilliseconds) => "Some(EpochMilliseconds)"@,
        Some(Timeline::External(name)) => "Some(External("@ + quoted_text(name@) + "))"@,
        Some(Timeline::User(name)) => "Some(User("@ + quoted_text(name@) + "))"@,
    }
}

/// What can be shown in a timeline.
pub trait DisplayableInTimeline {
    /// The text that shows the value in a timeline.
    spec fn shown(&self, timeline: Option<Timeline>) -> Seq<char>;

    /// Writes the value as it is shown in a timeline.
    fn fmt(&self, timeline: Option<&Timeline>) -> (r: String)
        ensures
            r@ == self.shown(
                match timeline {
                    Some(t) => Some(*t),
                    None => None,
                },
            ),
    ;

    /// Pairs the value with the timeline in which it is shown.
    fn display<'a>(&'a self, timeline: Option<&'a Timeline>) -> (r: DisplayInTimeline<'a, Self>)
        where Self: Sized
        ensures
            r.t == self,
            r.timeline == timeline,
    {
        DisplayInTimeline { t: self, timeline }
    }
}

impl DisplayableInTimeline for u64 {
    open spec fn shown(&self, timeline: Option<Timeline>) -> Seq<char> {
        time_in_timeline(*self, timeline)
    }

    fn fmt(&self, timeline: Option<&Timeline>) -> (r: String) {
        let mut out = padded_time(*self);
        match timeline {
            Some(Timeline::EpochMilliseconds) => {
                if *self <= 9223372036854775807u64 {
                    match civil_time_of(*self as i64) {
                        Some(civil) => {
                            out.append(" (");
                            out.append(civil.as_str());
                            out.append(")");
                        },
                        None => {},
                    }
                }
            },
            _ => {},
        }
        out
    }
}

/// A value together with the timeline in which it is shown.
pub struct DisplayInTimeline<'a, T> {
    pub t: &'a T,
    pub timeline: Option<&'a Timeline>,
}

impl<'a, T: DisplayableInTimeline> DisplayInTimeline<'a, T> {
    /// The text that shows the value in the timeline.
    pub fn to_string(&self) -> (r: String)
        ensures
            r@ == self.t.shown(
                match self.timeline {
                    Some(t) => Some(*t),
                    None => None,
                },
            ),
    {
        self.t.fmt(self.timeline)
    }
}

/// Writes a list of times as it is shown in a timeline.
pub fn fmt_times(times: &Vec<u64>, timeline: Option<&Timeline>) -> (r: String)
    ensures
        r@ == times_in_timeline(
            times@,
            match timeline {
                Some(t) => Some(*t),
                None => None,
            },
        ),
{
    let ghost tl = match timeline {
        Some(t) => Some(*t),
        None => None,
    };
    let mut out = "[".to_owned();
    let mut i: usize = 0;
    while i < times.len()
        invariant
            i <= times.len(),
            tl == (match timeline {
                Some(t) => Some(*t),
                None => None,
            }),
            out@ == "["@ + times_joined(times@.take(i as int), tl),
        decreases times.len() - i,
    {
        let ghost before = times@.take(i as int);
        let ghost next = times@.take(i + 1);
        proof {
            assert(next.drop_last() =~= before);
            assert(next.last() == times@[i as int]);
        }
        if i > 0 {
            out.append(", ");
        }
        let shown = times[i].fmt(timeline);
        out.append(shown.as_str());
        proof {
            if i == 0 {
                assert(before =~= Seq::<u64>::empty());
                assert(times_joined(before, tl) =~= Seq::<char>::empty());
                assert(out@ =~= "["@ + times_joined(next, tl));
            } else {
                assert(out@ =~= "["@ + (times_joined(before, tl) + ", "@ + time_in_timeline(
                    times@[i as int],
                    tl,
                )));
            }
        }
        i += 1;
    }
    proof {
        assert(times@.take(i as int) =~= times@);
    }
    out.append("]");
    out
}

/// Writes a timeline, or the lack of one, as `Debug` writes it.
pub fn fmt_timeline(timeline: Option<&Timeline>) -> (r: String)
    ensures
        r@ == timeline_text(
            match timeline {
                Some(t) => Some(*t),
                None => None,
            },
        ),
{
    match timeline {
        None => "None".to_owned(),
        Some(Timeline::EpochMilliseconds) => "Some(EpochMilliseconds)".to_owned(),
        Some(Timeline::External(name)) => {
            let mut out = "Some(External(".to_owned();
            out.append(quoted(name.as_str()).as_str());
            out.append("))");
            out
        },
        Some(Timeline::User(name)) => {
            let mut out = "Some(User(".to_owned();
            out.append(quoted(name.as_str()).as_str());
            out.append("))");
            out
        },
    }
}

/// What is known of one source of a query.
#[derive(Debug, PartialEq, Eq)]
pub struct TimestampSource {
    pub name: String,
    pub read_frontier: Vec<u64>,
    pub write_frontier: Vec<u64>,
}

/// Why a query reads at the time at which it reads.
pub struct TimestampExplanation {
    /// The determination.
    pub determination: TimestampDetermination,
    /// What is known of each source.
    pub sources: Vec<TimestampSource>,
    /// The wall time of the first statement of the transaction, in
    /// milliseconds since the Unix epoch.
    pub session_wall_time: i64,
    /// Whether the answer can be given at once.
    pub respond_immediately: bool,
}

/// The times of a frontier: none or one.
pub open spec fn frontier_times(f: Option<u64>) -> Seq<u64> {
    match f {
        Some(t) => seq![t],
        None => Seq::empty(),
    }
}

/// The timeline of a context, if it has one.
pub open spec fn timeline_in(context: TimestampContext) -> Option<Timeline> {
    match context {
        TimestampContext::TimelineTimestamp { timeline, .. } => Some(timeline),
        TimestampContext::NoTimestamp => None,
    }
}

/// A line: a label, a text, and the end of the line.
pub open spec fn line(label: Seq<char>, text: Seq<char>) -> Seq<char> {
    label + text + "\n"@
}

/// A line that shows a time, where there is one.
pub open spec fn optional_line(label: Seq<char>, ts: Option<u64>, timeline: Option<Timeline>)
    -> Seq<char> {
    match ts {
        Some(t) => line(label, time_in_timeline(t, timeline)),
        None => Seq::empty(),
    }
}

/// The wall time as it is shown: the number of milliseconds, right-aligned
/// to thirteen places, and its date and time of day in parentheses, where it
/// has one.
pub open spec fn wall_time_text(millis: i64) -> Seq<char> {
    let number = right_aligned(signed_decimal(millis as int), 13);
    match civil_time(millis) {
        Some(civil) => number + " ("@ + civil + ")"@,
        None => number,
    }
}

/// The lines that show one source.
pub open spec fn source_text(source: TimestampSource, timeline: Option<Timeline>) -> Seq<char> {
    line("\nsource "@, source.name@ + ":"@) + line(
        "                  read frontier:"@,
        times_in_timeline(source.read_frontier@, timeline),
    ) + line(
        "                 write frontier:"@,
        times_in_timeline(source.write_frontier@, timeline),
    )
}

/// The lines that show the sources of a list, one source after the other.
pub open spec fn sources_text(sources: Seq<TimestampSource>, timeline: Option<Timeline>) -> Seq<
    char,
>
    decreases sources.len(),
{
    if sources.len() == 0 {
        Seq::empty()
    } else {
        sources_text(sources.drop_last(), timeline) + source_text(sources.last(), timeline)
    }
}

/// The text of `true` and of `false`.
pub open spec fn bool_text(b: bool) -> Seq<char> {
    if b {
        "true"@
    } else {
        "false"@
    }
}

/// The lines that show the times of the determination.
pub open spec fn times_text(e: TimestampExplanation) -> Seq<char> {
    let det = e.determination;
    let timeline = timeline_in(det.timestamp_context);
    line(
        "                query timestamp: "@,
        time_in_timeline(det.timestamp_context.spec_timestamp_or_default(), timeline),
    ) + optional_line("          oracle read timestamp: "@, det.oracle_read_ts, timeline)
        + optional_line(
        "  session oracle read timestamp: "@,
        det.session_oracle_read_ts,
        timeline,
    ) + line(
        "largest not in advance of upper: "@,
        time_in_timeline(det.largest_not_in_advance_of_upper, timeline),
    )
}

/// The lines that show the frontiers of the determination and what goes
/// with them.
pub open spec fn frontiers_text(e: TimestampExplanation) -> Seq<char> {
    let det = e.determination;
    let timeline = timeline_in(det.timestamp_context);
    line(
        "                          upper:"@,
        times_in_timeline(frontier_times(det.upper@), timeline),
    ) + line(
        "                          since:"@,
        times_in_timeline(frontier_times(det.since@), timeline),
    ) + line("        can respond immediately: "@, bool_text(e.respond_immediately)) + line(
        "                       timeline: "@,
        timeline_text(timeline),
    ) + line("              session wall time: "@, wall_time_text(e.session_wall_time))
}

/// The text of an explanation: the lines of the determination, and the
/// lines of each source.
pub open spec fn explanation_text(e: TimestampExplanation) -> Seq<char> {
    times_text(e) + frontiers_text(e) + sources_text(
        e.sources@,
        timeline_in(e.determination.timestamp_context),
    )
}

/// Adds a line to a text.
fn append_line(out: &mut String, label: &str, text: &str)
    ensures
        final(out)@ == old(out)@ + line(label@, text@),
{
    out.append(label);
    out.append(text);
    out.append("\n");
    proof {
        assert(out@ =~= old(out)@ + line(label@, text@));
    }
}

/// Writes the wall time as it is shown.
fn fmt_wall_time(millis: i64) -> (r: String)
    ensures
        r@ == wall_time_text(millis),
{
    let mut out = padded_millis(millis);
    match civil_time_of(millis) {
        Some(civil) => {
            out.append(" (");
            out.append(civil.as_str());
            out.append(")");
        },
        None => {},
    }
    out
}

/// Writes the lines that show one source.
fn fmt_source(source: &TimestampSource, timeline: Option<&Timeline>) -> (r: String)
    ensures
        r@ == source_text(
            *source,
            match timeline {
                Some(t) => Some(*t),
                None => None,
            },
        ),
{
    let mut name = source.name.clone();
    name.append(":");
    let mut out = String::new();
    append_line(&mut out, "\nsource ", name.as_str());
    append_line(
        &mut out,
        "                  read frontier:",
        fmt_times(&source.read_frontier, timeline).as_str(),
    );
    append_line(
        &mut out,
        "                 write frontier:",
        fmt_times(&source.write_frontier, timeline).as_str(),
    );
    proof {
        assert(out@ =~= source_text(
            *source,
            match timeline {
                Some(t) => Some(*t),
                None => None,
            },
        ));
    }
    out
}

impl TimestampExplanation {
    /// Writes the lines that show the times of the determination.
    fn fmt_times_text(&self) -> (r: String)
        ensures
            r@ == times_text(*self),
    {
        let det = &self.determination;
        let timeline = det.timestamp_context.timeline();
        let mut out = String::new();
        append_line(
            &mut out,
            "                query timestamp: ",
            det.timestamp_context.timestamp_or_default().fmt(timeline).as_str(),
        );
        match det.oracle_read_ts {
            Some(ts) => {
                append_line(
                    &mut out,
                    "          oracle read timestamp: ",
                    ts.fmt(timeline).as_str(),
                );
            },
            None => {},
        }
        match det.session_oracle_read_ts {
            Some(ts) => {
                append_line(
                    &mut out,
                    "  session oracle read timestamp: ",
                    ts.fmt(timeline).as_str(),
                );
            },
            None => {},
        }
        append_line(
            &mut out,
            "largest not in advance of upper: ",
            det.largest_not_in_advance_of_upper.fmt(timeline).as_str(),
        );
        proof {
            assert(out@ =~= times_text(*self));
        }
        out
    }

    /// Writes the lines that show the frontiers of the determination and
    /// what goes with them.
    fn fmt_frontiers_text(&self) -> (r: String)
        ensures
            r@ == frontiers_text(*self),
    {
        let det = &self.determination;
        let timeline = det.timestamp_context.timeline();
        let mut out = String::new();
        append_line(
            &mut out,
            "                          upper:",
            fmt_times(&det.upper.elements(), timeline).as_str(),
        );
        append_line(
            &mut out,
            "                          since:",
            fmt_times(&det.since.elements(), timeline).as_str(),
        );
        let answer = if self.respond_immediately {
            "true"
        } else {
            "false"
        };
        append_line(&mut out, "        can respond immediately: ", answer);
        append_line(
            &mut out,
            "                       timeline: ",
            fmt_timeline(timeline).as_str(),
        );
        append_line(
            &mut out,
            "              session wall time: ",
            fmt_wall_time(self.session_wall_time).as_str(),
        );
        proof {
            assert(out@ =~= frontiers_text(*self));
        }
        out
    }

    /// Writes the explanation.
    pub fn to_string(&self) -> (r: String)
        ensures
            r@ == explanation_text(*self),
    {
        let timeline = self.determination.timestamp_context.timeline();
        let ghost tl = timeline_in(self.determination.timestamp_context);
        let mut out = self.fmt_times_text();
        out.append(self.fmt_frontiers_text().as_str());
        let mut i: usize = 0;
        proof {
            assert(self.sources@.take(0) =~= Seq::<TimestampSource>::empty());
            assert(out@ =~= times_text(*self) + frontiers_text(*self) + sources_text(
                self.sources@.take(0),
                tl,
            ));
        }
        while i < self.sources.len()
            invariant
                i <= self.sources.len(),
                tl == timeline_in(self.determination.timestamp_context),
                tl == (match timeline {
                    Some(t) => Some(*t),
                    None => None,
                }),
                out@ == times_text(*self) + frontiers_text(*self) + sources_text(
                    self.sources@.take(i as int),
                    tl,
                ),
            decreases self.sources.len() - i,
        {
            let ghost before = out@;
            proof {
                assert(self.sources@.take(i + 1).drop_last() =~= self.sources@.take(i as int));
                assert(self.sources@.take(i + 1).last() == self.sources@[i as int]);
            }
            out.append(fmt_source(&self.sources[i], timeline).as_str());
            proof {
                assert(out@ =~= times_text(*self) + frontiers_text(*self) + sources_text(
                    self.sources@.take(i + 1),
                    tl,
                ));
            }
            i += 1;
        }
        proof {
            assert(self.sources@.take(i as int) =~= self.sources@);
        }
        out
    }
}

/// `format!("{}", n)`: the decimal digits of the number.
#[verifier::external_body]
fn decimal_of(n: u64) -> (r: String)
    ensures
        r@ == decimal(n as nat),
{
    format!("{}", n)
}

/// How a collection that does not permit a time is named: a storage
/// collection by its id, a compute collection by its instance and its id,
/// each with the times of its since.
pub open spec fn invalid_input_text(x: InvalidInput) -> Seq<char> {
    (match x.instance {
        Some(instance) => decimal(instance as nat) + "/"@ + decimal(x.id as nat),
        None => decimal(x.id as nat),
    }) + ": ["@ + (match x.since {
        Some(t) => decimal(t as nat),
        None => Seq::empty(),
    }) + "]"@
}

/// The names of the collections of a list, with a comma and a space between
/// them.
pub open spec fn invalid_inputs_text(invalid: Seq<InvalidInput>) -> Seq<char>
    decreases invalid.len(),
{
    if invalid.len() == 0 {
        Seq::empty()
    } else if invalid.len() == 1 {
        invalid_input_text(invalid[0])
    } else {
        invalid_inputs_text(invalid.drop_last()) + ", "@ + invalid_input_text(invalid.last())
    }
}

/// The message that says that a time is not valid, and for which
/// collections.
pub open spec fn not_valid_text(candidate: u64, invalid: Seq<InvalidInput>) -> Seq<char> {
    "Timestamp ("@ + decimal(candidate as nat) + ") is not valid for all inputs: ["@
        + invalid_inputs_text(invalid) + "]"@
}

/// The message of an error.
pub open spec fn error_text(e: AdapterError) -> Seq<char> {
    match e {
        AdapterError::NullTimestamp => {
            "can't use NULL as a mz_timestamp for AS OF or UP TO"@
        },
        AdapterError::UnsupportedTimestampType(name) => {
            "can't use "@ + name@ + " as a mz_timestamp for AS OF or UP TO"@
        },
        AdapterError::TimestampOutOfRange => "out of range integral type conversion attempted"@,
        AdapterError::TimestampNotValid { candidate, invalid } => not_valid_text(
            candidate,
            invalid@,
        ),
    }
}

/// Writes how a collection that does not permit a time is named.
fn fmt_invalid_input(x: &InvalidInput) -> (r: String)
    ensures
        r@ == invalid_input_text(*x),
{
    let mut out = String::new();
    match x.instance {
        Some(instance) => {
            out.append(decimal_of(instance).as_str());
            out.append("/");
        },
        None => {},
    }
    out.append(decimal_of(x.id).as_str());
    out.append(": [");
    match x.since {
        Some(t) => {
            out.append(decimal_of(t).as_str());
        },
        None => {},
    }
    out.append("]");
    proof {
        assert(out@ =~= invalid_input_text(*x));
    }
    out
}

/// Writes the message that says that a time is not valid, and for which
/// collections.
pub fn fmt_not_valid(candidate: u64, invalid: &Vec<InvalidInput>) -> (r: String)
    ensures
        r@ == not_valid_text(candidate, invalid@),
{
    let mut out = "Timestamp (".to_owned();
    out.append(decimal_of(candidate).as_str());
    out.append(") is not valid for all inputs: [");
    let ghost head = out@;
    let mut i: usize = 0;
    proof {
        assert(invalid@.take(0) =~= Seq::<InvalidInput>::empty());
        assert(out@ =~= head + invalid_inputs_text(invalid@.take(0)));
    }
    while i < invalid.len()
        invariant
            i <= invalid.len(),
            head == "Timestamp ("@ + decimal(candidate as nat)
                + ") is not valid for all inputs: ["@,
            out@ == head + invalid_inputs_text(invalid@.take(i as int)),
        decreases invalid.len() - i,
    {
        let ghost before = invalid@.take(i as int);
        let ghost next = invalid@.take(i + 1);
        proof {
            assert(next.drop_last() =~= before);
            assert(next.last() == invalid@[i as int]);
        }
        if i > 0 {
            out.append(", ");
        }
        out.append(fmt_invalid_input(&invalid[i]).as_str());
        proof {
            if i == 0 {
                assert(invalid_inputs_text(before) =~= Seq::<char>::empty());
                assert(out@ =~= head + invalid_inputs_text(next));
            } else {
                assert(out@ =~= head + (invalid_inputs_text(before) + ", "@ + invalid_input_text(
                    invalid@[i as int],
                )));
            }
        }
        i += 1;
    }
    proof {
        assert(invalid@.take(i as int) =~= invalid@);
    }
    out.append("]");
    out
}

/// Writes the message of an error.
pub fn error_message(e: &AdapterError) -> (r: String)
    ensures
        r@ == error_text(*e),
{
    match e {
        AdapterError::NullTimestamp => {
            "can't use NULL as a mz_timestamp for AS OF or UP TO".to_owned()
        },
        AdapterError::UnsupportedTimestampType(name) => {
            let mut out = "can't use ".to_owned();
            out.append(name.as_str());
            out.append(" as a mz_timestamp for AS OF or UP TO");
            out
        },
        AdapterError::TimestampOutOfRange => {
            "out of range integral type conversion attempted".to_owned()
        },
        AdapterError::TimestampNotValid { candidate, invalid } => fmt_not_valid(
            *candidate,
            invalid,
        ),
    }
}

/// The message that says that `candidate` is not valid for the collections
/// of the bundle, and names those whose sinces do not permit it, each once:
/// the collections of every compute instance, not only of the one that the
/// query runs on, and those of storage.
pub fn generate_timestamp_not_valid_error_msg<P: TimestampProvider>(
    provider: &P,
    id_bundle: &CollectionIdBundle,
    compute_instance: ComputeInstanceId,
    candidate: u64,
) -> (r: String)
    requires
        tracks(provider, id_bundle),
    ensures
        exists|invalid: Seq<InvalidInput>|
            {
                &&& r@ == not_valid_text(candidate, invalid)
                &&& invalid.no_duplicates()
                &&& forall|a: int, b: int|
                    0 <= a < b < invalid.len() ==> listed_before(invalid[a], invalid[b])
                &&& forall|x: InvalidInput|
                    invalid.contains(x) <==> is_invalid_input(
                        provider,
                        id_bundle,
                        candidate,
                        x,
                    )
            },
{
    let invalid = invalid_inputs(provider, id_bundle, candidate);
    let r = fmt_not_valid(candidate, &invalid);
    proof {
        let witness = invalid@;
        assert(r@ == not_valid_text(candidate, witness));
        assert(witness.no_duplicates());
    }
    r
}

} // verus!
