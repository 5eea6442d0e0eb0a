//! Summary assembler and the query pipeline: buckets and the name table
//! become the usage records handed to the caller.

use vstd::prelude::*;
use crate::aggregate::{
    GBucket, TimeBucket, chronological, generate_usage_statistics, is_chronological,
    spec_aggregate,
};
use crate::codec::ParseError;
use crate::collect::{collect_events, in_range_fn, spec_collect_from, spec_filter_range};
use crate::events::GFocusChangeEvent;
use crate::parse::spec_parse_content;
use crate::resolver::{AppsMap, spec_lookup, spec_parse_pairs};
use crate::text::spec_split_lines;
use crate::time::{TimeRange, MAX_TIMESTAMP_SECS};

verus! {

/// Width of one aggregation window: an hour of seconds.
pub const HOUR_SECS: i64 = 3600;

/// Why a query failed: corrupt machine-written data, or an event stream
/// that is not in time order (the store is defined to be chronological, so
/// disorder means corruption too).
#[derive(Clone, Copy, PartialEq, Eq, Structural, Debug)]
pub enum Error {
    Parse(ParseError),
    UnorderedData,
}

/// One reported unit of use: an application, a window, whole minutes.
#[derive(Debug, PartialEq, Eq)]
pub struct UsageRecord {
    pub time_window: TimeRange,
    pub application_display_name: String,
    pub duration_minutes: u64,
}

/// Spec-level image of a usage record.
pub ghost struct GUsageRecord {
    pub start: int,
    pub end: int,
    pub name: Seq<char>,
    pub minutes: int,
}

impl View for UsageRecord {
    type V = GUsageRecord;

    open spec fn view(&self) -> GUsageRecord {
        GUsageRecord {
            start: self.time_window.start.secs as int,
            end: self.time_window.end.secs as int,
            name: self.application_display_name@,
            minutes: self.duration_minutes as int,
        }
    }
}

impl DeepView for UsageRecord {
    type V = GUsageRecord;

    open spec fn deep_view(&self) -> GUsageRecord {
        self.view()
    }
}

/// The display name for a package id: the table's entry, or the raw id
/// itself when the table has none.
pub open spec fn spec_resolve(table: Seq<(Seq<char>, Seq<char>)>, app: Seq<char>) -> Seq<char> {
    match spec_lookup(table, app) {
        Some(name) => name,
        None => app,
    }
}

/// The records of one bucket, from entry `t` on: one per application with a
/// positive accumulated duration, its seconds rounded down to minutes.
pub open spec fn spec_records_of_bucket(
    b: GBucket,
    table: Seq<(Seq<char>, Seq<char>)>,
    t: int,
) -> Seq<GUsageRecord>
    decreases b.totals.len() - t,
{
    if !(0 <= t < b.totals.len()) {
        Seq::empty()
    } else {
        let rest = spec_records_of_bucket(b, table, t + 1);
        if b.totals[t].1 > 0 {
            seq![
                GUsageRecord {
                    start: b.start,
                    end: b.end,
                    name: spec_resolve(table, b.totals[t].0),
                    minutes: b.totals[t].1 / 60,
                },
            ] + rest
        } else {
            rest
        }
    }
}

/// The records of all buckets from `k` on, grouped by bucket.
pub open spec fn spec_assemble(
    buckets: Seq<GBucket>,
    table: Seq<(Seq<char>, Seq<char>)>,
    k: int,
) -> Seq<GUsageRecord>
    decreases buckets.len() - k,
{
    if !(0 <= k < buckets.len()) {
        Seq::empty()
    } else {
        spec_records_of_bucket(buckets[k], table, 0) + spec_assemble(buckets, table, k + 1)
    }
}

/// Emits one record per (bucket, application) pair with a positive
/// duration, resolving names through the table with the raw id as fallback.
pub fn assemble(buckets: &Vec<TimeBucket>, apps: &AppsMap) -> (r: Vec<UsageRecord>)
    ensures
        r.deep_view() == spec_assemble(buckets.deep_view(), apps@, 0),
{
    let ghost all = buckets.deep_view();
    let ghost table = apps@;
    let mut out: Vec<UsageRecord> = Vec::new();
    let mut k: usize = 0;
    proof {
        assert(out.deep_view() =~= Seq::<GUsageRecord>::empty());
        assert(out.deep_view() + spec_assemble(all, table, 0) =~= spec_assemble(all, table, 0));
    }
    while k < buckets.len()
        invariant
            k <= buckets.len(),
            all == buckets.deep_view(),
            table == apps@,
            spec_assemble(all, table, 0) == out.deep_view() + spec_assemble(all, table, k as int),
        decreases buckets.len() - k,
    {
        let ghost gb = all[k as int];
        proof {
            assert(gb == buckets@[k as int]@);
        }
        let mut t: usize = 0;
        while t < buckets[k].totals.len()
            invariant
                k < buckets.len(),
                t <= buckets[k as int].totals@.len(),
                all == buckets.deep_view(),
                table == apps@,
                gb == all[k as int],
                gb == buckets@[k as int]@,
                spec_assemble(all, table, 0) == out.deep_view() + spec_records_of_bucket(
                    gb,
                    table,
                    t as int,
                ) + spec_assemble(all, table, k as int + 1),
            decreases buckets[k as int].totals@.len() - t,
        {
            let ghost pre = out.deep_view();
            let dur = buckets[k].totals[t].1;
            proof {
                assert(gb.totals[t as int] == (
                    buckets@[k as int].totals@[t as int].0@,
                    buckets@[k as int].totals@[t as int].1 as int,
                ));
            }
            if dur > 0 {
                let app_id: &String = &buckets[k].totals[t].0;
                let name = match apps.get_app_name(app_id.as_str()) {
                    Some(v) => v.clone(),
                    None => app_id.clone(),
                };
                proof {
                    assert(name@ == spec_resolve(table, gb.totals[t as int].0));
                }
                let record = UsageRecord {
                    time_window: buckets[k].window,
                    application_display_name: name,
                    duration_minutes: dur / 60,
                };
                let ghost grec = record@;
                out.push(record);
                proof {
                    assert(out.deep_view() =~= pre + seq![grec]);
                    assert(grec == GUsageRecord {
                        start: gb.start,
                        end: gb.end,
                        name: spec_resolve(table, gb.totals[t as int].0),
                        minutes: gb.totals[t as int].1 / 60,
                    });
                    assert((pre + seq![grec]) + (spec_records_of_bucket(gb, table, t as int + 1)
                        + spec_assemble(all, table, k as int + 1)) =~= pre + ((seq![grec]
                        + spec_records_of_bucket(gb, table, t as int + 1)) + spec_assemble(
                        all,
                        table,
                        k as int + 1,
                    )));
                    assert(pre + (spec_records_of_bucket(gb, table, t as int) + spec_assemble(
                        all,
                        table,
                        k as int + 1,
                    )) =~= pre + spec_records_of_bucket(gb, table, t as int) + spec_assemble(
                        all,
                        table,
                        k as int + 1,
                    ));
                }
            }
            t += 1;
        }
        proof {
            assert(spec_records_of_bucket(gb, table, buckets@[k as int].totals@.len() as int)
                =~= Seq::<GUsageRecord>::empty());
            assert(out.deep_view() + Seq::<GUsageRecord>::empty() + spec_assemble(
                all,
                table,
                k as int + 1,
            ) =~= out.deep_view() + spec_assemble(all, table, k as int + 1));
        }
        k += 1;
    }
    proof {
        assert(spec_assemble(all, table, buckets@.len() as int) =~= Seq::<GUsageRecord>::empty());
        assert(out.deep_view() + Seq::<GUsageRecord>::empty() =~= out.deep_view());
    }
    out
}

/// The record carries the window of one of the buckets from `k` on.
pub open spec fn record_has_bucket_window(r: GUsageRecord, buckets: Seq<GBucket>, k: int) -> bool {
    exists|b: int|
        k <= b < buckets.len() && r.start == (#[trigger] buckets[b]).start && r.end == buckets[
            b
        ].end
}

proof fn lemma_bucket_record_windows(b: GBucket, table: Seq<(Seq<char>, Seq<char>)>, t: int)
    ensures
        forall|u: int|
            0 <= u < spec_records_of_bucket(b, table, t).len() ==> (
            #[trigger] spec_records_of_bucket(b, table, t)[u]).start == b.start
                && spec_records_of_bucket(b, table, t)[u].end == b.end,
    decreases b.totals.len() - t,
{
    if 0 <= t < b.totals.len() {
        lemma_bucket_record_windows(b, table, t + 1);
        let cur = spec_records_of_bucket(b, table, t);
        let rest = spec_records_of_bucket(b, table, t + 1);
        assert forall|u: int| 0 <= u < cur.len() implies (#[trigger] cur[u]).start == b.start
            && cur[u].end == b.end by {
            if b.totals[t].1 > 0 {
                if u > 0 {
                    assert(cur[u] == rest[u - 1]);
                }
            } else {
                assert(cur[u] == rest[u]);
            }
        }
    }
}

/// Law: every assembled record carries the window of one of the buckets it
/// was assembled from; with the windows the aggregator builds, each record's
/// window therefore lies inside the covered span and no two distinct
/// windows overlap.
pub proof fn lemma_record_windows(
    buckets: Seq<GBucket>,
    table: Seq<(Seq<char>, Seq<char>)>,
    k: int,
)
    requires
        0 <= k,
    ensures
        forall|t: int|
            0 <= t < spec_assemble(buckets, table, k).len() ==> record_has_bucket_window(
                #[trigger] spec_assemble(buckets, table, k)[t],
                buckets,
                k,
            ),
    decreases buckets.len() - k,
{
    if 0 <= k < buckets.len() {
        lemma_record_windows(buckets, table, k + 1);
        lemma_bucket_record_windows(buckets[k], table, 0);
        let head = spec_records_of_bucket(buckets[k], table, 0);
        let rest = spec_assemble(buckets, table, k + 1);
        assert forall|t: int|
            0 <= t < spec_assemble(buckets, table, k).len() implies record_has_bucket_window(
            #[trigger] spec_assemble(buckets, table, k)[t],
            buckets,
            k,
        ) by {
            if t < head.len() {
                assert(spec_assemble(buckets, table, k)[t] == head[t]);
                assert(head[t].start == buckets[k].start && head[t].end == buckets[k].end);
            } else {
                assert(spec_assemble(buckets, table, k)[t] == rest[t - head.len()]);
                assert(record_has_bucket_window(rest[t - head.len()], buckets, k + 1));
                let w = choose|b: int|
                    k + 1 <= b < buckets.len() && rest[t - head.len()].start == (
                    #[trigger] buckets[b]).start && rest[t - head.len()].end == buckets[b].end;
                assert(k <= w < buckets.len() && spec_assemble(buckets, table, k)[t].start
                    == buckets[w].start && spec_assemble(buckets, table, k)[t].end == buckets[
                    w
                ].end);
            }
        }
    }
}

/// Every event a collection run yields lies inside the range.
pub proof fn lemma_collected_in_range(
    contents: Seq<Seq<char>>,
    range: TimeRange,
    k: int,
    evts: Seq<GFocusChangeEvent>,
)
    requires
        spec_collect_from(contents, range, k) == Ok::<Seq<GFocusChangeEvent>, ParseError>(evts),
    ensures
        forall|t: int| 0 <= t < evts.len() ==> range.spec_includes((#[trigger] evts[t]).time),
    decreases contents.len() - k,
{
    broadcast use vstd::seq_lib::group_filter_ensures;

    if !(0 <= k < contents.len()) {
    } else {
        match spec_parse_content(contents[k]) {
            Err(_) => {},
            Ok(parsed) => {
                match spec_collect_from(contents, range, k + 1) {
                    Err(_) => {},
                    Ok(rest) => {
                        lemma_collected_in_range(contents, range, k + 1, rest);
                        let filtered = spec_filter_range(parsed, range);
                        assert forall|t: int| 0 <= t < evts.len() implies range.spec_includes(
                            (#[trigger] evts[t]).time,
                        ) by {
                            if t < filtered.len() {
                                assert(evts[t] == filtered[t]);
                                assert(in_range_fn(range)(filtered[t]));
                            } else {
                                assert(evts[t] == rest[t - filtered.len()]);
                            }
                        }
                    },
                }
            },
        }
    }
}

/// What a whole query yields from the lookup table, the selected files'
/// contents and the range: the assembled records, or the error that aborted
/// the query.
pub open spec fn spec_get_events(
    table: Seq<(Seq<char>, Seq<char>)>,
    contents: Seq<Seq<char>>,
    range: TimeRange,
) -> Result<Seq<GUsageRecord>, Error> {
    match spec_collect_from(contents, range, 0) {
        Err(e) => Err(Error::Parse(e)),
        Ok(events) => if !chronological(events) {
            Err(Error::UnorderedData)
        } else {
            Ok(
                spec_assemble(
                    spec_aggregate(events, range.start.secs as int, HOUR_SECS as int),
                    table,
                    0,
                ),
            )
        },
    }
}

/// Law: a query is a pure function of the lookup table, the file contents
/// and the range — two runs over unchanged inputs yield identical results.
pub proof fn lemma_get_events_idempotent(
    table: Seq<(Seq<char>, Seq<char>)>,
    contents: Seq<Seq<char>>,
    range: TimeRange,
    r1: Result<Seq<GUsageRecord>, Error>,
    r2: Result<Seq<GUsageRecord>, Error>,
)
    requires
        r1 == spec_get_events(table, contents, range),
        r2 == spec_get_events(table, contents, range),
    ensures
        r1 == r2,
{
}

/// The analytical component: holds the name table, answers queries.
pub struct Plugin {
    pub apps: AppsMap,
}

impl Plugin {
    /// Builds the component from the lookup file's content.
    pub fn new(apps_content: &str) -> (r: Plugin)
        ensures
            r.apps@ == spec_parse_pairs(spec_split_lines(apps_content@)),
    {
        Plugin { apps: AppsMap::new(apps_content) }
    }

    /// Answers one query: the given file contents, in chronological file
    /// order, become hour-bucketed usage records clipped to the range.
    pub fn get_events(&self, contents: &Vec<String>, range: &TimeRange) -> (r: Result<
        Vec<UsageRecord>,
        Error,
    >)
        requires
            range.wf(),
            range.start.representable(),
            range.end.representable(),
        ensures
            (match r {
                Ok(v) => spec_get_events(self.apps@, contents.deep_view(), *range) == Ok::<
                    _,
                    Error,
                >(v.deep_view()),
                Err(e) => spec_get_events(self.apps@, contents.deep_view(), *range) == Err::<
                    Seq<GUsageRecord>,
                    Error,
                >(e),
            }),
    {
        let events = match collect_events(contents, range) {
            Ok(v) => v,
            Err(e) => {
                return Err(Error::Parse(e));
            },
        };
        if !is_chronological(&events) {
            return Err(Error::UnorderedData);
        }
        proof {
            lemma_collected_in_range(contents.deep_view(), *range, 0, events.deep_view());
            assert forall|j: int| 0 <= j < events.deep_view().len() implies (
            #[trigger] events.deep_view()[j]).time.secs + HOUR_SECS <= i64::MAX by {
                assert(range.spec_includes(events.deep_view()[j].time));
                assert(events.deep_view()[j].time.secs <= MAX_TIMESTAMP_SECS);
            }
        }
        let buckets = generate_usage_statistics(&events, range.start, HOUR_SECS);
        let records = assemble(&buckets, &self.apps);
        Ok(records)
    }
}

} // verus!
