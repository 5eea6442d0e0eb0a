//! Bucketed aggregator: a chronological event stream becomes fixed-width
//! time buckets holding accumulated per-application focus durations.
//!
//! One forward pass. An application's use lasts until the next recorded
//! event; the final in-progress use has no next event and is dropped. An
//! event at or past the current window's end closes the bucket and opens the
//! next one (one window step per event, the stream being denser than the
//! window width); such an event contributes no duration itself. An interval
//! is never split: its whole duration lands in the bucket that was open when
//! it started.

use vstd::prelude::*;
use vstd::arithmetic::mul::lemma_mul_inequality;
use crate::events::{FocusChange, FocusChangeEvent, GFocusChange, GFocusChangeEvent};
use crate::time::{Timestamp, TimeRange};

verus! {

/// The stream is chronological: each event is no earlier than the one
/// before it.
pub open spec fn chronological(events: Seq<GFocusChangeEvent>) -> bool {
    forall|i: int| 0 <= i < events.len() - 1 ==> (#[trigger] events[i]).time.secs <= events[
        i + 1
    ].time.secs
}

/// In a chronological stream, any earlier event is no later than any later
/// one.
pub proof fn lemma_chronological_pairwise(events: Seq<GFocusChangeEvent>, i: int, j: int)
    requires
        chronological(events),
        0 <= i <= j < events.len(),
    ensures
        events[i].time.secs <= events[j].time.secs,
    decreases j - i,
{
    if i < j {
        lemma_chronological_pairwise(events, i + 1, j);
    }
}

/// Tests that the stream is chronological.
pub fn is_chronological(events: &Vec<FocusChangeEvent>) -> (r: bool)
    ensures
        r == chronological(events.deep_view()),
{
    let ghost all = events.deep_view();
    let n = events.len();
    if n == 0 {
        return true;
    }
    let mut i: usize = 0;
    while i < n - 1
        invariant
            n == events.len(),
            n >= 1,
            i <= n - 1,
            all == events.deep_view(),
            forall|j: int| 0 <= j < i ==> (#[trigger] all[j]).time.secs <= all[j + 1].time.secs,
        decreases n - i,
    {
        proof {
            assert(all[i as int] == events@[i as int]@);
            assert(all[i as int + 1] == events@[i as int + 1]@);
        }
        if events[i].time.secs > events[i + 1].time.secs {
            return false;
        }
        i += 1;
    }
    true
}

/// Spec-level image of one time bucket.
pub ghost struct GBucket {
    pub start: int,
    pub end: int,
    pub totals: Seq<(Seq<char>, int)>,
}

/// One fixed-width window with the seconds each application was in focus
/// during it, in first-use order.
#[derive(Debug, PartialEq, Eq)]
pub struct TimeBucket {
    pub window: TimeRange,
    pub totals: Vec<(String, u64)>,
}

/// Spec-level image of an accumulator's entries.
pub open spec fn totals_view(s: Seq<(String, u64)>) -> Seq<(Seq<char>, int)> {
    Seq::new(s.len(), |i: int| (s[i].0@, s[i].1 as int))
}

impl View for TimeBucket {
    type V = GBucket;

    open spec fn view(&self) -> GBucket {
        GBucket {
            start: self.window.start.secs as int,
            end: self.window.end.secs as int,
            totals: totals_view(self.totals@),
        }
    }
}

impl DeepView for TimeBucket {
    type V = GBucket;

    open spec fn deep_view(&self) -> GBucket {
        self.view()
    }
}

/// Adds `d` seconds to `app`'s entry, or appends a first entry for it.
pub open spec fn spec_upsert(totals: Seq<(Seq<char>, int)>, app: Seq<char>, d: int) -> Seq<
    (Seq<char>, int),
>
    decreases totals.len(),
{
    if totals.len() == 0 {
        seq![(app, d)]
    } else if totals[0].0 == app {
        seq![(app, totals[0].1 + d)] + totals.drop_first()
    } else {
        seq![totals[0]] + spec_upsert(totals.drop_first(), app, d)
    }
}

proof fn lemma_upsert_found(totals: Seq<(Seq<char>, int)>, app: Seq<char>, d: int, j: int)
    requires
        0 <= j < totals.len(),
        totals[j].0 == app,
        forall|k: int| 0 <= k < j ==> (#[trigger] totals[k]).0 != app,
    ensures
        spec_upsert(totals, app, d) == totals.update(j, (app, totals[j].1 + d)),
    decreases j,
{
    if j == 0 {
        assert(spec_upsert(totals, app, d) =~= totals.update(0, (app, totals[0].1 + d)));
    } else {
        lemma_upsert_found(totals.drop_first(), app, d, j - 1);
        assert(totals.drop_first().update(j - 1, (app, totals[j].1 + d)) =~= totals.update(
            j,
            (app, totals[j].1 + d),
        ).drop_first());
        assert(spec_upsert(totals, app, d) =~= totals.update(j, (app, totals[j].1 + d)));
    }
}

proof fn lemma_upsert_missing(totals: Seq<(Seq<char>, int)>, app: Seq<char>, d: int)
    requires
        forall|k: int| 0 <= k < totals.len() ==> (#[trigger] totals[k]).0 != app,
    ensures
        spec_upsert(totals, app, d) == totals.push((app, d)),
    decreases totals.len(),
{
    if totals.len() == 0 {
        assert(spec_upsert(totals, app, d) =~= totals.push((app, d)));
    } else {
        lemma_upsert_missing(totals.drop_first(), app, d);
        assert(spec_upsert(totals, app, d) =~= totals.push((app, d)));
    }
}

/// Every entry after an upsert stays within the old bound plus the added
/// duration.
pub proof fn lemma_upsert_bounds(totals: Seq<(Seq<char>, int)>, app: Seq<char>, d: int, bound: int)
    requires
        forall|t: int| 0 <= t < totals.len() ==> (#[trigger] totals[t]).1 <= bound,
        0 <= d,
        0 <= bound,
    ensures
        forall|t: int|
            0 <= t < spec_upsert(totals, app, d).len() ==> (#[trigger] spec_upsert(totals, app, d)[
                t
            ]).1 <= bound + d,
    decreases totals.len(),
{
    let u = spec_upsert(totals, app, d);
    if totals.len() == 0 {
        assert(u =~= seq![(app, d)]);
    } else if totals[0].0 == app {
        assert forall|t: int| 0 <= t < u.len() implies (#[trigger] u[t]).1 <= bound + d by {
            if t > 0 {
                assert(u[t] == totals.drop_first()[t - 1]);
                assert(totals.drop_first()[t - 1] == totals[t]);
            }
        }
    } else {
        assert forall|t: int|
            0 <= t < totals.drop_first().len() implies (#[trigger] totals.drop_first()[t]).1
            <= bound by {
            assert(totals.drop_first()[t] == totals[t + 1]);
        }
        lemma_upsert_bounds(totals.drop_first(), app, d, bound);
        assert forall|t: int| 0 <= t < u.len() implies (#[trigger] u[t]).1 <= bound + d by {
            if t == 0 {
                assert(u[0] == totals[0]);
            } else {
                assert(u[t] == spec_upsert(totals.drop_first(), app, d)[t - 1]);
            }
        }
    }
}

/// Adds `d` seconds of use of `app` to the accumulator.
fn upsert(totals: &mut Vec<(String, u64)>, app: String, d: u64)
    requires
        forall|j: int|
            0 <= j < old(totals)@.len() ==> (#[trigger] old(totals)@[j]).1 + d <= u64::MAX,
    ensures
        totals_view(final(totals)@) == spec_upsert(totals_view(old(totals)@), app@, d as int),
{
    let ghost all = totals_view(old(totals)@);
    let mut j: usize = 0;
    while j < totals.len()
        invariant
            j <= totals@.len(),
            totals@ == old(totals)@,
            all == totals_view(old(totals)@),
            forall|k: int| 0 <= k < j ==> (#[trigger] all[k]).0 != app@,
            forall|k: int|
                0 <= k < old(totals)@.len() ==> (#[trigger] old(totals)@[k]).1 + d <= u64::MAX,
        decreases totals@.len() - j,
    {
        if totals[j].0 == app {
            let pair = totals.remove(j);
            let sum = pair.1 + d;
            totals.insert(j, (pair.0, sum));
            proof {
                assert(totals@ =~= old(totals)@.update(j as int, (pair.0, sum)));
                assert(all[j as int].0 == app@);
                lemma_upsert_found(all, app@, d as int, j as int);
                assert(totals_view(totals@) =~= all.update(
                    j as int,
                    (app@, all[j as int].1 + d as int),
                ));
            }
            return ;
        }
        proof {
            assert(all[j as int].0 == totals@[j as int].0@);
        }
        j += 1;
    }
    totals.push((app, d));
    proof {
        lemma_upsert_missing(all, app@, d as int);
        assert(totals_view(totals@) =~= all.push((app@, d as int)));
    }
}

/// How far the processed part of the stream spans: the time of the last
/// event read so far minus the time of the first event. No accumulated
/// duration can exceed it.
pub open spec fn spec_event_span(events: Seq<GFocusChangeEvent>, i: int) -> int {
    if events.len() == 0 || i <= 0 {
        0
    } else {
        let k = if i < events.len() {
            i
        } else {
            events.len() - 1
        };
        events[k].time.secs - events[0].time.secs
    }
}

/// The buckets the aggregation pass yields, starting from event `i` with the
/// current window beginning at `cur` and the buckets built so far in `acc`
/// (the last of which is the open accumulator).
pub open spec fn spec_aggregate_from(
    events: Seq<GFocusChangeEvent>,
    i: int,
    cur: int,
    step: int,
    acc: Seq<GBucket>,
) -> Seq<GBucket>
    decreases events.len() - i,
{
    if !(0 <= i < events.len()) {
        acc
    } else {
        match events[i].change {
            GFocusChange::StopUsing => spec_aggregate_from(events, i + 1, cur, step, acc),
            GFocusChange::StartUsing(app) => {
                if events[i].time.secs >= cur + step {
                    let nc = cur + step;
                    spec_aggregate_from(
                        events,
                        i + 1,
                        nc,
                        step,
                        acc + seq![GBucket { start: nc, end: nc + step, totals: Seq::empty() }],
                    )
                } else if i + 1 < events.len() {
                    let d = events[i + 1].time.secs - events[i].time.secs;
                    let last = acc.last();
                    let updated = GBucket {
                        start: last.start,
                        end: last.end,
                        totals: spec_upsert(last.totals, app, d),
                    };
                    spec_aggregate_from(events, i + 1, cur, step, acc.drop_last().push(updated))
                } else {
                    spec_aggregate_from(events, i + 1, cur, step, acc)
                }
            },
        }
    }
}

/// The buckets of the whole stream, anchored at `anchor`.
pub open spec fn spec_aggregate(events: Seq<GFocusChangeEvent>, anchor: int, step: int) -> Seq<
    GBucket,
> {
    spec_aggregate_from(
        events,
        0,
        anchor,
        step,
        seq![GBucket { start: anchor, end: anchor + step, totals: Seq::empty() }],
    )
}

/// Turns a chronological event stream into fixed-width buckets of
/// per-application focus seconds, anchored at `anchor`.
pub fn generate_usage_statistics(events: &Vec<FocusChangeEvent>, anchor: Timestamp, step: i64) -> (r:
    Vec<TimeBucket>)
    requires
        step > 0,
        chronological(events.deep_view()),
        anchor.secs + step <= i64::MAX,
        forall|j: int|
            0 <= j < events.deep_view().len() ==> (#[trigger] events.deep_view()[j]).time.secs
                + step <= i64::MAX,
    ensures
        r.deep_view() == spec_aggregate(events.deep_view(), anchor.secs as int, step as int),
        r@.len() >= 1,
        forall|j: int|
            0 <= j < r.deep_view().len() ==> (#[trigger] r.deep_view()[j]).start == anchor.secs + j
                * step && r.deep_view()[j].end == anchor.secs + (j + 1) * step,
{
    let ghost gevents = events.deep_view();
    let mut result: Vec<TimeBucket> = Vec::new();
    result.push(
        TimeBucket {
            window: TimeRange { start: anchor, end: Timestamp { secs: anchor.secs + step } },
            totals: Vec::new(),
        },
    );
    let mut cur: i64 = anchor.secs;
    let mut i: usize = 0;
    proof {
        assert(totals_view(Seq::<(String, u64)>::empty()) =~= Seq::<(Seq<char>, int)>::empty());
        assert(result.deep_view() =~= seq![
            GBucket {
                start: anchor.secs as int,
                end: anchor.secs + step as int,
                totals: Seq::empty(),
            },
        ]);
        assert(1 * (step as int) == step as int) by (nonlinear_arith);
        assert(0 * (step as int) == 0) by (nonlinear_arith);
    }
    while i < events.len()
        invariant
            i <= events.len(),
            gevents == events.deep_view(),
            gevents.len() == events@.len(),
            chronological(gevents),
            step > 0,
            anchor.secs + step <= i64::MAX,
            forall|j: int|
                0 <= j < gevents.len() ==> (#[trigger] gevents[j]).time.secs + step <= i64::MAX,
            result@.len() >= 1,
            result.deep_view().len() == result@.len(),
            cur == anchor.secs + (result@.len() - 1) * step,
            forall|j: int|
                0 <= j < result.deep_view().len() ==> (#[trigger] result.deep_view()[j]).start
                    == anchor.secs + j * step && result.deep_view()[j].end == anchor.secs + (j + 1)
                    * step,
            i == 0 ==> cur == anchor.secs,
            i > 0 ==> cur <= anchor.secs || cur <= gevents[i - 1].time.secs,
            forall|b: int, t: int|
                0 <= b < result.deep_view().len() && 0 <= t < result.deep_view()[b].totals.len()
                    ==> (#[trigger] result.deep_view()[b].totals[t]).1 <= spec_event_span(
                    gevents,
                    i as int,
                ) && 0 <= result.deep_view()[b].totals[t].1,
            spec_aggregate(gevents, anchor.secs as int, step as int) == spec_aggregate_from(
                gevents,
                i as int,
                cur as int,
                step as int,
                result.deep_view(),
            ),
        decreases events.len() - i,
    {
        let ghost ge = gevents[i as int];
        let ghost pre = result.deep_view();
        let ghost span_pre = spec_event_span(gevents, i as int);
        let ghost span_post = spec_event_span(gevents, i as int + 1);
        proof {
            assert(ge == events@[i as int]@);
            if i > 0 {
                assert(gevents[i as int - 1].time.secs <= gevents[i as int].time.secs);
            }
            if 0 < i < gevents.len() - 1 {
                assert(gevents[i as int].time.secs <= gevents[i as int + 1].time.secs);
            }
            assert(span_pre <= span_post);
        }
        let ev_time = events[i].time;
        match &events[i].change {
            FocusChange::StopUsing => {
                proof {
                    assert(ge.change is StopUsing);
                }
            },
            FocusChange::StartUsing(app_ref) => {
                proof {
                    assert(ge.change == GFocusChange::StartUsing(app_ref@));
                    assert(cur + step <= i64::MAX);
                }
                if ev_time.secs >= cur + step {
                    let nc = cur + step;
                    proof {
                        assert(nc + step <= ev_time.secs + step);
                        assert(ge.time.secs + step <= i64::MAX);
                    }
                    result.push(
                        TimeBucket {
                            window: TimeRange {
                                start: Timestamp { secs: nc },
                                end: Timestamp { secs: nc + step },
                            },
                            totals: Vec::new(),
                        },
                    );
                    proof {
                        let gb = GBucket {
                            start: nc as int,
                            end: nc + step as int,
                            totals: Seq::empty(),
                        };
                        assert(totals_view(Seq::<(String, u64)>::empty()) =~= Seq::<
                            (Seq<char>, int),
                        >::empty());
                        assert(result.deep_view() =~= pre + seq![gb]);
                        let l = pre.len() as int;
                        assert((l - 1) * (step as int) + step as int == l * (step as int))
                            by (nonlinear_arith);
                        assert((l + 1) * (step as int) == l * (step as int) + step as int)
                            by (nonlinear_arith);
                    }
                    cur = nc;
                } else if i + 1 < events.len() {
                    let next_secs = events[i + 1].time.secs;
                    proof {
                        assert(gevents[i as int + 1] == events@[i as int + 1]@);
                        assert(next_secs >= ev_time.secs);
                    }
                    let d128: i128 = next_secs as i128 - ev_time.secs as i128;
                    let d: u64 = d128 as u64;
                    proof {
                        assert(d as int == next_secs as int - ev_time.secs as int);
                    }
                    let app = app_ref.clone();
                    let mut b = match result.pop() {
                        Some(v) => v,
                        None => {
                            proof {
                                assert(false);
                            }
                            unreached()
                        },
                    };
                    let ghost gb_pre = pre.last();
                    proof {
                        assert(b@ == gb_pre);
                        assert forall|jj: int| 0 <= jj < b.totals@.len() implies (
                        #[trigger] b.totals@[jj]).1 + d <= u64::MAX by {
                            assert(gb_pre.totals[jj].1 == b.totals@[jj].1 as int);
                            assert(gb_pre.totals[jj].1 <= span_pre);
                            lemma_chronological_pairwise(gevents, 0, i as int);
                        };
                    }
                    upsert(&mut b.totals, app, d);
                    let ghost gb_post = GBucket {
                        start: gb_pre.start,
                        end: gb_pre.end,
                        totals: spec_upsert(gb_pre.totals, app_ref@, d as int),
                    };
                    result.push(b);
                    proof {
                        assert(b@ == gb_post);
                        assert(result.deep_view() =~= pre.drop_last().push(gb_post));
                        lemma_chronological_pairwise(gevents, 0, i as int);
                        lemma_upsert_bounds(
                            gb_pre.totals,
                            app_ref@,
                            d as int,
                            if span_pre >= 0 {
                                span_pre
                            } else {
                                0
                            },
                        );
                        assert(span_pre + d <= span_post);
                    }
                } else {
                    proof {
                        assert(i + 1 == gevents.len());
                    }
                }
            },
        }
        i += 1;
    }
    result
}

/// Law: the bucket windows tile the span from the anchor without gaps or
/// overlap — every window lies inside `[anchor, anchor + N * step)` for
/// `N` the number of buckets, and no two windows overlap.
pub proof fn lemma_bucket_windows(buckets: Seq<GBucket>, anchor: int, step: int)
    requires
        step > 0,
        forall|j: int|
            0 <= j < buckets.len() ==> (#[trigger] buckets[j]).start == anchor + j * step
                && buckets[j].end == anchor + (j + 1) * step,
    ensures
        forall|j: int|
            0 <= j < buckets.len() ==> anchor <= (#[trigger] buckets[j]).start && buckets[j].end
                <= anchor + buckets.len() * step,
        forall|j: int, k: int|
            0 <= j < k < buckets.len() ==> (#[trigger] buckets[j]).end <= (
            #[trigger] buckets[k]).start,
{
    assert forall|j: int| 0 <= j < buckets.len() implies anchor <= (#[trigger] buckets[j]).start
        && buckets[j].end <= anchor + buckets.len() * step by {
        lemma_mul_inequality(0, j, step);
        lemma_mul_inequality(j + 1, buckets.len() as int, step);
    }
    assert forall|j: int, k: int| 0 <= j < k < buckets.len() implies (#[trigger] buckets[j]).end
        <= (#[trigger] buckets[k]).start by {
        lemma_mul_inequality(j + 1, k, step);
    }
}

} // verus!
