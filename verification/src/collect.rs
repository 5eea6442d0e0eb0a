//! Event collector: the contents of the selected files, in chronological
//! file order, become one event stream clipped to the query range.

use vstd::prelude::*;
use crate::codec::ParseError;
use crate::events::{FocusChangeEvent, GFocusChangeEvent};
use crate::parse::{spec_parse_content, parse_content};
use crate::time::TimeRange;

verus! {

pub open spec fn in_range_fn(range: TimeRange) -> spec_fn(GFocusChangeEvent) -> bool {
    |e: GFocusChangeEvent| range.spec_includes(e.time)
}

/// The events of the stream that lie inside the range, in stream order.
pub open spec fn spec_filter_range(events: Seq<GFocusChangeEvent>, range: TimeRange) -> Seq<
    GFocusChangeEvent,
> {
    events.filter(in_range_fn(range))
}

/// Keeps the events inside the range, in order.
pub fn filter_to_range(events: Vec<FocusChangeEvent>, range: &TimeRange) -> (r: Vec<
    FocusChangeEvent,
>)
    ensures
        r.deep_view() == spec_filter_range(events.deep_view(), *range),
{
    let ghost all = events.deep_view();
    let mut out: Vec<FocusChangeEvent> = Vec::new();
    let mut rest = events;
    proof {
        assert(out.deep_view() =~= Seq::<GFocusChangeEvent>::empty());
        assert(out.deep_view() + spec_filter_range(rest.deep_view(), *range) =~= spec_filter_range(
            all,
            *range,
        ));
    }
    while rest.len() > 0
        invariant
            spec_filter_range(all, *range) == out.deep_view() + spec_filter_range(
                rest.deep_view(),
                *range,
            ),
        decreases rest.len(),
    {
        let ghost pre_rest = rest.deep_view();
        let ghost pre_out = out.deep_view();
        let e = rest.remove(0);
        let ghost ge = e@;
        proof {
            reveal_with_fuel(Seq::<_>::filter, 2);
            assert(rest.deep_view() =~= pre_rest.drop_first());
            assert(pre_rest =~= seq![ge] + rest.deep_view());
            Seq::<GFocusChangeEvent>::filter_distributes_over_add(
                seq![ge],
                rest.deep_view(),
                in_range_fn(*range),
            );
            assert(seq![ge].drop_last() =~= Seq::<GFocusChangeEvent>::empty());
            if in_range_fn(*range)(ge) {
                assert(seq![ge].filter(in_range_fn(*range)) =~= seq![ge]);
            } else {
                assert(seq![ge].filter(in_range_fn(*range)) =~= Seq::<
                    GFocusChangeEvent,
                >::empty());
            }
            assert(in_range_fn(*range)(ge) == range.spec_includes(e.time));
        }
        if range.includes(&e.time) {
            out.push(e);
            proof {
                assert(out.deep_view() =~= pre_out + seq![ge]);
                assert((pre_out + seq![ge]) + spec_filter_range(rest.deep_view(), *range) =~=
                pre_out + (seq![ge] + spec_filter_range(rest.deep_view(), *range)));
            }
        } else {
            proof {
                assert(pre_out + (Seq::<GFocusChangeEvent>::empty() + spec_filter_range(
                    rest.deep_view(),
                    *range,
                )) =~= pre_out + spec_filter_range(rest.deep_view(), *range));
            }
        }
    }
    proof {
        reveal_with_fuel(Seq::<_>::filter, 1);
        assert(rest.deep_view() =~= Seq::<GFocusChangeEvent>::empty());
        assert(spec_filter_range(rest.deep_view(), *range) =~= Seq::<GFocusChangeEvent>::empty());
        assert(out.deep_view() + Seq::<GFocusChangeEvent>::empty() =~= out.deep_view());
    }
    out
}

/// What collecting from the file contents yields, from position `k` on:
/// each file parsed and clipped to the range, all in order, or the error of
/// the first corrupt file.
pub open spec fn spec_collect_from(contents: Seq<Seq<char>>, range: TimeRange, k: int) -> Result<
    Seq<GFocusChangeEvent>,
    ParseError,
>
    decreases contents.len() - k,
{
    if !(0 <= k < contents.len()) {
        Ok(Seq::empty())
    } else {
        match spec_parse_content(contents[k]) {
            Err(e) => Err(e),
            Ok(evts) => match spec_collect_from(contents, range, k + 1) {
                Err(e) => Err(e),
                Ok(rest) => Ok(spec_filter_range(evts, range) + rest),
            },
        }
    }
}

/// Parses every selected file's content and keeps the events inside the
/// range, concatenated in the order the contents are given.
pub fn collect_events(contents: &Vec<String>, range: &TimeRange) -> (r: Result<
    Vec<FocusChangeEvent>,
    ParseError,
>)
    ensures
        (match r {
            Ok(v) => spec_collect_from(contents.deep_view(), *range, 0) == Ok::<_, ParseError>(
                v.deep_view(),
            ),
            Err(e) => spec_collect_from(contents.deep_view(), *range, 0) == Err::<
                Seq<GFocusChangeEvent>,
                ParseError,
            >(e),
        }),
{
    let ghost all = contents.deep_view();
    let mut out: Vec<FocusChangeEvent> = Vec::new();
    let mut i: usize = 0;
    proof {
        assert(out.deep_view() =~= Seq::<GFocusChangeEvent>::empty());
        if spec_collect_from(all, *range, 0) is Ok {
            let rest = spec_collect_from(all, *range, 0)->Ok_0;
            assert(out.deep_view() + rest =~= rest);
        }
    }
    while i < contents.len()
        invariant
            i <= contents.len(),
            all == contents.deep_view(),
            (match spec_collect_from(all, *range, i as int) {
                Ok(rest) => spec_collect_from(all, *range, 0) == Ok::<_, ParseError>(
                    out.deep_view() + rest,
                ),
                Err(e) => spec_collect_from(all, *range, 0) == Err::<
                    Seq<GFocusChangeEvent>,
                    ParseError,
                >(e),
            }),
        decreases contents.len() - i,
    {
        let ghost pre = out.deep_view();
        proof {
            assert(all[i as int] == contents@[i as int]@);
        }
        let parsed = match parse_content(contents[i].as_str()) {
            Ok(v) => v,
            Err(e) => {
                return Err(e);
            },
        };
        let mut filtered = filter_to_range(parsed, range);
        let ghost gf = filtered.deep_view();
        out.append(&mut filtered);
        proof {
            assert(out.deep_view() =~= pre + gf);
            if spec_collect_from(all, *range, i + 1) is Ok {
                let rest = spec_collect_from(all, *range, i + 1)->Ok_0;
                assert(pre + (gf + rest) =~= (pre + gf) + rest);
            }
        }
        i += 1;
    }
    proof {
        assert(spec_collect_from(all, *range, i as int) == Ok::<Seq<GFocusChangeEvent>, ParseError>(
            Seq::empty(),
        ));
        assert(out.deep_view() + Seq::<GFocusChangeEvent>::empty() =~= out.deep_view());
    }
    Ok(out)
}

} // verus!
