//! Line parser: one raw log line becomes at most one focus-change event.
//!
//! A line has the shape `timestamp:action[:argument]`, split on every colon.
//! `open` with an argument starts using that application; `lock` stops the
//! current use. Any other shape is silently dropped. A leading field that
//! parses as an integer but maps to no representable time is corrupt
//! machine-written data and aborts the whole file.

use vstd::prelude::*;
use vstd::string::*;
use crate::codec::{spec_parse_i64, parse_i64, ParseError};
use crate::events::{FocusChange, FocusChangeEvent, GFocusChange, GFocusChangeEvent};
use crate::text::{find_from, find_char, spec_split_lines, split_lines};
use crate::time::{Timestamp, chrono_representable};

verus! {

/// What parsing one line yields: an event, nothing, or a fatal error.
pub open spec fn spec_parse_line(s: Seq<char>) -> Result<
    Option<GFocusChangeEvent>,
    ParseError,
> {
    let c0 = find_from(s, 0, ':');
    match spec_parse_i64(s.subrange(0, c0)) {
        None => Ok(None),
        Some(v) => {
            let t = Timestamp { secs: v };
            if !t.representable() {
                Err(ParseError::OutOfRange)
            } else if c0 >= s.len() {
                Ok(None)
            } else {
                let c1 = find_from(s, c0 + 1, ':');
                let action = s.subrange(c0 + 1, c1);
                if action == seq!['o', 'p', 'e', 'n'] && c1 < s.len() {
                    let c2 = find_from(s, c1 + 1, ':');
                    Ok(
                        Some(
                            GFocusChangeEvent {
                                time: t,
                                change: GFocusChange::StartUsing(s.subrange(c1 + 1, c2)),
                            },
                        ),
                    )
                } else if action == seq!['l', 'o', 'c', 'k'] {
                    Ok(Some(GFocusChangeEvent { time: t, change: GFocusChange::StopUsing }))
                } else {
                    Ok(None)
                }
            }
        },
    }
}

/// Spec-level image of a parse result.
pub open spec fn parse_line_view(r: Result<Option<FocusChangeEvent>, ParseError>) -> Result<
    Option<GFocusChangeEvent>,
    ParseError,
> {
    match r {
        Ok(None) => Ok(None),
        Ok(Some(e)) => Ok(Some(e@)),
        Err(e) => Err(e),
    }
}

/// Parses one log line.
pub fn parse_line(line: &str) -> (r: Result<Option<FocusChangeEvent>, ParseError>)
    ensures
        parse_line_view(r) == spec_parse_line(line@),
{
    let n = line.unicode_len();
    let c0 = find_char(line, 0, ':');
    let ts_text = line.substring_char(0, c0);
    let parsed = parse_i64(ts_text);
    match parsed {
        None => Ok(None),
        Some(v) => {
            if !chrono_representable(v) {
                Err(ParseError::OutOfRange)
            } else if c0 >= n {
                Ok(None)
            } else {
                let t = Timestamp { secs: v };
                let c1 = find_char(line, c0 + 1, ':');
                let ghost action = line@.subrange(c0 + 1, c1 as int);
                let is_open = c1 - (c0 + 1) == 4 && line.get_char(c0 + 1) == 'o' && line.get_char(
                    c0 + 2,
                ) == 'p' && line.get_char(c0 + 3) == 'e' && line.get_char(c0 + 4) == 'n';
                let is_lock = c1 - (c0 + 1) == 4 && line.get_char(c0 + 1) == 'l' && line.get_char(
                    c0 + 2,
                ) == 'o' && line.get_char(c0 + 3) == 'c' && line.get_char(c0 + 4) == 'k';
                proof {
                    if is_open {
                        assert(action =~= seq!['o', 'p', 'e', 'n']);
                    } else if action == seq!['o', 'p', 'e', 'n'] {
                        assert(action.len() == 4);
                        assert(line@[c0 + 1] == action[0]);
                        assert(line@[c0 + 2] == action[1]);
                        assert(line@[c0 + 3] == action[2]);
                        assert(line@[c0 + 4] == action[3]);
                    }
                    if is_lock {
                        assert(action =~= seq!['l', 'o', 'c', 'k']);
                    } else if action == seq!['l', 'o', 'c', 'k'] {
                        assert(action.len() == 4);
                        assert(line@[c0 + 1] == action[0]);
                        assert(line@[c0 + 2] == action[1]);
                        assert(line@[c0 + 3] == action[2]);
                        assert(line@[c0 + 4] == action[3]);
                    }
                }
                if is_open && c1 < n {
                    let c2 = find_char(line, c1 + 1, ':');
                    let app = String::from_str(line.substring_char(c1 + 1, c2));
                    Ok(
                        Some(
                            FocusChangeEvent {
                                time: t,
                                change: FocusChange::StartUsing(app),
                            },
                        ),
                    )
                } else if is_lock {
                    Ok(Some(FocusChangeEvent { time: t, change: FocusChange::StopUsing }))
                } else {
                    Ok(None)
                }
            }
        },
    }
}

/// What parsing a sequence of lines yields: the events of the lines that
/// carry one, in line order, or the error of a corrupt line.
pub open spec fn spec_parse_lines(lines: Seq<Seq<char>>) -> Result<
    Seq<GFocusChangeEvent>,
    ParseError,
>
    decreases lines.len(),
{
    if lines.len() == 0 {
        Ok(Seq::empty())
    } else {
        match spec_parse_line(lines[0]) {
            Err(e) => Err(e),
            Ok(head) => match spec_parse_lines(lines.drop_first()) {
                Err(e) => Err(e),
                Ok(rest) => Ok(
                    match head {
                        Some(ev) => seq![ev] + rest,
                        None => rest,
                    },
                ),
            },
        }
    }
}

/// What parsing a whole file's content yields.
pub open spec fn spec_parse_content(s: Seq<char>) -> Result<Seq<GFocusChangeEvent>, ParseError> {
    spec_parse_lines(spec_split_lines(s))
}

/// Glues a prefix of parsed events onto the outcome of the remaining lines.
pub open spec fn spec_prepend_events(
    evts: Seq<GFocusChangeEvent>,
    r: Result<Seq<GFocusChangeEvent>, ParseError>,
) -> Result<Seq<GFocusChangeEvent>, ParseError> {
    match r {
        Ok(rest) => Ok(evts + rest),
        Err(e) => Err(e),
    }
}

/// Parses a whole file's content, line by line.
pub fn parse_content(content: &str) -> (r: Result<Vec<FocusChangeEvent>, ParseError>)
    ensures
        (match r {
            Ok(v) => spec_parse_content(content@) == Ok::<_, ParseError>(v.deep_view()),
            Err(e) => spec_parse_content(content@) == Err::<Seq<GFocusChangeEvent>, _>(e),
        }),
{
    let lines = split_lines(content);
    let ghost all = lines.deep_view();
    let mut out: Vec<FocusChangeEvent> = Vec::new();
    let mut i: usize = 0;
    proof {
        assert(all.skip(0) =~= all);
        assert(out.deep_view() =~= Seq::<GFocusChangeEvent>::empty());
        assert(spec_prepend_events(out.deep_view(), spec_parse_lines(all)) == spec_parse_lines(
            all,
        ));
    }
    while i < lines.len()
        invariant
            i <= lines.len(),
            all == lines.deep_view(),
            all == spec_split_lines(content@),
            spec_parse_lines(all) == spec_prepend_events(
                out.deep_view(),
                spec_parse_lines(all.skip(i as int)),
            ),
        decreases lines.len() - i,
    {
        let ghost pre = out.deep_view();
        let ghost remaining = all.skip(i as int);
        proof {
            assert(remaining[0] == all[i as int]);
            assert(remaining.drop_first() =~= all.skip(i as int + 1));
        }
        let line_r = parse_line(lines[i].as_str());
        match line_r {
            Err(e) => {
                proof {
                    assert(all[i as int] == lines@[i as int]@);
                    assert(spec_parse_line(remaining[0]) == Err::<
                        Option<GFocusChangeEvent>,
                        ParseError,
                    >(e));
                    assert(spec_parse_lines(remaining) == Err::<
                        Seq<GFocusChangeEvent>,
                        ParseError,
                    >(e));
                }
                return Err(e);
            },
            Ok(Some(ev)) => {
                let ghost gev = ev@;
                out.push(ev);
                proof {
                    assert(out.deep_view() =~= pre + seq![gev]);
                    if spec_parse_lines(remaining.drop_first()) is Ok {
                        let rest = spec_parse_lines(remaining.drop_first())->Ok_0;
                        assert(pre + (seq![gev] + rest) =~= (pre + seq![gev]) + rest);
                    }
                }
            },
            Ok(None) => {
            },
        }
        i += 1;
    }
    proof {
        assert(all.skip(lines.len() as int) =~= Seq::<Seq<char>>::empty());
        assert(out.deep_view() + Seq::<GFocusChangeEvent>::empty() =~= out.deep_view());
    }
    Ok(out)
}

/// Law: a malformed line contributes nothing — parsing a list of lines with
/// a malformed line removed yields exactly what parsing the full list yields.
pub proof fn lemma_malformed_line_tolerance(lines: Seq<Seq<char>>, j: int)
    requires
        0 <= j < lines.len(),
        spec_parse_line(lines[j]) == Ok::<Option<GFocusChangeEvent>, ParseError>(None),
    ensures
        spec_parse_lines(lines.remove(j)) == spec_parse_lines(lines),
    decreases lines.len(),
{
    if j == 0 {
        assert(lines.remove(0) =~= lines.drop_first());
    } else {
        assert(lines.remove(j).drop_first() =~= lines.drop_first().remove(j - 1));
        assert(lines.remove(j)[0] == lines[0]);
        lemma_malformed_line_tolerance(lines.drop_first(), j - 1);
    }
}

} // verus!
