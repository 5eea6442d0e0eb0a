//! Log store scanner: given the file names of a log directory and a time
//! range, pick the ordered, minimal set of files whose content can hold
//! events inside the range, without opening any other file.
//!
//! A file named with timestamp `t` is defined to contain only events with
//! time at least `t` and below the next file's timestamp, so a file that
//! starts before the range matters only when the next file starts after the
//! range's start.

use vstd::prelude::*;
use vstd::relations::{sorted_by, total_ordering};
use vstd::seq_lib::{
    group_to_multiset_ensures, lemma_sorted_unique, to_multiset_insert,
};
use crate::codec::{spec_decode, decode, ParseError};
use crate::time::TimeRange;

verus! {

/// Order on (file timestamp, input position) pairs: by timestamp, with the
/// input position breaking ties, so that the order is total and the sorted
/// arrangement unique.
pub open spec fn pair_leq(a: (i64, usize), b: (i64, usize)) -> bool {
    a.0 < b.0 || (a.0 == b.0 && a.1 <= b.1)
}

pub open spec fn pair_leq_fn() -> spec_fn((i64, usize), (i64, usize)) -> bool {
    |a: (i64, usize), b: (i64, usize)| pair_leq(a, b)
}

pub proof fn lemma_pair_leq_total()
    ensures
        total_ordering(pair_leq_fn()),
{
    assert forall|a: (i64, usize), b: (i64, usize)| pair_leq(a, b) && pair_leq(b, a) implies a
        == b by {
        assert(a.0 == b.0 && a.1 == b.1);
    }
}

/// Two positions of a sorted pair sequence are ordered.
pub proof fn lemma_sorted_pairwise(s: Seq<(i64, usize)>, i: int, j: int)
    requires
        sorted_by(s, pair_leq_fn()),
        0 <= i < j < s.len(),
    ensures
        pair_leq(s[i], s[j]),
{
    assert(pair_leq_fn()(s[i], s[j]));
}

/// Exec mirror of `pair_leq`.
fn pair_le(a: (i64, usize), b: (i64, usize)) -> (r: bool)
    ensures
        r == pair_leq(a, b),
{
    a.0 < b.0 || (a.0 == b.0 && a.1 <= b.1)
}

/// Sorts timestamp/position pairs ascending.
pub fn sort_pairs(v: &Vec<(i64, usize)>) -> (r: Vec<(i64, usize)>)
    ensures
        r@ == v@.sort_by(pair_leq_fn()),
{
    let mut out: Vec<(i64, usize)> = Vec::new();
    let mut i: usize = 0;
    proof {
        assert(v@.take(0) =~= Seq::<(i64, usize)>::empty());
        assert(out@.to_multiset() =~= v@.take(0).to_multiset());
    }
    while i < v.len()
        invariant
            i <= v.len(),
            sorted_by(out@, pair_leq_fn()),
            out@.to_multiset() == v@.take(i as int).to_multiset(),
            out@.len() == i,
        decreases v.len() - i,
    {
        let x = v[i];
        let mut p: usize = 0;
        while p < out.len() && pair_le(out[p], x)
            invariant
                p <= out.len(),
                forall|k: int| 0 <= k < p ==> pair_leq(out@[k], x),
            decreases out.len() - p,
        {
            p += 1;
        }
        let ghost pre = out@;
        out.insert(p, x);
        proof {
            pre.insert_ensures(p as int, x);
            assert forall|a: int, b: int| 0 <= a < b < out@.len() implies #[trigger] pair_leq_fn()(
                out@[a],
                out@[b],
            ) by {
                if b < p {
                    assert(out@[a] == pre[a] && out@[b] == pre[b]);
                    lemma_sorted_pairwise(pre, a, b);
                } else if a > p {
                    assert(out@[a] == pre[a - 1] && out@[b] == pre[b - 1]);
                    lemma_sorted_pairwise(pre, a - 1, b - 1);
                } else if a < p && b == p {
                    assert(out@[a] == pre[a] && out@[b] == x);
                } else if a == p {
                    assert(out@[a] == x && out@[b] == pre[b - 1]);
                    if p < b - 1 {
                        lemma_sorted_pairwise(pre, p as int, b - 1);
                    }
                } else {
                    assert(out@[a] == pre[a] && out@[b] == pre[b - 1]);
                    lemma_sorted_pairwise(pre, a, b - 1);
                }
                assert(pair_leq(out@[a], out@[b]));
            }
            assert(sorted_by(out@, pair_leq_fn()));
            to_multiset_insert(pre, p as int, x);
            broadcast use group_to_multiset_ensures;
            assert(v@.take(i as int + 1) =~= v@.take(i as int).push(x));
        }
        i += 1;
    }
    proof {
        assert(v@.take(v.len() as int) =~= v@);
        lemma_pair_leq_total();
        v@.lemma_sort_by_ensures(pair_leq_fn());
        lemma_sorted_unique(out@, v@.sort_by(pair_leq_fn()), pair_leq_fn());
    }
    out
}

/// Whether the file at position `k` of the sorted list can hold events
/// inside the range: it starts inside the range, or it starts before the
/// range while the next file starts after the range's start.
pub open spec fn spec_selected(sorted: Seq<(i64, usize)>, range: TimeRange, k: int) -> bool {
    &&& 0 <= k < sorted.len()
    &&& {
        ||| range.start.secs <= sorted[k].0 <= range.end.secs
        ||| (sorted[k].0 < range.start.secs && k + 1 < sorted.len() && sorted[k + 1].0
            > range.start.secs)
    }
}

/// The input positions of the selected files, from `k` on, in sorted order.
pub open spec fn spec_select_from(sorted: Seq<(i64, usize)>, range: TimeRange, k: int) -> Seq<
    usize,
>
    decreases sorted.len() - k,
{
    if !(0 <= k < sorted.len()) {
        Seq::empty()
    } else {
        let rest = spec_select_from(sorted, range, k + 1);
        if spec_selected(sorted, range, k) {
            seq![sorted[k].1] + rest
        } else {
            rest
        }
    }
}

/// Law (minimal file set): a file that starts entirely before the range is
/// selected only when the next file starts after the range's start; with no
/// next file it is never selected.
pub proof fn lemma_scanner_minimal(sorted: Seq<(i64, usize)>, range: TimeRange, k: int)
    requires
        spec_selected(sorted, range, k),
        sorted[k].0 < range.start.secs,
    ensures
        k + 1 < sorted.len(),
        sorted[k + 1].0 > range.start.secs,
{
}

/// Once a sorted file starts after the range's end, no later file is
/// selected.
pub proof fn lemma_select_rest_empty(sorted: Seq<(i64, usize)>, range: TimeRange, k: int)
    requires
        sorted_by(sorted, pair_leq_fn()),
        range.start.secs <= range.end.secs,
        0 <= k,
        k < sorted.len() ==> sorted[k].0 > range.end.secs,
    ensures
        spec_select_from(sorted, range, k) == Seq::<usize>::empty(),
    decreases sorted.len() - k,
{
    if 0 <= k < sorted.len() {
        if k + 1 < sorted.len() {
            lemma_sorted_pairwise(sorted, k, k + 1);
        }
        lemma_select_rest_empty(sorted, range, k + 1);
    }
}

/// What decoding every file name from position `k` on yields: the
/// (timestamp, position) pairs, or the error of the first undecodable name.
pub open spec fn spec_decode_from(names: Seq<Seq<char>>, k: int) -> Result<
    Seq<(i64, usize)>,
    ParseError,
>
    decreases names.len() - k,
{
    if !(0 <= k < names.len()) {
        Ok(Seq::empty())
    } else {
        match spec_decode(names[k]) {
            Err(e) => Err(e),
            Ok(t) => match spec_decode_from(names, k + 1) {
                Err(e) => Err(e),
                Ok(rest) => Ok(seq![(t.secs, k as usize)] + rest),
            },
        }
    }
}

/// The input positions of the log files a query for `range` must read, in
/// chronological order: file names are decoded as timestamps, sorted, and
/// the minimal covering subset is kept.
pub fn select_files(names: &Vec<String>, range: &TimeRange) -> (r: Result<Vec<usize>, ParseError>)
    requires
        range.wf(),
    ensures
        (match r {
            Ok(sel) => spec_decode_from(names.deep_view(), 0) matches Ok(pairs) && sel@
                == spec_select_from(pairs.sort_by(pair_leq_fn()), *range, 0),
            Err(e) => spec_decode_from(names.deep_view(), 0) == Err::<
                Seq<(i64, usize)>,
                ParseError,
            >(e),
        }),
{
    let ghost all = names.deep_view();
    let mut pairs: Vec<(i64, usize)> = Vec::new();
    let mut i: usize = 0;
    while i < names.len()
        invariant
            i <= names.len(),
            all == names.deep_view(),
            pairs@.len() == i,
            (match spec_decode_from(all, i as int) {
                Ok(rest) => spec_decode_from(all, 0) == Ok::<_, ParseError>(pairs@ + rest),
                Err(e) => spec_decode_from(all, 0) == Err::<Seq<(i64, usize)>, ParseError>(e),
            }),
        decreases names.len() - i,
    {
        let ghost pre = pairs@;
        proof {
            assert(all[i as int] == names@[i as int]@);
        }
        match decode(names[i].as_str()) {
            Err(e) => {
                return Err(e);
            },
            Ok(t) => {
                pairs.push((t.secs, i));
                proof {
                    if spec_decode_from(all, i + 1) is Ok {
                        let rest = spec_decode_from(all, i + 1)->Ok_0;
                        assert(pre + (seq![(t.secs, i)] + rest) =~= (pre + seq![(t.secs, i)])
                            + rest);
                        assert(pairs@ =~= pre + seq![(t.secs, i)]);
                    }
                }
            },
        }
        i += 1;
    }
    proof {
        assert(spec_decode_from(all, names.len() as int) == Ok::<Seq<(i64, usize)>, ParseError>(
            Seq::empty(),
        ));
        assert(pairs@ + Seq::<(i64, usize)>::empty() =~= pairs@);
    }
    let sorted = sort_pairs(&pairs);
    let ghost sseq = sorted@;
    proof {
        lemma_pair_leq_total();
        pairs@.lemma_sort_by_ensures(pair_leq_fn());
    }
    let mut sel: Vec<usize> = Vec::new();
    let mut k: usize = 0;
    while k < sorted.len()
        invariant
            k <= sorted.len(),
            sseq == sorted@,
            sorted_by(sseq, pair_leq_fn()),
            range.wf(),
            spec_select_from(sseq, *range, 0) == sel@ + spec_select_from(sseq, *range, k as int),
        ensures
            sel@ == spec_select_from(sseq, *range, 0),
        decreases sorted.len() - k,
    {
        let ghost pre = sel@;
        let ts = sorted[k].0;
        if ts > range.end.secs {
            proof {
                lemma_select_rest_empty(sseq, *range, k as int);
                assert(sel@ + Seq::<usize>::empty() =~= sel@);
            }
            break ;
        }
        let included = if ts >= range.start.secs {
            true
        } else {
            k + 1 < sorted.len() && sorted[k + 1].0 > range.start.secs
        };
        if included {
            sel.push(sorted[k].1);
            proof {
                assert(spec_selected(sseq, *range, k as int));
                assert(sel@ =~= pre + seq![sseq[k as int].1]);
                assert(pre + (seq![sseq[k as int].1] + spec_select_from(sseq, *range, k + 1)) =~= (
                pre + seq![sseq[k as int].1]) + spec_select_from(sseq, *range, k + 1));
            }
        } else {
            proof {
                assert(!spec_selected(sseq, *range, k as int));
            }
        }
        k += 1;
        proof {
            if k == sorted.len() {
                assert(spec_select_from(sseq, *range, k as int) == Seq::<usize>::empty());
                assert(sel@ + Seq::<usize>::empty() =~= sel@);
            }
        }
    }
    Ok(sel)
}

} // verus!
