//! Character search and line splitting over text.

use vstd::prelude::*;
use vstd::string::*;

verus! {

/// First index at or after `from` where `c` occurs in `s`, or `s.len()` when
/// it does not occur there.
pub open spec fn find_from(s: Seq<char>, from: int, c: char) -> int
    decreases s.len() - from,
{
    if from < 0 || from >= s.len() {
        s.len() as int
    } else if s[from] == c {
        from
    } else {
        find_from(s, from + 1, c)
    }
}

/// An index that sees no `c` before it, and `c` or the end at it, is what
/// `find_from` returns.
pub proof fn lemma_find_from_characterization(s: Seq<char>, from: int, j: int, c: char)
    requires
        0 <= from <= j <= s.len(),
        forall|k: int| from <= k < j ==> s[k] != c,
        j < s.len() ==> s[j] == c,
    ensures
        find_from(s, from, c) == j,
    decreases j - from,
{
    if from < j {
        lemma_find_from_characterization(s, from + 1, j, c);
    }
}

/// Bounds of `find_from`.
pub proof fn lemma_find_from_bounds(s: Seq<char>, from: int, c: char)
    requires
        0 <= from <= s.len(),
    ensures
        from <= find_from(s, from, c) <= s.len(),
        find_from(s, from, c) < s.len() ==> s[find_from(s, from, c)] == c,
        forall|k: int| from <= k < find_from(s, from, c) ==> s[k] != c,
    decreases s.len() - from,
{
    if from < s.len() && s[from] != c {
        lemma_find_from_bounds(s, from + 1, c);
    }
}

/// First index at or after `from` where `c` occurs, or the length of `s`.
pub fn find_char(s: &str, from: usize, c: char) -> (j: usize)
    requires
        from <= s@.len(),
    ensures
        j as int == find_from(s@, from as int, c),
        from <= j <= s@.len(),
        forall|k: int| from <= k < j ==> s@[k] != c,
        j < s@.len() ==> s@[j as int] == c,
{
    let n = s.unicode_len();
    let mut i = from;
    while i < n
        invariant
            from <= i <= n,
            n == s@.len(),
            forall|k: int| from <= k < i ==> s@[k] != c,
        decreases n - i,
    {
        if s.get_char(i) == c {
            proof {
                lemma_find_from_characterization(s@, from as int, i as int, c);
            }
            return i;
        }
        i += 1;
    }
    proof {
        lemma_find_from_characterization(s@, from as int, n as int, c);
    }
    n
}

/// Character-wise equality of two pieces of text.
pub fn str_eq(a: &str, b: &str) -> (r: bool)
    ensures
        r == (a@ == b@),
{
    let n = a.unicode_len();
    if n != b.unicode_len() {
        proof {
            if a@ == b@ {
                assert(a@.len() == b@.len());
            }
        }
        return false;
    }
    let mut i: usize = 0;
    while i < n
        invariant
            i <= n,
            n == a@.len() == b@.len(),
            forall|k: int| 0 <= k < i ==> a@[k] == b@[k],
        decreases n - i,
    {
        if a.get_char(i) != b.get_char(i) {
            return false;
        }
        i += 1;
    }
    proof {
        assert(a@ =~= b@);
    }
    true
}

/// The pieces of `s` between occurrences of the line separator, in order;
/// text without a separator is one piece, and a trailing separator yields a
/// final empty piece.
pub open spec fn spec_split_lines(s: Seq<char>) -> Seq<Seq<char>>
    decreases s.len(),
    via spec_split_lines_decreases
{
    let j = find_from(s, 0, '\n');
    if j >= s.len() {
        seq![s]
    } else {
        seq![s.take(j)] + spec_split_lines(s.skip(j + 1))
    }
}

#[via_fn]
proof fn spec_split_lines_decreases(s: Seq<char>) {
    lemma_find_from_bounds(s, 0, '\n');
}

/// Splits text into its lines.
pub fn split_lines(s: &str) -> (r: Vec<String>)
    ensures
        r.deep_view() == spec_split_lines(s@),
{
    let n = s.unicode_len();
    let mut out: Vec<String> = Vec::new();
    let mut pos: usize = 0;
    let mut done = false;
    proof {
        assert(s@.skip(0) =~= s@);
        assert(out.deep_view() =~= Seq::<Seq<char>>::empty());
        assert(out.deep_view() + spec_split_lines(s@) =~= spec_split_lines(s@));
    }
    while !done
        invariant
            pos <= n,
            n == s@.len(),
            !done ==> spec_split_lines(s@) == out.deep_view() + spec_split_lines(
                s@.skip(pos as int),
            ),
            done ==> spec_split_lines(s@) == out.deep_view(),
        decreases n - pos, (if done { 0int } else { 1int }),
    {
        let j = find_char(s, pos, '\n');
        let piece = String::from_str(s.substring_char(pos, j));
        let ghost rest = s@.skip(pos as int);
        let ghost pre = out.deep_view();
        proof {
            assert forall|k: int| 0 <= k < j - pos implies rest[k] != '\n' by {
                assert(rest[k] == s@[pos + k]);
            }
            if j < n {
                assert(rest[j - pos] == s@[j as int]);
            }
            lemma_find_from_characterization(rest, 0, j - pos, '\n');
        }
        out.push(piece);
        proof {
            assert(out.deep_view() =~= pre + seq![piece@]);
        }
        if j < n {
            proof {
                assert(rest.take(j - pos) =~= s@.subrange(pos as int, j as int));
                assert(rest.skip(j - pos + 1) =~= s@.skip(j as int + 1));
                assert(spec_split_lines(rest) == seq![rest.take(j - pos)] + spec_split_lines(
                    rest.skip(j - pos + 1),
                ));
                assert(spec_split_lines(s@) =~= out.deep_view() + spec_split_lines(
                    s@.skip(j as int + 1),
                ));
            }
            pos = j + 1;
        } else {
            proof {
                assert(rest =~= s@.subrange(pos as int, n as int));
                assert(spec_split_lines(rest) =~= seq![piece@]);
                assert(spec_split_lines(s@) =~= out.deep_view());
            }
            done = true;
        }
    }
    out
}

} // verus!
