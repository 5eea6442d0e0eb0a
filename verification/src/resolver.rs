//! Name resolver: raw package identifiers become display names through a
//! lookup table loaded once from `package_id:display_name` lines.

use vstd::prelude::*;
use vstd::string::*;
use crate::text::{find_from, find_char, spec_split_lines, split_lines, str_eq};

verus! {

/// Spec-level image of the table: key/value pairs in file order.
pub open spec fn pairs_view(s: Seq<(String, String)>) -> Seq<(Seq<char>, Seq<char>)> {
    Seq::new(s.len(), |i: int| (s[i].0@, s[i].1@))
}

/// The pairs read from the table's lines: a line splits at its first
/// separator into key and value; a line without a separator is skipped.
pub open spec fn spec_parse_pairs(lines: Seq<Seq<char>>) -> Seq<(Seq<char>, Seq<char>)>
    decreases lines.len(),
{
    if lines.len() == 0 {
        Seq::empty()
    } else {
        let rest = spec_parse_pairs(lines.drop_first());
        let line = lines[0];
        let j = find_from(line, 0, ':');
        if j < line.len() {
            seq![(line.take(j), line.skip(j + 1))] + rest
        } else {
            rest
        }
    }
}

/// The display name recorded for a key, the last pair winning when a key
/// repeats; nothing when the key is absent.
pub open spec fn spec_lookup(entries: Seq<(Seq<char>, Seq<char>)>, key: Seq<char>) -> Option<
    Seq<char>,
>
    decreases entries.len(),
{
    if entries.len() == 0 {
        None
    } else if entries.last().0 == key {
        Some(entries.last().1)
    } else {
        spec_lookup(entries.drop_last(), key)
    }
}

/// The package-id to display-name table, read-only once built.
pub struct AppsMap {
    entries: Vec<(String, String)>,
}

impl View for AppsMap {
    type V = Seq<(Seq<char>, Seq<char>)>;

    closed spec fn view(&self) -> Seq<(Seq<char>, Seq<char>)> {
        pairs_view(self.entries@)
    }
}

impl AppsMap {
    /// Builds the table from the lookup file's content.
    pub fn new(content: &str) -> (r: AppsMap)
        ensures
            r@ == spec_parse_pairs(spec_split_lines(content@)),
    {
        let lines = split_lines(content);
        let ghost all = lines.deep_view();
        let mut entries: Vec<(String, String)> = Vec::new();
        let mut i: usize = 0;
        proof {
            assert(all.skip(0) =~= all);
            assert(pairs_view(entries@) =~= Seq::<(Seq<char>, Seq<char>)>::empty());
            assert(pairs_view(entries@) + spec_parse_pairs(all) =~= spec_parse_pairs(all));
        }
        while i < lines.len()
            invariant
                i <= lines.len(),
                all == lines.deep_view(),
                spec_parse_pairs(all) == pairs_view(entries@) + spec_parse_pairs(
                    all.skip(i as int),
                ),
            decreases lines.len() - i,
        {
            let ghost pre = pairs_view(entries@);
            let ghost remaining = all.skip(i as int);
            proof {
                assert(remaining[0] == all[i as int]);
                assert(all[i as int] == lines@[i as int]@);
                assert(remaining.drop_first() =~= all.skip(i as int + 1));
            }
            let line = &lines[i];
            let n = line.as_str().unicode_len();
            let j = find_char(line.as_str(), 0, ':');
            if j < n {
                let key = String::from_str(line.as_str().substring_char(0, j));
                let value = String::from_str(line.as_str().substring_char(j + 1, n));
                entries.push((key, value));
                proof {
                    assert(key@ =~= remaining[0].take(j as int));
                    assert(value@ =~= remaining[0].skip(j as int + 1));
                    assert(pairs_view(entries@) =~= pre + seq![(key@, value@)]);
                    assert(pre + (seq![(key@, value@)] + spec_parse_pairs(remaining.drop_first()))
                        =~= (pre + seq![(key@, value@)]) + spec_parse_pairs(
                        remaining.drop_first(),
                    ));
                }
            }
            i += 1;
        }
        proof {
            assert(all.skip(lines.len() as int) =~= Seq::<Seq<char>>::empty());
            assert(pairs_view(entries@) + Seq::<(Seq<char>, Seq<char>)>::empty() =~= pairs_view(
                entries@,
            ));
        }
        AppsMap { entries }
    }

    /// Looks a package id up; absence is not an error.
    pub fn get_app_name(&self, package: &str) -> (r: Option<&String>)
        ensures
            (match r {
                Some(v) => spec_lookup(self@, package@) == Some(v@),
                None => spec_lookup(self@, package@) is None,
            }),
    {
        let ghost all = self@;
        let mut i: usize = self.entries.len();
        proof {
            assert(all.take(i as int) =~= all);
        }
        while i > 0
            invariant
                i <= self.entries@.len(),
                all == self@,
                spec_lookup(all, package@) == spec_lookup(all.take(i as int), package@),
            decreases i,
        {
            i = i - 1;
            proof {
                assert(all.take(i as int + 1).last() == all[i as int]);
                assert(all.take(i as int + 1).drop_last() =~= all.take(i as int));
                assert(all[i as int].0 == self.entries@[i as int].0@);
            }
            if str_eq(self.entries[i].0.as_str(), package) {
                return Some(&self.entries[i].1);
            }
        }
        proof {
            assert(all.take(0) =~= Seq::<(Seq<char>, Seq<char>)>::empty());
        }
        None
    }
}

} // verus!
