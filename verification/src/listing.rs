//! From the lines of a listing to the paths that are checked: comments and
//! empty lines are left out, a leading `./` is taken off, and every path
//! brings the directories above it along, each path once.
//!
//! A directory is written with the separator at its end.

use crate::text::{joined, match_text, push_char, split, split_text, strip_separator, texts,
    SEPARATOR};
use vstd::hash_set::StringHashSet;
use vstd::prelude::*;

verus! {

/// The character that opens a comment line.
pub const COMMENT: char = '#';

/// Whether the line names a path: it is neither empty nor a comment.
pub open spec fn names_path(line: Seq<char>) -> bool {
    line.len() > 0 && line[0] != COMMENT
}

/// The line without a leading `./` or `.\`.
pub open spec fn without_dot(line: Seq<char>) -> Seq<char> {
    if line.len() >= 2 && line[0] == '.' && (line[1] == '/' || line[1] == '\\') {
        line.subrange(2, line.len() as int)
    } else {
        line
    }
}

/// The directory made of the first `depth` segments.
pub open spec fn dir_above(segments: Seq<Seq<char>>, depth: int) -> Seq<char> {
    joined(segments.take(depth), SEPARATOR).push(SEPARATOR)
}

/// The directories above a path, the nearest first.
pub open spec fn dirs_above(path: Seq<char>) -> Seq<Seq<char>> {
    let segments = split(match_text(path), SEPARATOR);
    Seq::new(
        (segments.len() - 1) as nat,
        |i: int| dir_above(segments, segments.len() - 1 - i),
    )
}

/// The path, then the directories above it, the nearest first. The empty
/// path gives nothing.
pub open spec fn trail(path: Seq<char>) -> Seq<Seq<char>> {
    if path.len() == 0 {
        Seq::empty()
    } else {
        seq![path] + dirs_above(path)
    }
}

/// The candidates that were not seen before, each where it first occurs.
pub open spec fn unseen(seen: Set<Seq<char>>, candidates: Seq<Seq<char>>) -> Seq<Seq<char>>
    decreases candidates.len(),
{
    if candidates.len() == 0 {
        Seq::empty()
    } else {
        let before = unseen(seen, candidates.drop_last());
        let last = candidates.last();
        if seen.contains(last) || candidates.drop_last().contains(last) {
            before
        } else {
            before.push(last)
        }
    }
}

/// The paths that the lines give, and the set of them: for every line that
/// names a path, the path and the directories above it, as far as they were
/// not seen before.
pub open spec fn gathered(lines: Seq<Seq<char>>) -> (Seq<Seq<char>>, Set<Seq<char>>)
    decreases lines.len(),
{
    if lines.len() == 0 {
        (Seq::empty(), Set::empty())
    } else {
        let (paths, seen) = gathered(lines.drop_last());
        let line = lines.last();
        if names_path(line) {
            let candidates = trail(without_dot(line));
            (paths + unseen(seen, candidates), seen.union(candidates.to_set()))
        } else {
            (paths, seen)
        }
    }
}

/// Whether the line names a path: it is neither empty nor a comment.
pub fn is_path_line(line: &str) -> (named: bool)
    ensures
        named == names_path(line@),
{
    line.unicode_len() > 0 && line.get_char(0) != COMMENT
}

/// The path that a line names: the line without a leading `./` or `.\`.
pub fn line_to_path(line: &str) -> (path: String)
    ensures
        path@ == without_dot(line@),
{
    let n = line.unicode_len();
    if n >= 2 && line.get_char(0) == '.' && (line.get_char(1) == '/' || line.get_char(1) == '\\') {
        line.substring_char(2, n).to_owned()
    } else {
        line.to_owned()
    }
}

/// The path, then the directories above it, the nearest first.
pub fn path_trail(path: &str) -> (all: Vec<String>)
    ensures
        texts(all@) == trail(path@),
{
    let mut all: Vec<String> = Vec::new();
    if path.unicode_len() == 0 {
        assert(texts(all@) =~= Seq::<Seq<char>>::empty());
        return all;
    }
    let segments = split_text(strip_separator(path), SEPARATOR);
    let ghost parts = texts(segments@);
    proof {
        crate::text::lemma_split_nonempty(match_text(path@), SEPARATOR);
    }
    let count = segments.len() - 1;
    let mut dirs: Vec<String> = Vec::new();
    let mut current = String::new();
    let mut j: usize = 0;
    while j < count
        invariant
            j <= count,
            count + 1 == segments@.len(),
            parts == texts(segments@),
            dirs@.len() == j,
            forall|d: int| 0 <= d < j ==> (#[trigger] dirs@[d])@ == dir_above(parts, d + 1),
            j > 0 ==> current@ == dir_above(parts, j as int),
            j == 0 ==> current@.len() == 0,
        decreases segments@.len() - j,
    {
        let ghost before = current@;
        current.append(segments[j].as_str());
        push_char(&mut current, SEPARATOR);
        proof {
            let upto = parts.take(j + 1);
            assert(upto.drop_last() == parts.take(j as int));
            assert(upto.last() == segments@[j as int]@);
            if j == 0 {
                assert(joined(upto, SEPARATOR) == parts[0]);
                assert(before + parts[0] == parts[0]);
            } else {
                assert(joined(upto, SEPARATOR) == joined(parts.take(j as int), SEPARATOR).push(
                    SEPARATOR,
                ) + parts[j as int]);
            }
        }
        dirs.push(current.clone());
        j = j + 1;
    }
    all.push(path.to_owned());
    let mut i: usize = 0;
    while i < count
        invariant
            i <= count,
            count == dirs@.len(),
            count + 1 == segments@.len(),
            parts == texts(segments@),
            parts == split(match_text(path@), SEPARATOR),
            forall|d: int| 0 <= d < count ==> (#[trigger] dirs@[d])@ == dir_above(parts, d + 1),
            all@.len() == i + 1,
            all@[0]@ == path@,
            forall|d: int| 0 <= d < i ==> (#[trigger] all@[d + 1])@ == dirs_above(path@)[d],
        decreases count - i,
    {
        all.push(dirs[count - 1 - i].clone());
        i = i + 1;
    }
    proof {
        let wanted = trail(path@);
        assert(wanted.len() == count + 1);
        assert forall|d: int| 0 <= d < wanted.len() implies texts(all@)[d] == wanted[d] by {
            if d > 0 {
                assert(all@[(d - 1) + 1]@ == dirs_above(path@)[d - 1]);
            }
        }
        assert(texts(all@) =~= wanted);
    }
    all
}

/// Remembers the paths that it has handed out, so that each goes out once.
pub struct DirsAdder {
    pub visited_dirs_cache: StringHashSet,
}

impl DirsAdder {
    /// An adder that has handed out nothing yet.
    pub fn new() -> (adder: DirsAdder)
        ensures
            adder.visited_dirs_cache@ == Set::<Seq<char>>::empty(),
    {
        DirsAdder { visited_dirs_cache: StringHashSet::new() }
    }

    /// The path and the directories above it, as far as they have not been
    /// handed out before; they count as handed out from now on.
    pub fn call_mut(&mut self, path: &str) -> (fresh: Vec<String>)
        ensures
            texts(fresh@) == unseen(old(self).visited_dirs_cache@, trail(path@)),
            final(self).visited_dirs_cache@ == old(self).visited_dirs_cache@.union(
                trail(path@).to_set(),
            ),
    {
        let ghost seen = self.visited_dirs_cache@;
        let candidates = path_trail(path);
        let ghost all = texts(candidates@);
        let mut fresh: Vec<String> = Vec::new();
        let mut i: usize = 0;
        while i < candidates.len()
            invariant
                i <= candidates@.len(),
                all == texts(candidates@),
                texts(fresh@) == unseen(seen, all.take(i as int)),
                self.visited_dirs_cache@ == seen.union(all.take(i as int).to_set()),
            decreases candidates@.len() - i,
        {
            let ghost upto = all.take(i + 1);
            let ghost sofar = all.take(i as int);
            let ghost before = texts(fresh@);
            assert(upto.drop_last() == sofar);
            assert(upto.last() == candidates@[i as int]@);
            let candidate = candidates[i].clone();
            let new = self.visited_dirs_cache.insert(candidate);
            if new {
                fresh.push(candidates[i].clone());
                assert(texts(fresh@) =~= before.push(candidates@[i as int]@));
            }
            proof {
                assert(new == !(seen.contains(upto.last()) || sofar.contains(upto.last())));
                assert(upto.to_set() =~= sofar.to_set().insert(upto.last())) by {
                    assert forall|x: Seq<char>| upto.to_set().contains(x) implies sofar.to_set().insert(
                        upto.last(),
                    ).contains(x) by {
                        let k = choose|k: int| 0 <= k < upto.len() && upto[k] == x;
                        if k < sofar.len() {
                            assert(sofar[k] == x);
                        }
                    }
                    assert forall|x: Seq<char>|
                        sofar.to_set().insert(upto.last()).contains(x) implies upto.to_set().contains(
                        x,
                    ) by {
                        if x == upto.last() {
                            assert(upto[upto.len() - 1] == x);
                        } else {
                            let k = choose|k: int| 0 <= k < sofar.len() && sofar[k] == x;
                            assert(upto[k] == x);
                        }
                    }
                }
                assert(self.visited_dirs_cache@ =~= seen.union(upto.to_set()));
            }
            i = i + 1;
        }
        assert(all.take(all.len() as int) == all);
        fresh
    }
}

/// The paths that the lines of a listing give: for every line that names a
/// path, the path and the directories above it, each path once.
pub fn dirs_and_files(lines: &Vec<String>) -> (paths: Vec<String>)
    ensures
        texts(paths@) == gathered(texts(lines@)).0,
{
    let ghost all = texts(lines@);
    let mut adder = DirsAdder::new();
    let mut paths: Vec<String> = Vec::new();
    let mut i: usize = 0;
    assert(texts(paths@) =~= gathered(all.take(0)).0);
    while i < lines.len()
        invariant
            i <= lines@.len(),
            all == texts(lines@),
            texts(paths@) == gathered(all.take(i as int)).0,
            adder.visited_dirs_cache@ == gathered(all.take(i as int)).1,
        decreases lines@.len() - i,
    {
        assert(all.take(i + 1).drop_last() == all.take(i as int));
        assert(all.take(i + 1).last() == lines@[i as int]@);
        let line = lines[i].as_str();
        if is_path_line(line) {
            let path = line_to_path(line);
            let mut fresh = adder.call_mut(path.as_str());
            let ghost before = texts(paths@);
            let ghost added = texts(fresh@);
            paths.append(&mut fresh);
            assert(texts(paths@) =~= before + added);
        }
        i = i + 1;
    }
    assert(all.take(all.len() as int) == all);
    paths
}

} // verus!
