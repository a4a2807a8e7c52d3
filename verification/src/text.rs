//! Text as sequences of characters: splitting, joining, and the trailing
//! separator of a directory path.

use vstd::prelude::*;

verus! {

/// The separator between the segments of a path.
pub const SEPARATOR: char = '/';

/// `String::push` appends one character to the end of the string.
#[verifier::external_body]
pub(crate) fn push_char(s: &mut String, c: char)
    ensures
        final(s)@ == old(s)@.push(c),
{
    s.push(c)
}

/// `==` on string slices holds exactly when both hold the same characters.
#[verifier::external_body]
pub(crate) fn same_text(a: &str, b: &str) -> (same: bool)
    ensures
        same == (a@ == b@),
{
    a == b
}

/// The character sequences that a sequence of strings holds.
pub open spec fn texts(strings: Seq<String>) -> Seq<Seq<char>> {
    Seq::new(strings.len(), |i: int| strings[i]@)
}

/// The pieces of `s` between the occurrences of `sep`. There is always at
/// least one piece; pieces may be empty.
pub open spec fn split(s: Seq<char>, sep: char) -> Seq<Seq<char>>
    decreases s.len(),
{
    if s.len() == 0 {
        seq![Seq::<char>::empty()]
    } else {
        let before = split(s.drop_last(), sep);
        if s.last() == sep {
            before.push(Seq::<char>::empty())
        } else {
            before.drop_last().push(before.last().push(s.last()))
        }
    }
}

/// The pieces put together again, with `sep` between neighbours.
pub open spec fn joined(pieces: Seq<Seq<char>>, sep: char) -> Seq<char>
    decreases pieces.len(),
{
    if pieces.len() == 0 {
        Seq::<char>::empty()
    } else if pieces.len() == 1 {
        pieces[0]
    } else {
        joined(pieces.drop_last(), sep).push(sep) + pieces.last()
    }
}

/// Whether the path is written as a directory: it ends in the separator.
pub open spec fn is_dir_path(path: Seq<char>) -> bool {
    path.len() > 0 && path.last() == SEPARATOR
}

/// The path as the patterns see it: without the separator that marks a
/// directory.
pub open spec fn match_text(path: Seq<char>) -> Seq<char> {
    if is_dir_path(path) {
        path.drop_last()
    } else {
        path
    }
}

/// Splitting always yields at least one piece.
pub proof fn lemma_split_nonempty(s: Seq<char>, sep: char)
    ensures
        split(s, sep).len() >= 1,
    decreases s.len(),
{
    if s.len() > 0 {
        lemma_split_nonempty(s.drop_last(), sep);
    }
}

/// Splits a text at every occurrence of `sep`.
pub fn split_text(s: &str, sep: char) -> (pieces: Vec<String>)
    ensures
        texts(pieces@) == split(s@, sep),
{
    let mut done: Vec<String> = Vec::new();
    let mut current = String::new();
    for c in it: s.chars()
        invariant
            it.seq() == s@,
            texts(done@).push(current@) == split(s@.take(it.index() as int), sep),
    {
        let ghost seen = s@.take(it.index() as int);
        let ghost next = s@.take(it.index() + 1);
        assert(next.drop_last() == seen);
        assert(next.last() == c);
        let ghost before = texts(done@).push(current@);
        if c == sep {
            let ghost old_done = done@;
            done.push(current);
            current = String::new();
            assert(texts(done@) == before);
            assert(texts(done@).push(current@) == before.push(Seq::<char>::empty()));
        } else {
            push_char(&mut current, c);
            assert(before.drop_last() == texts(done@));
            assert(texts(done@).push(current@) == before.drop_last().push(before.last().push(c)));
        }
    }
    assert(s@.take(s@.len() as int) == s@);
    done.push(current);
    done
}

/// Joins the pieces with `sep` between neighbours.
pub fn join_texts(pieces: &Vec<String>, sep: char) -> (whole: String)
    ensures
        whole@ == joined(texts(pieces@), sep),
{
    let mut whole = String::new();
    let mut i: usize = 0;
    while i < pieces.len()
        invariant
            i <= pieces.len(),
            whole@ == joined(texts(pieces@).take(i as int), sep),
        decreases pieces.len() - i,
    {
        let ghost all = texts(pieces@);
        let ghost upto = all.take(i + 1);
        assert(upto.drop_last() == all.take(i as int));
        assert(upto.last() == pieces@[i as int]@);
        if i > 0 {
            push_char(&mut whole, sep);
        }
        whole.append(pieces[i].as_str());
        i = i + 1;
    }
    assert(texts(pieces@).take(pieces.len() as int) == texts(pieces@));
    whole
}

/// Whether the text ends in the separator.
pub fn ends_with_separator(path: &str) -> (dir: bool)
    ensures
        dir == is_dir_path(path@),
{
    let n = path.unicode_len();
    n > 0 && path.get_char(n - 1) == SEPARATOR
}

/// The path without the separator that marks a directory.
pub fn strip_separator(path: &str) -> (stripped: &str)
    ensures
        stripped@ == match_text(path@),
{
    let n = path.unicode_len();
    if n > 0 && path.get_char(n - 1) == SEPARATOR {
        path.substring_char(0, n - 1)
    } else {
        path
    }
}

} // verus!
