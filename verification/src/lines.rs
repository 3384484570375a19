//! Cutting a text into pieces: at a separator, and into lines.

use crate::text::{
    contains, copy_range, find_from, index_of, lemma_index_of, lemma_index_of_is, occurs_at,
};
use vstd::prelude::*;

verus! {

/// The texts that a vector of character vectors holds.
pub open spec fn views(v: Seq<Vec<char>>) -> Seq<Seq<char>> {
    Seq::new(v.len(), |i: int| v[i]@)
}

/// The pieces of `s` between the occurrences of `sep`, found from left to
/// right without overlap. There is always at least one piece; with an empty
/// `sep` the only piece is `s`.
pub open spec fn split(s: Seq<char>, sep: Seq<char>) -> Seq<Seq<char>>
    decreases s.len(),
{
    match index_of(s, sep) {
        Some(i) => if sep.len() > 0 {
            proof {
                lemma_index_of(s, sep);
            }
            seq![s.subrange(0, i)] + split(s.subrange(i + sep.len(), s.len() as int), sep)
        } else {
            seq![s]
        },
        None => seq![s],
    }
}

/// A split always gives at least one piece.
pub proof fn lemma_split_nonempty(s: Seq<char>, sep: Seq<char>)
    ensures
        split(s, sep).len() >= 1,
{
}

/// The line feed, as a text of one character.
pub open spec fn newline() -> Seq<char> {
    seq!['\n']
}

/// `line` without one carriage return at its end.
pub open spec fn strip_cr(line: Seq<char>) -> Seq<char> {
    if line.len() > 0 && line.last() == '\r' {
        line.drop_last()
    } else {
        line
    }
}

/// The lines of `s`. A line ends at a line feed; the line feed, and a
/// carriage return directly before it, are not part of the line. What follows
/// the last line feed is a line only if it is not empty, and keeps a carriage
/// return at its end.
pub open spec fn lines(s: Seq<char>) -> Seq<Seq<char>>
    decreases s.len(),
{
    if s.len() == 0 {
        Seq::empty()
    } else {
        match index_of(s, newline()) {
            Some(i) => {
                proof {
                    lemma_index_of(s, newline());
                }
                seq![strip_cr(s.subrange(0, i))] + lines(s.subrange(i + 1, s.len() as int))
            },
            None => seq![s],
        }
    }
}

/// The texts of `ls` one after another, each followed by a line feed.
pub open spec fn unlines(ls: Seq<Seq<char>>) -> Seq<char>
    decreases ls.len(),
{
    if ls.len() == 0 {
        Seq::empty()
    } else {
        unlines(ls.drop_last()) + ls.last() + newline()
    }
}

/// Cuts `s` at each occurrence of `sep`, found from left to right. With an
/// empty `sep` nothing is cut.
pub fn split_on(s: &[char], sep: &[char]) -> (out: Vec<Vec<char>>)
    ensures
        views(out@) == split(s@, sep@),
{
    if sep.len() == 0 {
        let mut whole: Vec<Vec<char>> = Vec::new();
        whole.push(copy_range(s, 0, s.len()));
        proof {
            assert(s@.subrange(0, s.len() as int) =~= s@);
            assert(views(whole@) =~= seq![s@]);
        }
        return whole;
    }
    let mut out: Vec<Vec<char>> = Vec::new();
    let mut start: usize = 0;
    proof {
        assert(s@.subrange(0, s.len() as int) =~= s@);
        assert(views(out@) =~= Seq::empty());
    }
    loop
        invariant
            sep.len() > 0,
            start <= s.len(),
            split(s@, sep@) == views(out@) + split(
                s@.subrange(start as int, s.len() as int),
                sep@,
            ),
        decreases s.len() - start,
    {
        let ghost tail = s@.subrange(start as int, s.len() as int);
        let ghost before = views(out@);
        match find_from(s, sep, start) {
            Some(i) => {
                proof {
                    lemma_index_of(tail, sep@);
                }
                out.push(copy_range(s, start, i));
                proof {
                    assert(tail.subrange(0, i - start) =~= s@.subrange(start as int, i as int));
                    assert(tail.subrange(i - start + sep.len(), tail.len() as int) =~= s@.subrange(
                        i + sep.len(),
                        s.len() as int,
                    ));
                    assert(views(out@) =~= before + seq![tail.subrange(0, i - start)]);
                }
                start = i + sep.len();
            },
            None => {
                out.push(copy_range(s, start, s.len()));
                proof {
                    assert(views(out@) =~= before + seq![tail]);
                }
                return out;
            },
        }
    }
}

/// A copy of `line` without one carriage return at its end.
fn strip_cr_of(s: &[char], from: usize, to: usize) -> (out: Vec<char>)
    requires
        from <= to <= s.len(),
    ensures
        out@ == strip_cr(s@.subrange(from as int, to as int)),
{
    if from < to && s[to - 1] == '\r' {
        proof {
            assert(s@.subrange(from as int, to as int).drop_last() =~= s@.subrange(
                from as int,
                to - 1,
            ));
        }
        copy_range(s, from, to - 1)
    } else {
        copy_range(s, from, to)
    }
}

/// Cuts `s` into its lines.
pub fn lines_of(s: &[char]) -> (out: Vec<Vec<char>>)
    ensures
        views(out@) == lines(s@),
{
    let mut out: Vec<Vec<char>> = Vec::new();
    let mut start: usize = 0;
    let feed: Vec<char> = vec!['\n'];
    proof {
        assert(s@.subrange(0, s.len() as int) =~= s@);
        assert(views(out@) =~= Seq::empty());
        assert(feed@ =~= newline());
    }
    while start < s.len()
        invariant
            start <= s.len(),
            feed@ == newline(),
            lines(s@) == views(out@) + lines(s@.subrange(start as int, s.len() as int)),
        decreases s.len() - start,
    {
        let ghost tail = s@.subrange(start as int, s.len() as int);
        let ghost before = views(out@);
        match find_from(s, feed.as_slice(), start) {
            Some(i) => {
                proof {
                    lemma_index_of(tail, newline());
                }
                out.push(strip_cr_of(s, start, i));
                proof {
                    assert(tail.subrange(0, i - start) =~= s@.subrange(start as int, i as int));
                    assert(tail.subrange(i - start + 1, tail.len() as int) =~= s@.subrange(
                        i + 1,
                        s.len() as int,
                    ));
                    assert(views(out@) =~= before + seq![strip_cr(tail.subrange(0, i - start))]);
                }
                start = i + 1;
            },
            None => {
                out.push(copy_range(s, start, s.len()));
                proof {
                    assert(views(out@) =~= before + seq![tail]);
                    assert(s@.subrange(s.len() as int, s.len() as int) =~= Seq::empty());
                }
                start = s.len();
            },
        }
    }
    proof {
        assert(s@.subrange(start as int, s.len() as int).len() == 0);
    }
    out
}

/// A carriage return and a line feed, as a text of two characters.
pub open spec fn crlf() -> Seq<char> {
    seq!['\r', '\n']
}

/// A line feed occurs where the character is a line feed.
pub proof fn lemma_newline_occurs(s: Seq<char>, j: int)
    ensures
        occurs_at(s, newline(), j) <==> 0 <= j < s.len() && s[j] == '\n',
{
    if 0 <= j < s.len() {
        assert(s.subrange(j, j + 1)[0] == s[j]);
        if s[j] == '\n' {
            assert(s.subrange(j, j + 1) =~= newline());
        }
    }
}

/// A carriage return with a line feed occurs where the two characters stand.
pub proof fn lemma_crlf_occurs(s: Seq<char>, j: int)
    ensures
        occurs_at(s, crlf(), j) <==> 0 <= j && j + 1 < s.len() && s[j] == '\r' && s[j + 1]
            == '\n',
{
    if 0 <= j && j + 1 < s.len() {
        assert(s.subrange(j, j + 2)[0] == s[j]);
        assert(s.subrange(j, j + 2)[1] == s[j + 1]);
        if s[j] == '\r' && s[j + 1] == '\n' {
            assert(s.subrange(j, j + 2) =~= crlf());
        }
    }
}

/// A text without a line feed, then a line feed, then more: the first line
/// is the text in front, and the lines of the rest follow.
pub proof fn lemma_first_line(head: Seq<char>, tail: Seq<char>)
    requires
        forall|i: int| 0 <= i < head.len() ==> head[i] != '\n',
    ensures
        lines(head + newline() + tail) == seq![strip_cr(head)] + lines(tail),
{
    let whole = head + newline() + tail;
    let n = head.len() as int;
    lemma_newline_occurs(whole, n);
    assert forall|j: int| 0 <= j < n implies !occurs_at(whole, newline(), j) by {
        lemma_newline_occurs(whole, j);
    }
    lemma_index_of_is(whole, newline(), n);
    assert(whole.subrange(0, n) =~= head);
    assert(whole.subrange(n + 1, whole.len() as int) =~= tail);
}

/// `unlines` taken from the front.
pub proof fn lemma_unlines_front(first: Seq<char>, rest: Seq<Seq<char>>)
    ensures
        unlines(seq![first] + rest) == first + newline() + unlines(rest),
    decreases rest.len(),
{
    let all = seq![first] + rest;
    if rest.len() == 0 {
        assert(all.drop_last() =~= Seq::<Seq<char>>::empty());
        assert(unlines(all.drop_last()) =~= Seq::<char>::empty());
        assert(all.last() == first);
        assert(unlines(all) =~= first + newline() + unlines(rest));
    } else {
        assert(all.drop_last() =~= seq![first] + rest.drop_last());
        assert(all.last() == rest.last());
        lemma_unlines_front(first, rest.drop_last());
        assert(unlines(all) =~= first + newline() + unlines(rest));
    }
}

/// In a text where no carriage return stands before a line feed, the lines
/// put together again give the text, closed by a line feed if it was not.
pub proof fn lemma_unlines_lines(s: Seq<char>)
    requires
        !contains(s, crlf()),
    ensures
        unlines(lines(s)) == if s.len() == 0 || s.last() == '\n' {
            s
        } else {
            s + newline()
        },
    decreases s.len(),
{
    if s.len() == 0 {
        assert(unlines(lines(s)) =~= s);
    } else {
        lemma_index_of(s, newline());
        match index_of(s, newline()) {
            Some(i) => {
                lemma_newline_occurs(s, i);
                let head = s.subrange(0, i);
                let tail = s.subrange(i + 1, s.len() as int);
                if i > 0 && s[i - 1] == '\r' {
                    lemma_crlf_occurs(s, i - 1);
                    assert(occurs_at(s, crlf(), i - 1));
                }
                assert(strip_cr(head) == head);
                assert forall|j: int| !occurs_at(tail, crlf(), j) by {
                    lemma_crlf_occurs(tail, j);
                    lemma_crlf_occurs(s, i + 1 + j);
                    assert(!occurs_at(s, crlf(), i + 1 + j));
                }
                lemma_unlines_lines(tail);
                lemma_unlines_front(head, lines(tail));
                assert(head + newline() + tail =~= s);
                if tail.len() > 0 {
                    assert(tail.last() == s.last());
                }
                if tail.len() == 0 || tail.last() == '\n' {
                    assert(unlines(lines(s)) =~= s);
                } else {
                    assert(unlines(lines(s)) =~= s + newline());
                }
            },
            None => {
                assert(!occurs_at(s, newline(), s.len() - 1));
                lemma_newline_occurs(s, s.len() - 1);
                lemma_unlines_front(s, Seq::empty());
                assert(seq![s] + Seq::<Seq<char>>::empty() =~= seq![s]);
                assert(unlines(Seq::<Seq<char>>::empty()) =~= Seq::<char>::empty());
                assert(unlines(lines(s)) =~= s + newline());
            },
        }
    }
}

} // verus!
