//! How cutting at a separator and joining with it undo each other.

use crate::lines::split;
use crate::text::{
    contains, index_of, is_whitespace, lemma_index_of, lemma_index_of_is, lemma_trim_end_append,
    lemma_trim_end_shape, occurs_at, trim_end,
};
use vstd::prelude::*;

verus! {

/// The pieces one after another, with `sep` between each two neighbours.
pub open spec fn joined(pieces: Seq<Seq<char>>, sep: Seq<char>) -> Seq<char>
    decreases pieces.len(),
{
    if pieces.len() == 0 {
        Seq::empty()
    } else if pieces.len() == 1 {
        pieces[0]
    } else {
        pieces[0] + sep + joined(pieces.drop_first(), sep)
    }
}

/// With `sep` behind it, `piece` shows no occurrence of `sep` that starts
/// inside `piece`: a scan from the left finds the one behind it first.
pub open spec fn cut_free(piece: Seq<char>, sep: Seq<char>) -> bool {
    forall|j: int| 0 <= j < piece.len() ==> !occurs_at(piece + sep, sep, j)
}

/// The pieces are such as a split gives: each but the last is `cut_free`,
/// and the last holds no `sep`.
pub open spec fn well_cut(pieces: Seq<Seq<char>>, sep: Seq<char>) -> bool {
    &&& pieces.len() >= 1
    &&& forall|k: int| 0 <= k < pieces.len() - 1 ==> cut_free(#[trigger] pieces[k], sep)
    &&& !contains(pieces.last(), sep)
}

/// An occurrence in a text is an occurrence in every extension of it.
pub proof fn lemma_occurs_in_prefix(a: Seq<char>, b: Seq<char>, needle: Seq<char>, j: int)
    requires
        0 <= j,
        j + needle.len() <= a.len(),
    ensures
        occurs_at(a + b, needle, j) == occurs_at(a, needle, j),
{
    assert((a + b).subrange(j, j + needle.len()) =~= a.subrange(j, j + needle.len()));
}

/// Behind a `cut_free` piece and `sep`, whatever follows, the first
/// occurrence of `sep` is the one behind the piece.
pub proof fn lemma_first_cut(piece: Seq<char>, sep: Seq<char>, rest: Seq<char>)
    requires
        cut_free(piece, sep),
    ensures
        index_of(piece + sep + rest, sep) == Some(piece.len() as int),
{
    let whole = piece + sep + rest;
    let n = piece.len() as int;
    assert(whole.subrange(n, n + sep.len()) =~= sep);
    assert forall|j: int| 0 <= j < n implies !occurs_at(whole, sep, j) by {
        lemma_occurs_in_prefix(piece + sep, rest, sep, j);
    }
    lemma_index_of_is(whole, sep, n);
}

/// Cutting what was joined gives the pieces back.
pub proof fn lemma_split_joined(pieces: Seq<Seq<char>>, sep: Seq<char>)
    requires
        sep.len() > 0,
        well_cut(pieces, sep),
    ensures
        split(joined(pieces, sep), sep) == pieces,
    decreases pieces.len(),
{
    if pieces.len() == 1 {
        lemma_index_of(pieces[0], sep);
        assert(split(pieces[0], sep) =~= pieces);
    } else {
        let rest = pieces.drop_first();
        let tail = joined(rest, sep);
        let whole = pieces[0] + sep + tail;
        assert(cut_free(pieces[0], sep));
        lemma_first_cut(pieces[0], sep, tail);
        assert forall|k: int| 0 <= k < rest.len() - 1 implies cut_free(
            #[trigger] rest[k],
            sep,
        ) by {
            assert(rest[k] == pieces[k + 1]);
        }
        assert(rest.last() == pieces.last());
        lemma_split_joined(rest, sep);
        let n = pieces[0].len() as int;
        assert(whole.subrange(0, n) =~= pieces[0]);
        assert(whole.subrange(n + sep.len(), whole.len() as int) =~= tail);
        assert(seq![pieces[0]] + rest =~= pieces);
    }
}

/// Joining what was cut gives the text back, and the pieces of a split are
/// `well_cut`.
pub proof fn lemma_joined_split(s: Seq<char>, sep: Seq<char>)
    requires
        sep.len() > 0,
    ensures
        joined(split(s, sep), sep) == s,
        well_cut(split(s, sep), sep),
    decreases s.len(),
{
    lemma_index_of(s, sep);
    match index_of(s, sep) {
        Some(i) => {
            let head = s.subrange(0, i);
            let tail = s.subrange(i + sep.len(), s.len() as int);
            lemma_joined_split(tail, sep);
            let pieces = seq![head] + split(tail, sep);
            assert(pieces.drop_first() =~= split(tail, sep));
            assert(head + sep + tail =~= s);
            assert forall|j: int| 0 <= j < head.len() implies !occurs_at(head + sep, sep, j) by {
                assert(head + sep =~= s.subrange(0, i + sep.len()));
                assert(s.subrange(0, i + sep.len()) + tail =~= s);
                lemma_occurs_in_prefix(s.subrange(0, i + sep.len()), tail, sep, j);
            }
            assert forall|k: int| 0 <= k < pieces.len() - 1 implies cut_free(
                #[trigger] pieces[k],
                sep,
            ) by {
                if k > 0 {
                    assert(pieces[k] == split(tail, sep)[k - 1]);
                }
            }
            assert(pieces.last() == split(tail, sep).last());
        },
        None => {},
    }
}

/// A joined text, taken apart at one of its pieces: the pieces before it
/// joined, the piece itself, and the pieces behind it joined, with `sep`
/// wherever two of the three meet.
pub open spec fn around(pieces: Seq<Seq<char>>, sep: Seq<char>, k: int, middle: Seq<char>) -> Seq<
    char,
> {
    let before = if k > 0 {
        joined(pieces.take(k), sep) + sep
    } else {
        Seq::empty()
    };
    let behind = if k + 1 < pieces.len() {
        sep + joined(pieces.skip(k + 1), sep)
    } else {
        Seq::empty()
    };
    before + middle + behind
}

/// A joined text is what stands around any one of its pieces; with another
/// text in that piece's place it is the joined text of the pieces so changed.
pub proof fn lemma_joined_around(
    pieces: Seq<Seq<char>>,
    sep: Seq<char>,
    k: int,
    middle: Seq<char>,
)
    requires
        0 <= k < pieces.len(),
    ensures
        joined(pieces.update(k, middle), sep) == around(pieces, sep, k, middle),
    decreases pieces.len(),
{
    let changed = pieces.update(k, middle);
    if pieces.len() == 1 {
        assert(around(pieces, sep, k, middle) =~= middle);
    } else if k == 0 {
        assert(changed.drop_first() =~= pieces.skip(1));
        assert(around(pieces, sep, k, middle) =~= middle + sep + joined(pieces.skip(1), sep));
    } else {
        let rest = pieces.drop_first();
        lemma_joined_around(rest, sep, k - 1, middle);
        assert(changed.drop_first() =~= rest.update(k - 1, middle));
        assert(rest.skip(k) =~= pieces.skip(k + 1));
        let front = pieces.take(k);
        assert(front[0] == pieces[0]);
        if k == 1 {
            assert(joined(front, sep) == pieces[0]);
            assert(around(rest, sep, 0, middle) =~= middle + (if 1 < rest.len() {
                sep + joined(rest.skip(1), sep)
            } else {
                Seq::empty()
            }));
        } else {
            assert(front.drop_first() =~= rest.take(k - 1));
            assert(joined(front, sep) == pieces[0] + sep + joined(rest.take(k - 1), sep));
        }
        assert(joined(changed, sep) =~= around(pieces, sep, k, middle));
    }
}

/// Trimming the end of a joined text trims the end of its last piece and
/// leaves the pieces `well_cut`, where the separator does not end with white
/// space.
pub proof fn lemma_trim_end_joined(pieces: Seq<Seq<char>>, sep: Seq<char>)
    requires
        sep.len() > 0,
        !is_whitespace(sep.last()),
        well_cut(pieces, sep),
    ensures
        trim_end(joined(pieces, sep)) == joined(
            pieces.update(pieces.len() - 1, trim_end(pieces.last())),
            sep,
        ),
        well_cut(pieces.update(pieces.len() - 1, trim_end(pieces.last())), sep),
    decreases pieces.len(),
{
    let last = pieces.len() - 1;
    let cut = trim_end(pieces.last());
    let changed = pieces.update(last, cut);
    lemma_trim_end_shape(pieces.last());
    assert(!contains(cut, sep)) by {
        let dropped = pieces.last().subrange(cut.len() as int, pieces.last().len() as int);
        assert(cut + dropped =~= pieces.last());
        assert forall|j: int| !occurs_at(cut, sep, j) by {
            if occurs_at(cut, sep, j) {
                lemma_occurs_in_prefix(cut, dropped, sep, j);
                assert(occurs_at(pieces.last(), sep, j));
            }
        }
    }
    if pieces.len() == 1 {
        assert(changed =~= seq![cut]);
    } else {
        let rest = pieces.drop_first();
        assert forall|k: int| 0 <= k < rest.len() - 1 implies cut_free(
            #[trigger] rest[k],
            sep,
        ) by {
            assert(rest[k] == pieces[k + 1]);
        }
        assert(rest.last() == pieces.last());
        lemma_trim_end_joined(rest, sep);
        let rest_changed = rest.update(rest.len() - 1, cut);
        let head = pieces[0] + sep;
        assert(head.last() == sep.last());
        lemma_trim_end_append(head, joined(rest, sep));
        assert(changed.drop_first() =~= rest_changed);
        assert(changed[0] == pieces[0]);
        assert(joined(changed, sep) =~= head + joined(rest_changed, sep));
        assert(joined(pieces, sep) =~= head + joined(rest, sep));
        assert forall|k: int| 0 <= k < changed.len() - 1 implies cut_free(
            #[trigger] changed[k],
            sep,
        ) by {
            assert(changed[k] == pieces[k]);
        }
    }
}

} // verus!
