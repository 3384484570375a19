//! Text as a sequence of characters: searching, cutting, trimming and
//! splitting into lines, each with its mathematical definition.

use vstd::prelude::*;

verus! {

/// `needle` stands in `hay` at offset `i`.
pub open spec fn occurs_at(hay: Seq<char>, needle: Seq<char>, i: int) -> bool {
    &&& 0 <= i
    &&& i + needle.len() <= hay.len()
    &&& hay.subrange(i, i + needle.len()) == needle
}

/// `needle` stands somewhere in `hay`.
pub open spec fn contains(hay: Seq<char>, needle: Seq<char>) -> bool {
    exists|i: int| occurs_at(hay, needle, i)
}

/// `needle` stands in `hay` at offset `i` and at no smaller offset.
pub open spec fn is_first_occurrence(hay: Seq<char>, needle: Seq<char>, i: int) -> bool {
    &&& occurs_at(hay, needle, i)
    &&& forall|j: int| 0 <= j < i ==> !occurs_at(hay, needle, j)
}

/// The smallest offset at which `needle` stands in `hay`, if there is one.
pub open spec fn index_of(hay: Seq<char>, needle: Seq<char>) -> Option<int> {
    if contains(hay, needle) {
        Some(choose|i: int| is_first_occurrence(hay, needle, i))
    } else {
        None
    }
}

/// Among the offsets up to `bound` at which `needle` stands there is a smallest.
proof fn lemma_least_occurrence(hay: Seq<char>, needle: Seq<char>, bound: int)
    requires
        occurs_at(hay, needle, bound),
    ensures
        exists|i: int| is_first_occurrence(hay, needle, i),
    decreases bound,
{
    if exists|j: int| 0 <= j < bound && occurs_at(hay, needle, j) {
        let j = choose|j: int| 0 <= j < bound && occurs_at(hay, needle, j);
        lemma_least_occurrence(hay, needle, j);
    } else {
        assert(is_first_occurrence(hay, needle, bound));
    }
}

/// What `index_of` returns: the first occurrence, or `None` exactly when
/// there is no occurrence at all.
pub proof fn lemma_index_of(hay: Seq<char>, needle: Seq<char>)
    ensures
        match index_of(hay, needle) {
            Some(i) => is_first_occurrence(hay, needle, i),
            None => !contains(hay, needle),
        },
{
    if contains(hay, needle) {
        let k = choose|k: int| occurs_at(hay, needle, k);
        lemma_least_occurrence(hay, needle, k);
    }
}

/// A first occurrence is the one that `index_of` names.
pub proof fn lemma_index_of_is(hay: Seq<char>, needle: Seq<char>, i: int)
    requires
        is_first_occurrence(hay, needle, i),
    ensures
        index_of(hay, needle) == Some(i),
{
    lemma_index_of(hay, needle);
    let k = index_of(hay, needle).unwrap();
    if k < i {
        assert(!occurs_at(hay, needle, k));
    } else if i < k {
        assert(!occurs_at(hay, needle, i));
    }
}

/// `s` with its first occurrence of `pattern` replaced by `with`; `s` itself
/// where `pattern` does not occur.
pub open spec fn replace_first(s: Seq<char>, pattern: Seq<char>, with: Seq<char>) -> Seq<char> {
    match index_of(s, pattern) {
        Some(i) => s.subrange(0, i) + with + s.subrange(i + pattern.len(), s.len() as int),
        None => s,
    }
}

/// `s` without its first occurrence of `pattern`.
pub open spec fn remove_first(s: Seq<char>, pattern: Seq<char>) -> Seq<char> {
    replace_first(s, pattern, Seq::empty())
}

/// Whether `needle` stands in `hay` at offset `i`.
pub(crate) fn matches_at(hay: &[char], needle: &[char], i: usize) -> (found: bool)
    ensures
        found == occurs_at(hay@, needle@, i as int),
{
    if needle.len() > hay.len() || i > hay.len() - needle.len() {
        return false;
    }
    let mut k: usize = 0;
    while k < needle.len()
        invariant
            k <= needle.len(),
            i + needle.len() <= hay.len(),
            forall|j: int| 0 <= j < k ==> hay@[i + j] == needle@[j],
        decreases needle.len() - k,
    {
        if hay[i + k] != needle[k] {
            proof {
                assert(hay@.subrange(i as int, i + needle.len())[k as int] == hay@[i + k]);
            }
            return false;
        }
        k += 1;
    }
    proof {
        assert(hay@.subrange(i as int, i + needle.len()) =~= needle@);
    }
    true
}

/// An occurrence in a tail of `hay` is an occurrence in `hay`, shifted.
pub proof fn lemma_occurs_in_tail(hay: Seq<char>, needle: Seq<char>, start: int, i: int)
    requires
        0 <= start <= hay.len(),
    ensures
        occurs_at(hay.subrange(start, hay.len() as int), needle, i) <==> occurs_at(
            hay,
            needle,
            start + i,
        ) && 0 <= i,
{
    let tail = hay.subrange(start, hay.len() as int);
    if 0 <= i && i + needle.len() <= tail.len() {
        assert(tail.subrange(i, i + needle.len()) =~= hay.subrange(
            start + i,
            start + i + needle.len(),
        ));
    }
}

/// The offset of the first occurrence of `needle` in `hay` at or behind
/// offset `start`.
pub(crate) fn find_from(hay: &[char], needle: &[char], start: usize) -> (found: Option<usize>)
    requires
        start <= hay.len(),
    ensures
        match found {
            Some(i) => start <= i && index_of(
                hay@.subrange(start as int, hay.len() as int),
                needle@,
            ) == Some(i - start),
            None => index_of(hay@.subrange(start as int, hay.len() as int), needle@) is None,
        },
{
    let ghost tail = hay@.subrange(start as int, hay.len() as int);
    let mut i: usize = start;
    while i < hay.len()
        invariant
            start <= i <= hay.len(),
            tail == hay@.subrange(start as int, hay.len() as int),
            forall|j: int| 0 <= j < i - start ==> !occurs_at(tail, needle@, j),
        decreases hay.len() - i,
    {
        if matches_at(hay, needle, i) {
            proof {
                lemma_occurs_in_tail(hay@, needle@, start as int, i - start);
                lemma_index_of_is(tail, needle@, i - start);
            }
            return Some(i);
        }
        proof {
            lemma_occurs_in_tail(hay@, needle@, start as int, i - start);
        }
        i += 1;
    }
    proof {
        lemma_occurs_in_tail(hay@, needle@, start as int, i - start);
    }
    if matches_at(hay, needle, i) {
        proof {
            lemma_index_of_is(tail, needle@, i - start);
        }
        return Some(i);
    }
    proof {
        assert forall|j: int| !occurs_at(tail, needle@, j) by {
            if 0 <= j && j < i - start {
                assert(!occurs_at(tail, needle@, j));
            }
        }
    }
    None
}

/// The offset of the first occurrence of `needle` in `hay`.
pub fn find(hay: &[char], needle: &[char]) -> (found: Option<usize>)
    ensures
        match found {
            Some(i) => index_of(hay@, needle@) == Some(i as int),
            None => index_of(hay@, needle@) is None,
        },
{
    proof {
        assert(hay@.subrange(0, hay.len() as int) =~= hay@);
    }
    find_from(hay, needle, 0)
}

/// A copy of the characters of `s` from offset `from` up to `to`.
pub(crate) fn copy_range(s: &[char], from: usize, to: usize) -> (out: Vec<char>)
    requires
        from <= to <= s.len(),
    ensures
        out@ == s@.subrange(from as int, to as int),
{
    let mut out: Vec<char> = Vec::new();
    let mut i: usize = from;
    while i < to
        invariant
            from <= i <= to <= s.len(),
            out@ == s@.subrange(from as int, i as int),
        decreases to - i,
    {
        out.push(s[i]);
        i += 1;
    }
    out
}

/// Appends the characters of `tail` to `out`.
pub(crate) fn extend(out: &mut Vec<char>, tail: &[char])
    ensures
        final(out)@ == old(out)@ + tail@,
{
    let mut i: usize = 0;
    while i < tail.len()
        invariant
            i <= tail.len(),
            out@ == old(out)@ + tail@.subrange(0, i as int),
        decreases tail.len() - i,
    {
        out.push(tail[i]);
        i += 1;
    }
    proof {
        assert(tail@.subrange(0, tail.len() as int) =~= tail@);
    }
}

/// A copy of `s` in which the `len` characters at offset `at` give way to
/// `with`.
pub(crate) fn splice(s: &[char], at: usize, len: usize, with: &[char]) -> (out: Vec<char>)
    requires
        at + len <= s.len(),
    ensures
        out@ == s@.subrange(0, at as int) + with@ + s@.subrange(at + len, s.len() as int),
{
    let mut out = copy_range(s, 0, at);
    extend(&mut out, with);
    let rest = copy_range(s, at + len, s.len());
    extend(&mut out, rest.as_slice());
    out
}

/// Replaces the first occurrence of `pattern` in `s` by `with`. Where
/// `pattern` does not occur, the result is a copy of `s`.
pub fn replace_first_in(s: &[char], pattern: &[char], with: &[char]) -> (out: Vec<char>)
    ensures
        out@ == replace_first(s@, pattern@, with@),
{
    match find(s, pattern) {
        Some(i) => {
            proof {
                lemma_index_of(s@, pattern@);
            }
            splice(s, i, pattern.len(), with)
        },
        None => {
            let out = copy_range(s, 0, s.len());
            proof {
                assert(s@.subrange(0, s.len() as int) =~= s@);
            }
            out
        },
    }
}

/// Removes the first occurrence of `pattern` from `s`.
pub fn remove_first_in(s: &[char], pattern: &[char]) -> (out: Vec<char>)
    ensures
        out@ == remove_first(s@, pattern@),
{
    let nothing: Vec<char> = Vec::new();
    replace_first_in(s, pattern, nothing.as_slice())
}

/// The characters that count as white space: those that Unicode classes
/// as `White_Space`.
pub open spec fn is_whitespace(c: char) -> bool {
    ||| '\u{9}' <= c <= '\u{d}'
    ||| c == ' '
    ||| c == '\u{85}'
    ||| c == '\u{a0}'
    ||| c == '\u{1680}'
    ||| '\u{2000}' <= c <= '\u{200a}'
    ||| c == '\u{2028}'
    ||| c == '\u{2029}'
    ||| c == '\u{202f}'
    ||| c == '\u{205f}'
    ||| c == '\u{3000}'
}

/// `s` without its leading white space.
pub open spec fn trim_start(s: Seq<char>) -> Seq<char>
    decreases s.len(),
{
    if s.len() > 0 && is_whitespace(s[0]) {
        trim_start(s.drop_first())
    } else {
        s
    }
}

/// `s` without its trailing white space.
pub open spec fn trim_end(s: Seq<char>) -> Seq<char>
    decreases s.len(),
{
    if s.len() > 0 && is_whitespace(s.last()) {
        trim_end(s.drop_last())
    } else {
        s
    }
}

/// `s` without its leading and trailing white space.
pub open spec fn trim(s: Seq<char>) -> Seq<char> {
    trim_end(trim_start(s))
}

/// Every character of `s` is white space.
pub open spec fn all_whitespace(s: Seq<char>) -> bool {
    forall|i: int| 0 <= i < s.len() ==> is_whitespace(#[trigger] s[i])
}

/// Leading white space of length `n` is what `trim_start` cuts off.
pub proof fn lemma_trim_start_cut(s: Seq<char>, n: int)
    requires
        0 <= n <= s.len(),
        all_whitespace(s.subrange(0, n)),
        n < s.len() ==> !is_whitespace(s[n]),
    ensures
        trim_start(s) == s.subrange(n, s.len() as int),
    decreases n,
{
    if n == 0 {
        assert(s.subrange(0, s.len() as int) =~= s);
    } else {
        assert(s.subrange(0, n)[0] == s[0]);
        let t = s.drop_first();
        assert forall|i: int| 0 <= i < n - 1 implies is_whitespace(
            #[trigger] t.subrange(0, n - 1)[i],
        ) by {
            assert(s.subrange(0, n)[i + 1] == t.subrange(0, n - 1)[i]);
        }
        lemma_trim_start_cut(t, n - 1);
        assert(t.subrange(n - 1, t.len() as int) =~= s.subrange(n, s.len() as int));
    }
}

/// Trailing white space from offset `n` on is what `trim_end` cuts off.
pub proof fn lemma_trim_end_cut(s: Seq<char>, n: int)
    requires
        0 <= n <= s.len(),
        all_whitespace(s.subrange(n, s.len() as int)),
        n > 0 ==> !is_whitespace(s[n - 1]),
    ensures
        trim_end(s) == s.subrange(0, n),
    decreases s.len() - n,
{
    if n == s.len() {
        assert(s.subrange(0, s.len() as int) =~= s);
    } else {
        assert(s.subrange(n, s.len() as int)[s.len() - n - 1] == s.last());
        let t = s.drop_last();
        assert forall|i: int| 0 <= i < t.len() - n implies is_whitespace(
            #[trigger] t.subrange(n, t.len() as int)[i],
        ) by {
            assert(s.subrange(n, s.len() as int)[i] == t.subrange(n, t.len() as int)[i]);
        }
        lemma_trim_end_cut(t, n);
        assert(t.subrange(0, n) =~= s.subrange(0, n));
    }
}

/// Whether `c` is white space.
pub fn whitespace(c: char) -> (yes: bool)
    ensures
        yes == is_whitespace(c),
{
    ('\u{9}' <= c && c <= '\u{d}') || c == ' ' || c == '\u{85}' || c == '\u{a0}' || c
        == '\u{1680}' || ('\u{2000}' <= c && c <= '\u{200a}') || c == '\u{2028}' || c
        == '\u{2029}' || c == '\u{202f}' || c == '\u{205f}' || c == '\u{3000}'
}

/// The offset behind the leading white space of `s`.
fn leading_whitespace(s: &[char]) -> (n: usize)
    ensures
        n <= s.len(),
        all_whitespace(s@.subrange(0, n as int)),
        n < s.len() ==> !is_whitespace(s@[n as int]),
{
    let mut n: usize = 0;
    while n < s.len() && whitespace(s[n])
        invariant
            n <= s.len(),
            all_whitespace(s@.subrange(0, n as int)),
        decreases s.len() - n,
    {
        n += 1;
        proof {
            assert forall|i: int| 0 <= i < n implies is_whitespace(
                #[trigger] s@.subrange(0, n as int)[i],
            ) by {
                if i < n - 1 {
                    assert(s@.subrange(0, n - 1)[i] == s@[i]);
                }
            }
        }
    }
    n
}

/// The offset at which the trailing white space of `s` starts, not below `low`.
fn trailing_whitespace(s: &[char], low: usize) -> (n: usize)
    requires
        low <= s.len(),
    ensures
        low <= n <= s.len(),
        all_whitespace(s@.subrange(n as int, s.len() as int)),
        n > low ==> !is_whitespace(s@[n - 1]),
{
    let mut n: usize = s.len();
    while n > low && whitespace(s[n - 1])
        invariant
            low <= n <= s.len(),
            all_whitespace(s@.subrange(n as int, s.len() as int)),
        decreases n,
    {
        n -= 1;
        proof {
            assert forall|i: int| 0 <= i < s.len() - n implies is_whitespace(
                #[trigger] s@.subrange(n as int, s.len() as int)[i],
            ) by {
                if i > 0 {
                    assert(s@.subrange(n + 1, s.len() as int)[i - 1] == s@[n + i]);
                }
            }
        }
    }
    n
}

/// A copy of `s` without its trailing white space.
pub fn trim_end_of(s: &[char]) -> (out: Vec<char>)
    ensures
        out@ == trim_end(s@),
{
    let n: usize = trailing_whitespace(s, 0);
    proof {
        lemma_trim_end_cut(s@, n as int);
    }
    copy_range(s, 0, n)
}

/// A copy of `s` without its leading and trailing white space.
pub fn trim_of(s: &[char]) -> (out: Vec<char>)
    ensures
        out@ == trim(s@),
{
    let from: usize = leading_whitespace(s);
    let to: usize = trailing_whitespace(s, from);
    proof {
        lemma_trim_start_cut(s@, from as int);
        let t = s@.subrange(from as int, s.len() as int);
        assert(t.subrange(to - from, t.len() as int) =~= s@.subrange(
            to as int,
            s.len() as int,
        ));
        lemma_trim_end_cut(t, to - from);
        assert(t.subrange(0, to - from) =~= s@.subrange(from as int, to as int));
    }
    copy_range(s, from, to)
}

/// Whether `a` and `b` hold the same text.
pub fn same_text(a: &[char], b: &[char]) -> (same: bool)
    ensures
        same == (a@ == b@),
{
    proof {
        assert(a@.subrange(0, a.len() as int) =~= a@);
    }
    a.len() == b.len() && matches_at(a, b, 0)
}

/// `String::push` of the standard library appends the character `c` to the
/// end of `s` and leaves the characters before it as they were.
pub assume_specification[ String::push ](s: &mut String, c: char)
    ensures
        final(s)@ == old(s)@.push(c),
;

/// The characters of `s`, in order.
pub fn chars_of(s: &str) -> (out: Vec<char>)
    ensures
        out@ == s@,
{
    let mut out: Vec<char> = Vec::new();
    for c in it: s.chars()
        invariant
            out@ == it.seq().take(it.index()),
            it.seq() == s@,
    {
        out.push(c);
    }
    out
}

/// The string made of the characters of `cs`, in order.
pub fn string_of(cs: &[char]) -> (out: String)
    ensures
        out@ == cs@,
{
    let mut out = String::new();
    let mut i: usize = 0;
    while i < cs.len()
        invariant
            i <= cs.len(),
            out@ == cs@.take(i as int),
        decreases cs.len() - i,
    {
        out.push(cs[i]);
        i += 1;
    }
    out
}

/// What `trim_start` leaves is the tail of the text behind its leading
/// white space, and starts with a character that is no white space.
pub proof fn lemma_trim_start_shape(s: Seq<char>)
    ensures
        trim_start(s).len() <= s.len(),
        trim_start(s) == s.subrange(s.len() - trim_start(s).len(), s.len() as int),
        all_whitespace(s.subrange(0, s.len() - trim_start(s).len())),
        trim_start(s).len() > 0 ==> !is_whitespace(trim_start(s)[0]),
    decreases s.len(),
{
    if s.len() > 0 && is_whitespace(s[0]) {
        let t = s.drop_first();
        lemma_trim_start_shape(t);
        let n = s.len() - trim_start(s).len();
        assert(t.subrange(t.len() - trim_start(t).len(), t.len() as int) =~= s.subrange(
            n,
            s.len() as int,
        ));
        assert forall|i: int| 0 <= i < n implies is_whitespace(#[trigger] s.subrange(0, n)[i]) by {
            if i > 0 {
                assert(t.subrange(0, n - 1)[i - 1] == s[i]);
            }
        }
    } else {
        assert(s.subrange(0, s.len() as int) =~= s);
    }
}

/// What `trim_end` leaves is the head of the text in front of its trailing
/// white space, and ends with a character that is no white space.
pub proof fn lemma_trim_end_shape(s: Seq<char>)
    ensures
        trim_end(s).len() <= s.len(),
        trim_end(s) == s.subrange(0, trim_end(s).len() as int),
        all_whitespace(s.subrange(trim_end(s).len() as int, s.len() as int)),
        trim_end(s).len() > 0 ==> !is_whitespace(trim_end(s).last()),
    decreases s.len(),
{
    if s.len() > 0 && is_whitespace(s.last()) {
        let t = s.drop_last();
        lemma_trim_end_shape(t);
        let n = trim_end(s).len() as int;
        assert(t.subrange(0, n) =~= s.subrange(0, n));
        assert forall|i: int| 0 <= i < s.len() - n implies is_whitespace(
            #[trigger] s.subrange(n, s.len() as int)[i],
        ) by {
            if i < s.len() - n - 1 {
                assert(t.subrange(n, t.len() as int)[i] == s[n + i]);
            }
        }
    } else {
        assert(s.subrange(0, s.len() as int) =~= s);
    }
}

/// A trimmed text that is not empty neither starts nor ends with white
/// space.
pub proof fn lemma_trimmed_ends(s: Seq<char>)
    requires
        trim(s) == s,
        s.len() > 0,
    ensures
        !is_whitespace(s[0]),
        !is_whitespace(s.last()),
{
    lemma_trim_start_shape(s);
    lemma_trim_end_shape(trim_start(s));
    assert(trim_start(s).len() == s.len());
    assert(trim_start(s) =~= s);
}

/// Behind a text that ends with a character that is no white space,
/// trimming the end of the whole trims the end of what follows.
pub proof fn lemma_trim_end_append(head: Seq<char>, tail: Seq<char>)
    requires
        head.len() > 0,
        !is_whitespace(head.last()),
    ensures
        trim_end(head + tail) == head + trim_end(tail),
    decreases tail.len(),
{
    let whole = head + tail;
    if tail.len() == 0 {
        assert(whole =~= head);
        assert(head + trim_end(tail) =~= head);
    } else if is_whitespace(tail.last()) {
        assert(whole.last() == tail.last());
        assert(whole.drop_last() =~= head + tail.drop_last());
        lemma_trim_end_append(head, tail.drop_last());
    } else {
        assert(whole.last() == tail.last());
    }
}

/// To trim a text whose end was trimmed before is to trim the text.
pub proof fn lemma_trim_of_trim_end(s: Seq<char>)
    ensures
        trim(trim_end(s)) == trim(s),
{
    lemma_trim_start_shape(s);
    lemma_trim_end_shape(s);
    let a = s.len() - trim_start(s).len();
    let b = trim_end(s).len() as int;
    let cut = trim_end(s);
    if a >= b {
        if b > 0 {
            assert(s.subrange(0, a)[b - 1] == s[b - 1]);
            assert(cut.last() == s[b - 1]);
        }
        assert(b == 0);
        assert(cut =~= Seq::<char>::empty());
        if a < s.len() {
            assert(trim_start(s)[0] == s[a]);
            assert(s.subrange(b, s.len() as int)[a] == s[a]);
        }
        assert(trim_start(s) =~= Seq::<char>::empty());
    } else {
        assert(trim_start(s)[0] == s[a]);
        assert(cut.last() == s[b - 1]);
        assert forall|i: int| 0 <= i < a implies is_whitespace(
            #[trigger] cut.subrange(0, a)[i],
        ) by {
            assert(s.subrange(0, a)[i] == s[i]);
        }
        lemma_trim_start_cut(cut, a);
        let core = s.subrange(a, b);
        assert(cut.subrange(a, cut.len() as int) =~= core);
        assert(core.last() == s[b - 1]);
        assert(core.subrange(core.len() as int, core.len() as int) =~= Seq::<char>::empty());
        lemma_trim_end_cut(core, core.len() as int);
        assert(core.subrange(0, core.len() as int) =~= core);
        let tail = trim_start(s);
        assert forall|i: int| 0 <= i < tail.len() - (b - a) implies is_whitespace(
            #[trigger] tail.subrange(b - a, tail.len() as int)[i],
        ) by {
            assert(s.subrange(b, s.len() as int)[i] == s[b + i]);
        }
        assert(tail[b - a - 1] == s[b - 1]);
        lemma_trim_end_cut(tail, b - a);
        assert(tail.subrange(0, b - a) =~= core);
    }
}

/// Where a text `x` without `needle` is followed by a `glue` that does not
/// hold the first character of `needle`, and whose own first character
/// `needle` does not hold, no occurrence of `needle` starts in `x` or in
/// `glue`, whatever follows them.
pub proof fn lemma_no_start_before(
    x: Seq<char>,
    glue: Seq<char>,
    rest: Seq<char>,
    needle: Seq<char>,
    j: int,
)
    requires
        needle.len() > 0,
        glue.len() > 0,
        !contains(x, needle),
        forall|i: int| 0 <= i < glue.len() ==> glue[i] != needle[0],
        forall|i: int| 0 <= i < needle.len() ==> needle[i] != glue[0],
        occurs_at(x + glue + rest, needle, j),
    ensures
        j >= x.len() + glue.len(),
{
    let whole = x + glue + rest;
    let found = whole.subrange(j, j + needle.len());
    if j < x.len() {
        if j + needle.len() <= x.len() {
            assert(x.subrange(j, j + needle.len()) =~= found);
            assert(occurs_at(x, needle, j));
        } else {
            assert(found[x.len() - j] == whole[x.len() as int]);
            assert(whole[x.len() as int] == glue[0]);
        }
    } else if j < x.len() + glue.len() {
        assert(found[0] == whole[j]);
        assert(whole[j] == glue[j - x.len()]);
    }
}

} // verus!
