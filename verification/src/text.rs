//! Character-sequence operations on which the journal logic is built, each
//! stated over `Seq<char>` exactly as the corresponding `str` method behaves.

use vstd::prelude::*;

verus! {

/// `String::push` appends one character.
pub assume_specification[ String::push ](s: &mut String, ch: char)
    ensures
        final(s)@ == old(s)@.push(ch),
;

/// The characters of a string, in order.
pub fn chars_of(s: &str) -> (v: Vec<char>)
    ensures
        v@ == s@,
{
    let mut v: Vec<char> = Vec::new();
    for c in it: s.chars()
        invariant
            v@ == it.seq().take(it.index() as int),
            it.seq() == s@,
    {
        v.push(c);
    }
    v
}

/// The string made of the given characters.
pub fn string_of(v: &Vec<char>) -> (s: String)
    ensures
        s@ == v@,
{
    let mut s = String::new();
    let n = v.len();
    let mut i: usize = 0;
    while i < n
        invariant
            n == v.len(),
            i <= n,
            s@ == v@.take(i as int),
        decreases n - i,
    {
        s.push(v[i]);
        assert(v@.take(i as int).push(v@[i as int]) =~= v@.take(i + 1));
        i += 1;
    }
    assert(v@.take(n as int) =~= v@);
    s
}


/// Whether `c` has the Unicode `White_Space` property, which is what
/// `char::is_whitespace` tests.
pub open spec fn is_space(c: char) -> bool {
    ||| ('\u{9}' <= c && c <= '\u{d}')
    ||| c == ' '
    ||| c == '\u{85}'
    ||| c == '\u{a0}'
    ||| c == '\u{1680}'
    ||| ('\u{2000}' <= c && c <= '\u{200a}')
    ||| c == '\u{2028}'
    ||| c == '\u{2029}'
    ||| c == '\u{202f}'
    ||| c == '\u{205f}'
    ||| c == '\u{3000}'
}

/// `s` without its leading white space (`str::trim_start`).
pub open spec fn trim_start(s: Seq<char>) -> Seq<char>
    decreases s.len(),
{
    if s.len() > 0 && is_space(s[0]) {
        trim_start(s.drop_first())
    } else {
        s
    }
}

/// `s` without its trailing white space (`str::trim_end`).
pub open spec fn trim_end(s: Seq<char>) -> Seq<char>
    decreases s.len(),
{
    if s.len() > 0 && is_space(s.last()) {
        trim_end(s.drop_last())
    } else {
        s
    }
}

/// `s` without leading and trailing white space (`str::trim`).
pub open spec fn trim(s: Seq<char>) -> Seq<char> {
    trim_end(trim_start(s))
}

/// `char::is_whitespace`.
pub fn is_space_char(c: char) -> (b: bool)
    ensures
        b == is_space(c),
{
    ('\u{9}' <= c && c <= '\u{d}') || c == ' ' || c == '\u{85}' || c == '\u{a0}' || c == '\u{1680}'
        || ('\u{2000}' <= c && c <= '\u{200a}') || c == '\u{2028}' || c == '\u{2029}'
        || c == '\u{202f}' || c == '\u{205f}' || c == '\u{3000}'
}

/// The characters of `s` from `lo` up to `hi`.
pub fn slice_chars(s: &Vec<char>, lo: usize, hi: usize) -> (r: Vec<char>)
    requires
        lo <= hi <= s.len(),
    ensures
        r@ == s@.subrange(lo as int, hi as int),
{
    let mut r: Vec<char> = Vec::new();
    let mut i = lo;
    while i < hi
        invariant
            lo <= i <= hi <= s.len(),
            r@ == s@.subrange(lo as int, i as int),
        decreases hi - i,
    {
        r.push(s[i]);
        assert(s@.subrange(lo as int, i as int).push(s@[i as int]) =~= s@.subrange(lo as int, i + 1));
        i += 1;
    }
    r
}

proof fn lemma_trim_start_skip(s: Seq<char>, i: int)
    requires
        0 <= i <= s.len(),
        forall|k: int| 0 <= k < i ==> is_space(#[trigger] s[k]),
    ensures
        trim_start(s) == trim_start(s.skip(i)),
    decreases i,
{
    if i > 0 {
        assert(s.skip(1) =~= s.drop_first());
        lemma_trim_start_skip(s.drop_first(), i - 1);
        assert(s.drop_first().skip(i - 1) =~= s.skip(i));
    } else {
        assert(s.skip(0) =~= s);
    }
}

proof fn lemma_trim_end_take(s: Seq<char>, j: int)
    requires
        0 <= j <= s.len(),
        forall|k: int| j <= k < s.len() ==> is_space(#[trigger] s[k]),
    ensures
        trim_end(s) == trim_end(s.take(j)),
    decreases s.len() - j,
{
    if j < s.len() {
        assert(s.take(s.len() - 1) =~= s.drop_last());
        lemma_trim_end_take(s.drop_last(), j);
        assert(s.drop_last().take(j) =~= s.take(j));
    } else {
        assert(s.take(j) =~= s);
    }
}

/// Returns the bounds `(lo, hi)` such that `trim(s)` is `s[lo..hi]`.
pub fn trim_bounds(s: &Vec<char>) -> (r: (usize, usize))
    ensures
        r.0 <= r.1 <= s.len(),
        trim(s@) == s@.subrange(r.0 as int, r.1 as int),
{
    let n = s.len();
    let mut lo: usize = 0;
    while lo < n && is_space_char(s[lo])
        invariant
            lo <= n == s.len(),
            forall|k: int| 0 <= k < lo ==> is_space(#[trigger] s@[k]),
        decreases n - lo,
    {
        lo += 1;
    }
    proof {
        lemma_trim_start_skip(s@, lo as int);
    }
    let ghost t = s@.skip(lo as int);
    // trim_start(s@) == t, and t is empty or starts with a non-space.
    let mut hi: usize = n;
    while hi > lo && is_space_char(s[hi - 1])
        invariant
            lo <= hi <= n == s.len(),
            t == s@.skip(lo as int),
            forall|k: int| hi <= k < n ==> is_space(#[trigger] s@[k]),
        decreases hi - lo,
    {
        hi -= 1;
    }
    proof {
        assert(trim_start(t) == t);
        lemma_trim_end_take(t, hi - lo);
        assert(t.take(hi - lo) =~= s@.subrange(lo as int, hi as int));
        let u = s@.subrange(lo as int, hi as int);
        assert(trim_end(u) == u);
    }
    (lo, hi)
}

/// `str::trim` on a character sequence.
pub fn trim_chars(s: &Vec<char>) -> (r: Vec<char>)
    ensures
        r@ == trim(s@),
{
    let (lo, hi) = trim_bounds(s);
    slice_chars(s, lo, hi)
}


/// `p` occurs in `s` starting at index `i`.
pub open spec fn matches_at(s: Seq<char>, p: Seq<char>, i: int) -> bool {
    0 <= i && i + p.len() <= s.len() && s.subrange(i, i + p.len()) == p
}

/// `i` is the leftmost occurrence of `p` in `s`.
pub open spec fn is_first_match(s: Seq<char>, p: Seq<char>, i: int) -> bool {
    matches_at(s, p, i) && forall|j: int| 0 <= j < i ==> !matches_at(s, p, j)
}

/// `i` is the rightmost occurrence of `p` in `s`.
pub open spec fn is_last_match(s: Seq<char>, p: Seq<char>, i: int) -> bool {
    matches_at(s, p, i) && forall|j: int| i < j ==> !matches_at(s, p, j)
}

/// `p` occurs somewhere in `s` (`str::contains`).
pub open spec fn contains(s: Seq<char>, p: Seq<char>) -> bool {
    exists|i: int| matches_at(s, p, i)
}

/// `str::starts_with`.
pub open spec fn starts_with(s: Seq<char>, p: Seq<char>) -> bool {
    matches_at(s, p, 0)
}

/// `str::ends_with`.
pub open spec fn ends_with(s: Seq<char>, p: Seq<char>) -> bool {
    matches_at(s, p, s.len() - p.len())
}

/// The pieces of `s` between the occurrences of `p`, found from the left
/// (`str::split` with a non-empty string pattern).
#[verifier::opaque]
pub open spec fn split_on(s: Seq<char>, p: Seq<char>) -> Seq<Seq<char>>
    decreases s.len(),
{
    if p.len() > 0 && exists|i: int| is_first_match(s, p, i) {
        let i = choose|i: int| is_first_match(s, p, i);
        seq![s.take(i)] + split_on(s.skip(i + p.len()), p)
    } else {
        seq![s]
    }
}

/// The pieces joined with `sep` between them (`[String]::join`).
pub open spec fn join(pieces: Seq<Seq<char>>, sep: Seq<char>) -> Seq<char>
    decreases pieces.len(),
{
    if pieces.len() == 0 {
        Seq::empty()
    } else if pieces.len() == 1 {
        pieces[0]
    } else {
        join(pieces.drop_last(), sep) + sep + pieces.last()
    }
}

/// Every occurrence of `from` in `s` replaced by `to` (`str::replace` with a
/// non-empty `from`).
pub open spec fn replace(s: Seq<char>, from: Seq<char>, to: Seq<char>) -> Seq<char> {
    join(split_on(s, from), to)
}

proof fn lemma_first_match_unique(s: Seq<char>, p: Seq<char>, i: int, j: int)
    requires
        is_first_match(s, p, i),
        is_first_match(s, p, j),
    ensures
        i == j,
{
    if i < j {
        assert(!matches_at(s, p, i));
    } else if j < i {
        assert(!matches_at(s, p, j));
    }
}

/// Two rightmost occurrences are the same.
pub proof fn lemma_last_match_unique(s: Seq<char>, p: Seq<char>, i: int, j: int)
    requires
        is_last_match(s, p, i),
        is_last_match(s, p, j),
    ensures
        i == j,
{
    if i < j {
        assert(!matches_at(s, p, j));
    } else if j < i {
        assert(!matches_at(s, p, i));
    }
}

/// At a leftmost occurrence, `split_on` cuts off the piece before it.
pub proof fn lemma_split_step(s: Seq<char>, p: Seq<char>, i: int)
    requires
        p.len() > 0,
        is_first_match(s, p, i),
    ensures
        split_on(s, p) == seq![s.take(i)] + split_on(s.skip(i + p.len()), p),
{
    reveal(split_on);
    let k = choose|k: int| is_first_match(s, p, k);
    lemma_first_match_unique(s, p, i, k);
}

/// Without an occurrence, `split_on` gives the whole sequence.
pub proof fn lemma_split_none(s: Seq<char>, p: Seq<char>)
    requires
        forall|j: int| !matches_at(s, p, j),
    ensures
        split_on(s, p) == seq![s],
{
    reveal(split_on);
}

/// `p` occurs in `s` at `i`.
pub fn matches_at_exec(s: &Vec<char>, p: &Vec<char>, i: usize) -> (b: bool)
    ensures
        b == matches_at(s@, p@, i as int),
{
    if i > s.len() || p.len() > s.len() - i {
        return false;
    }
    let mut k: usize = 0;
    while k < p.len()
        invariant
            i + p.len() <= s.len(),
            k <= p.len(),
            forall|m: int| 0 <= m < k ==> s@[i + m] == p@[m],
        decreases p.len() - k,
    {
        if s[i + k] != p[k] {
            assert(s@.subrange(i as int, i + p.len())[k as int] != p@[k as int]);
            return false;
        }
        k += 1;
    }
    assert(s@.subrange(i as int, i + p.len()) =~= p@);
    true
}

/// `str::split` with a non-empty pattern.
pub fn split_chars(s: &Vec<char>, p: &Vec<char>) -> (r: Vec<Vec<char>>)
    requires
        p.len() > 0,
    ensures
        r@.map_values(|v: Vec<char>| v@) == split_on(s@, p@),
{
    let mut r: Vec<Vec<char>> = Vec::new();
    let n = s.len();
    let mut start: usize = 0;
    let mut i: usize = 0;
    proof {
        assert(s@.skip(0) =~= s@);
        assert(r@.map_values(|v: Vec<char>| v@) + split_on(s@, p@) =~= split_on(s@, p@));
    }
    while i < n
        invariant
            n == s.len(),
            p.len() > 0,
            start <= i <= n,
            split_on(s@, p@) == r@.map_values(|v: Vec<char>| v@) + split_on(s@.skip(start as int), p@),
            forall|j: int| start <= j < i ==> !matches_at(s@, p@, j),
        decreases n - i,
    {
        let ghost rest = s@.skip(start as int);
        if matches_at_exec(s, p, i) {
            proof {
                assert forall|j: int| 0 <= j < i - start implies !matches_at(rest, p@, j) by {
                    assert(rest.subrange(j, j + p@.len()) =~= s@.subrange(start + j, start + j + p@.len()));
                    assert(!matches_at(s@, p@, start + j));
                }
                assert(rest.subrange(i - start, i - start + p@.len()) =~= s@.subrange(i as int, i + p@.len()));
                assert(is_first_match(rest, p@, i - start));
                lemma_split_step(rest, p@, i - start);
                assert(rest.take(i - start) =~= s@.subrange(start as int, i as int));
                assert(rest.skip(i - start + p@.len()) =~= s@.skip(i + p@.len()));
            }
            let piece = slice_chars(s, start, i);
            let ghost before = r@;
            r.push(piece);
            proof {
                assert(r@.map_values(|v: Vec<char>| v@) =~= before.map_values(|v: Vec<char>| v@).push(piece@));
            }
            i = i + p.len();
            start = i;
        } else {
            i = i + 1;
        }
    }
    let ghost rest = s@.skip(start as int);
    proof {
        assert forall|j: int| !matches_at(rest, p@, j) by {
            if matches_at(rest, p@, j) {
                assert(rest.subrange(j, j + p@.len()) =~= s@.subrange(start + j, start + j + p@.len()));
                assert(matches_at(s@, p@, start + j));
            }
        }
        lemma_split_none(rest, p@);
    }
    let last = slice_chars(s, start, n);
    let ghost before = r@;
    r.push(last);
    proof {
        assert(last@ =~= rest);
        assert(r@.map_values(|v: Vec<char>| v@) =~= before.map_values(|v: Vec<char>| v@).push(last@));
    }
    r
}


/// Appends the characters of `x` to `r`.
pub fn append_chars(r: &mut Vec<char>, x: &Vec<char>)
    ensures
        final(r)@ == old(r)@ + x@,
{
    let ghost r0 = r@;
    let mut i: usize = 0;
    while i < x.len()
        invariant
            i <= x.len(),
            r@ == r0 + x@.take(i as int),
        decreases x.len() - i,
    {
        r.push(x[i]);
        assert(r0 + x@.take(i as int).push(x@[i as int]) =~= r0 + x@.take(i + 1));
        i += 1;
    }
    assert(x@.take(x.len() as int) =~= x@);
}

/// Appends the characters of `x` to `r`.
pub fn append_str(r: &mut Vec<char>, x: &str)
    ensures
        final(r)@ == old(r)@ + x@,
{
    let v = chars_of(x);
    append_chars(r, &v);
}

/// `[..].join(sep)` on character sequences.
pub fn join_chars(pieces: &Vec<Vec<char>>, sep: &Vec<char>) -> (r: Vec<char>)
    ensures
        r@ == join(pieces@.map_values(|v: Vec<char>| v@), sep@),
{
    let ghost ps = pieces@.map_values(|v: Vec<char>| v@);
    let mut r: Vec<char> = Vec::new();
    let mut i: usize = 0;
    while i < pieces.len()
        invariant
            i <= pieces.len(),
            ps == pieces@.map_values(|v: Vec<char>| v@),
            r@ == join(ps.take(i as int), sep@),
        decreases pieces.len() - i,
    {
        proof {
            assert(ps.take(i + 1).drop_last() =~= ps.take(i as int));
        }
        if i > 0 {
            append_chars(&mut r, sep);
        }
        append_chars(&mut r, &pieces[i]);
        proof {
            if i == 0 {
                assert(r@ =~= ps.take(1)[0]);
            }
        }
        i += 1;
    }
    assert(ps.take(pieces.len() as int) =~= ps);
    r
}

/// `str::replace` with a non-empty pattern.
pub fn replace_chars(s: &Vec<char>, from: &Vec<char>, to: &Vec<char>) -> (r: Vec<char>)
    requires
        from.len() > 0,
    ensures
        r@ == replace(s@, from@, to@),
{
    let pieces = split_chars(s, from);
    join_chars(&pieces, to)
}

/// `str::starts_with`.
pub fn starts_with_chars(s: &Vec<char>, p: &Vec<char>) -> (b: bool)
    ensures
        b == starts_with(s@, p@),
{
    matches_at_exec(s, p, 0)
}

/// `str::ends_with`.
pub fn ends_with_chars(s: &Vec<char>, p: &Vec<char>) -> (b: bool)
    ensures
        b == ends_with(s@, p@),
{
    if p.len() > s.len() {
        false
    } else {
        matches_at_exec(s, p, s.len() - p.len())
    }
}

/// The leftmost occurrence of `p` in `s`, if any (`str::find`).
pub fn find_first(s: &Vec<char>, p: &Vec<char>) -> (r: Option<usize>)
    ensures
        match r {
            Some(i) => is_first_match(s@, p@, i as int),
            None => forall|j: int| !matches_at(s@, p@, j),
        },
{
    let mut i: usize = 0;
    while i < s.len()
        invariant
            i <= s.len(),
            forall|j: int| 0 <= j < i ==> !matches_at(s@, p@, j),
        decreases s.len() - i,
    {
        if matches_at_exec(s, p, i) {
            return Some(i);
        }
        i += 1;
    }
    if matches_at_exec(s, p, i) {
        return Some(i);
    }
    assert forall|j: int| !matches_at(s@, p@, j) by {
        if j > s.len() {
            assert(!matches_at(s@, p@, j));
        }
    }
    None
}

/// The rightmost occurrence of `p` in `s`, if any (`str::rfind`).
pub fn find_last(s: &Vec<char>, p: &Vec<char>) -> (r: Option<usize>)
    ensures
        match r {
            Some(i) => is_last_match(s@, p@, i as int),
            None => forall|j: int| !matches_at(s@, p@, j),
        },
{
    if p.len() > s.len() {
        return None;
    }
    if p.len() == 0 {
        assert(s@.subrange(s.len() as int, s.len() as int) =~= p@);
        return Some(s.len());
    }
    let mut i: usize = s.len() - p.len() + 1;
    while i > 0
        invariant
            i <= s.len() - p.len() + 1,
            p.len() <= s.len(),
            forall|j: int| i <= j ==> !matches_at(s@, p@, j),
        decreases i,
    {
        if matches_at_exec(s, p, i - 1) {
            return Some(i - 1);
        }
        i -= 1;
    }
    None
}

/// `str::contains`.
pub fn contains_chars(s: &Vec<char>, p: &Vec<char>) -> (b: bool)
    ensures
        b == contains(s@, p@),
{
    match find_first(s, p) {
        Some(i) => true,
        None => false,
    }
}

/// A line without the `'\r'` that ended it, as `str::lines` gives it.
pub open spec fn strip_cr(l: Seq<char>) -> Seq<char> {
    if l.len() > 0 && l.last() == '\r' {
        l.drop_last()
    } else {
        l
    }
}

/// The lines of `s` (`str::lines`): split at each `'\n'`, a `'\r'` before the
/// `'\n'` removed, and no empty last line after a final `'\n'`.
pub open spec fn lines(s: Seq<char>) -> Seq<Seq<char>>
    decreases s.len(),
{
    if s.len() == 0 {
        Seq::empty()
    } else if exists|i: int| is_first_match(s, seq!['\n'], i) {
        let i = choose|i: int| is_first_match(s, seq!['\n'], i);
        seq![strip_cr(s.take(i))] + lines(s.skip(i + 1))
    } else {
        seq![s]
    }
}

/// `str::lines`.
pub fn lines_chars(s: &Vec<char>) -> (r: Vec<Vec<char>>)
    ensures
        r@.map_values(|v: Vec<char>| v@) == lines(s@),
{
    let nl: Vec<char> = vec!['\n'];
    let mut r: Vec<Vec<char>> = Vec::new();
    let n = s.len();
    let mut start: usize = 0;
    let mut i: usize = 0;
    proof {
        assert(s@.skip(0) =~= s@);
        assert(r@.map_values(|v: Vec<char>| v@) + lines(s@) =~= lines(s@));
    }
    while i < n
        invariant
            n == s.len(),
            nl@ == seq!['\n'],
            start <= i <= n,
            lines(s@) == r@.map_values(|v: Vec<char>| v@) + lines(s@.skip(start as int)),
            forall|j: int| start <= j < i ==> s@[j] != '\n',
        decreases n - i,
    {
        let ghost rest = s@.skip(start as int);
        if s[i] == '\n' {
            proof {
                assert forall|j: int| 0 <= j < i - start implies !matches_at(rest, nl@, j) by {
                    if matches_at(rest, nl@, j) {
                        assert(rest.subrange(j, j + 1)[0] == rest[j]);
                    }
                }
                assert(rest.subrange(i - start, i - start + 1) =~= nl@);
                assert(is_first_match(rest, nl@, i - start));
                let k = choose|k: int| is_first_match(rest, seq!['\n'], k);
                lemma_first_match_unique(rest, nl@, i - start, k);
                assert(rest.take(i - start) =~= s@.subrange(start as int, i as int));
                assert(rest.skip(i - start + 1) =~= s@.skip(i + 1));
            }
            let mut line = slice_chars(s, start, i);
            if line.len() > 0 && line[line.len() - 1] == '\r' {
                line.pop();
                assert(line@ =~= s@.subrange(start as int, i as int).drop_last());
            }
            let ghost before = r@;
            r.push(line);
            proof {
                assert(r@.map_values(|v: Vec<char>| v@) =~= before.map_values(|v: Vec<char>| v@).push(line@));
            }
            i = i + 1;
            start = i;
        } else {
            i = i + 1;
        }
    }
    let ghost rest = s@.skip(start as int);
    if start < n {
        proof {
            assert forall|j: int| !is_first_match(rest, nl@, j) by {
                if matches_at(rest, nl@, j) {
                    assert(rest.subrange(j, j + 1)[0] == rest[j]);
                }
            }
        }
        let last = slice_chars(s, start, n);
        let ghost before = r@;
        r.push(last);
        proof {
            assert(last@ =~= rest);
            assert(r@.map_values(|v: Vec<char>| v@) =~= before.map_values(|v: Vec<char>| v@).push(last@));
        }
    } else {
        assert(rest.len() == 0);
        assert(r@.map_values(|v: Vec<char>| v@) + lines(rest) =~= r@.map_values(|v: Vec<char>| v@));
    }
    r
}


/// `str::trim_start_matches` with a non-empty pattern: every leading
/// occurrence of `p` removed.
pub open spec fn trim_start_matches(s: Seq<char>, p: Seq<char>) -> Seq<char>
    decreases s.len(),
{
    if p.len() > 0 && starts_with(s, p) {
        trim_start_matches(s.skip(p.len() as int), p)
    } else {
        s
    }
}

/// `str::trim_end_matches` with a non-empty pattern: every trailing
/// occurrence of `p` removed.
pub open spec fn trim_end_matches(s: Seq<char>, p: Seq<char>) -> Seq<char>
    decreases s.len(),
{
    if p.len() > 0 && ends_with(s, p) {
        trim_end_matches(s.take(s.len() - p.len()), p)
    } else {
        s
    }
}

/// `str::trim_start_matches`.
pub fn trim_start_matches_chars(s: &Vec<char>, p: &Vec<char>) -> (r: Vec<char>)
    ensures
        r@ == trim_start_matches(s@, p@),
{
    let mut cur = slice_chars(s, 0, s.len());
    assert(cur@ =~= s@);
    while p.len() > 0 && starts_with_chars(&cur, p)
        invariant
            trim_start_matches(s@, p@) == trim_start_matches(cur@, p@),
        decreases cur.len(),
    {
        cur = slice_chars(&cur, p.len(), cur.len());
    }
    cur
}

/// `str::trim_end_matches`.
pub fn trim_end_matches_chars(s: &Vec<char>, p: &Vec<char>) -> (r: Vec<char>)
    ensures
        r@ == trim_end_matches(s@, p@),
{
    let mut cur = slice_chars(s, 0, s.len());
    assert(cur@ =~= s@);
    while p.len() > 0 && ends_with_chars(&cur, p)
        invariant
            trim_end_matches(s@, p@) == trim_end_matches(cur@, p@),
        decreases cur.len(),
    {
        cur = slice_chars(&cur, 0, cur.len() - p.len());
    }
    cur
}

/// Lexicographic order of character sequences by code point, which is the
/// order `Ord for str` gives (UTF-8 keeps code point order byte by byte).
pub open spec fn lex_le(a: Seq<char>, b: Seq<char>) -> bool
    decreases a.len(),
{
    if a.len() == 0 {
        true
    } else if b.len() == 0 {
        false
    } else if a[0] != b[0] {
        a[0] < b[0]
    } else {
        lex_le(a.drop_first(), b.drop_first())
    }
}

/// String order is total.
pub proof fn lemma_lex_le_total(a: Seq<char>, b: Seq<char>)
    ensures
        lex_le(a, b) || lex_le(b, a),
    decreases a.len(),
{
    if a.len() > 0 && b.len() > 0 && a[0] == b[0] {
        lemma_lex_le_total(a.drop_first(), b.drop_first());
    }
}

/// Strings ordered both ways are equal.
pub proof fn lemma_lex_le_antisymmetric(a: Seq<char>, b: Seq<char>)
    requires
        lex_le(a, b),
        lex_le(b, a),
    ensures
        a == b,
    decreases a.len(),
{
    if a.len() > 0 {
        lemma_lex_le_antisymmetric(a.drop_first(), b.drop_first());
        assert(a =~= seq![a[0]] + a.drop_first());
        assert(b =~= seq![b[0]] + b.drop_first());
    } else {
        assert(b.len() == 0);
        assert(a =~= b);
    }
}

/// String order is transitive.
pub proof fn lemma_lex_le_transitive(a: Seq<char>, b: Seq<char>, c: Seq<char>)
    requires
        lex_le(a, b),
        lex_le(b, c),
    ensures
        lex_le(a, c),
    decreases a.len(),
{
    if a.len() > 0 && b.len() > 0 && c.len() > 0 && a[0] == b[0] && b[0] == c[0] {
        lemma_lex_le_transitive(a.drop_first(), b.drop_first(), c.drop_first());
    }
}

/// Every string comes at or before itself.
pub proof fn lemma_lex_le_reflexive(a: Seq<char>)
    ensures
        lex_le(a, a),
    decreases a.len(),
{
    if a.len() > 0 {
        lemma_lex_le_reflexive(a.drop_first());
    }
}

/// Whether `a` comes at or before `b` in `str` order.
pub fn lex_le_chars(a: &Vec<char>, b: &Vec<char>) -> (r: bool)
    ensures
        r == lex_le(a@, b@),
{
    let mut i: usize = 0;
    assert(a@.skip(0) =~= a@);
    assert(b@.skip(0) =~= b@);
    while i < a.len() && i < b.len() && a[i] == b[i]
        invariant
            i <= a.len(),
            i <= b.len(),
            lex_le(a@, b@) == lex_le(a@.skip(i as int), b@.skip(i as int)),
        decreases a.len() - i,
    {
        assert(a@.skip(i as int).drop_first() =~= a@.skip(i + 1));
        assert(b@.skip(i as int).drop_first() =~= b@.skip(i + 1));
        i += 1;
    }
    if i == a.len() {
        true
    } else if i == b.len() {
        false
    } else {
        assert(a@.skip(i as int)[0] == a@[i as int]);
        assert(b@.skip(i as int)[0] == b@[i as int]);
        a[i] < b[i]
    }
}

/// The decimal digit for `d < 10`.
pub open spec fn digit_char(d: nat) -> char {
    if d == 0 {
        '0'
    } else if d == 1 {
        '1'
    } else if d == 2 {
        '2'
    } else if d == 3 {
        '3'
    } else if d == 4 {
        '4'
    } else if d == 5 {
        '5'
    } else if d == 6 {
        '6'
    } else if d == 7 {
        '7'
    } else if d == 8 {
        '8'
    } else {
        '9'
    }
}

/// The decimal numeral of `n`, as `Display` writes an unsigned integer.
pub open spec fn decimal(n: nat) -> Seq<char>
    decreases n,
{
    if n < 10 {
        seq![digit_char(n)]
    } else {
        decimal(n / 10).push(digit_char(n % 10))
    }
}

fn digit_char_exec(d: u64) -> (c: char)
    requires
        d < 10,
    ensures
        c == digit_char(d as nat),
{
    if d == 0 {
        '0'
    } else if d == 1 {
        '1'
    } else if d == 2 {
        '2'
    } else if d == 3 {
        '3'
    } else if d == 4 {
        '4'
    } else if d == 5 {
        '5'
    } else if d == 6 {
        '6'
    } else if d == 7 {
        '7'
    } else if d == 8 {
        '8'
    } else {
        '9'
    }
}

/// Appends the decimal numeral of `n`.
pub fn push_decimal(out: &mut Vec<char>, n: u64)
    ensures
        final(out)@ == old(out)@ + decimal(n as nat),
    decreases n,
{
    if n >= 10 {
        push_decimal(out, n / 10);
    }
    let ghost before = out@;
    out.push(digit_char_exec(n % 10));
    proof {
        if n >= 10 {
            assert(old(out)@ + decimal(n as nat) =~= old(out)@ + decimal((n / 10) as nat) + seq![digit_char((n % 10) as nat)]);
        }
    }
}



/// `str::trim_end` on a character sequence.
pub fn trim_end_chars(s: &Vec<char>) -> (r: Vec<char>)
    ensures
        r@ == trim_end(s@),
{
    let n = s.len();
    let mut hi: usize = n;
    while hi > 0 && is_space_char(s[hi - 1])
        invariant
            hi <= n == s.len(),
            forall|k: int| hi <= k < n ==> is_space(#[trigger] s@[k]),
        decreases hi,
    {
        hi -= 1;
    }
    proof {
        lemma_trim_end_take(s@, hi as int);
        assert(trim_end(s@.take(hi as int)) == s@.take(hi as int));
    }
    let r = slice_chars(s, 0, hi);
    assert(r@ =~= s@.take(hi as int));
    r
}

/// The characters of `a` followed by those of `b`, as a string.
pub fn concat2(a: &str, b: &str) -> (r: String)
    ensures
        r@ == a@ + b@,
{
    let mut v = chars_of(a);
    append_str(&mut v, b);
    string_of(&v)
}

/// Whether two strings hold the same characters.
pub fn str_eq(a: &str, b: &str) -> (r: bool)
    ensures
        r == (a@ == b@),
{
    let x = chars_of(a);
    let y = chars_of(b);
    if x.len() != y.len() {
        return false;
    }
    let mut i: usize = 0;
    while i < x.len()
        invariant
            i <= x.len() == y.len(),
            x@ == a@,
            y@ == b@,
            forall|k: int| 0 <= k < i ==> x@[k] == y@[k],
        decreases x.len() - i,
    {
        if x[i] != y[i] {
            assert(x@[i as int] != y@[i as int]);
            return false;
        }
        i += 1;
    }
    assert(x@ =~= y@);
    true
}


/// Each line followed by a line break.
pub open spec fn join_lines(ls: Seq<Seq<char>>) -> Seq<char>
    decreases ls.len(),
{
    if ls.len() == 0 {
        Seq::empty()
    } else {
        ls[0] + seq!['\n'] + join_lines(ls.drop_first())
    }
}

/// A line that `str::lines` gives back unchanged: it holds no line break and
/// does not end with a carriage return.
pub open spec fn is_plain_line(l: Seq<char>) -> bool {
    &&& forall|i: int| 0 <= i < l.len() ==> l[i] != '\n'
    &&& (l.len() > 0 ==> l.last() != '\r')
}

/// The lines of text written line by line are the lines written.
pub proof fn lemma_lines_of_join_lines(ls: Seq<Seq<char>>)
    requires
        forall|k: int| 0 <= k < ls.len() ==> is_plain_line(#[trigger] ls[k]),
    ensures
        lines(join_lines(ls)) == ls,
    decreases ls.len(),
{
    if ls.len() > 0 {
        let l = ls[0];
        let nl = seq!['\n'];
        let s = join_lines(ls);
        let i = l.len() as int;
        assert(s == l + nl + join_lines(ls.drop_first()));
        assert(s.subrange(i, i + 1) =~= nl);
        assert forall|j: int| 0 <= j < i implies !matches_at(s, nl, j) by {
            if matches_at(s, nl, j) {
                assert(s.subrange(j, j + 1)[0] == s[j]);
                assert(s[j] == l[j]);
            }
        }
        assert(is_first_match(s, nl, i));
        let k = choose|k: int| is_first_match(s, seq!['\n'], k);
        lemma_first_match_unique(s, nl, i, k);
        assert(s.take(i) =~= l);
        assert(s.skip(i + 1) =~= join_lines(ls.drop_first()));
        assert forall|k: int| 0 <= k < ls.drop_first().len() implies is_plain_line(#[trigger] ls.drop_first()[k]) by {
            assert(ls.drop_first()[k] == ls[k + 1]);
        }
        lemma_lines_of_join_lines(ls.drop_first());
        assert(strip_cr(l) == l);
        assert(lines(s) =~= seq![l] + ls.drop_first());
        assert(ls =~= seq![l] + ls.drop_first());
    } else {
        assert(join_lines(ls).len() == 0);
    }
}

proof fn lemma_trim_end_nonempty(s: Seq<char>)
    requires
        s.len() > 0,
        !is_space(s[0]),
    ensures
        trim_end(s).len() > 0,
    decreases s.len(),
{
    if s.len() > 1 && is_space(s.last()) {
        lemma_trim_end_nonempty(s.drop_last());
    }
}

/// A sequence with a character that is not white space does not trim to
/// nothing.
pub proof fn lemma_trim_nonempty(s: Seq<char>, i: int)
    requires
        0 <= i < s.len(),
        !is_space(s[i]),
    ensures
        trim(s).len() > 0,
    decreases i,
{
    if is_space(s[0]) {
        lemma_trim_nonempty(s.drop_first(), i - 1);
    } else {
        lemma_trim_end_nonempty(s);
    }
}

proof fn lemma_trim_end_len(s: Seq<char>)
    ensures
        trim_end(s).len() <= s.len(),
    decreases s.len(),
{
    if s.len() > 0 && is_space(s.last()) {
        lemma_trim_end_len(s.drop_last());
    }
}

/// A trimmed, non-empty sequence does not end with white space.
pub proof fn lemma_trimmed_last(s: Seq<char>)
    requires
        trim(s) == s,
        s.len() > 0,
    ensures
        !is_space(s.last()),
{
    if is_space(s.last()) {
        let t = trim_start(s);
        lemma_trim_start_len(s);
        lemma_trim_end_len(t);
        if t.len() == s.len() {
            assert(t == s) by {
                lemma_trim_start_suffix(s);
                assert(t =~= s.skip(0));
            }
            lemma_trim_end_len(s.drop_last());
        }
    }
}

proof fn lemma_trim_start_len(s: Seq<char>)
    ensures
        trim_start(s).len() <= s.len(),
    decreases s.len(),
{
    if s.len() > 0 && is_space(s[0]) {
        lemma_trim_start_len(s.drop_first());
    }
}

proof fn lemma_trim_start_suffix(s: Seq<char>)
    ensures
        trim_start(s) == s.skip(s.len() - trim_start(s).len()),
    decreases s.len(),
{
    lemma_trim_start_len(s);
    if s.len() > 0 && is_space(s[0]) {
        lemma_trim_start_suffix(s.drop_first());
        lemma_trim_start_len(s.drop_first());
        let t = trim_start(s);
        assert(s.drop_first().skip(s.drop_first().len() - t.len()) =~= s.skip(s.len() - t.len()));
    } else {
        assert(s.skip(0) =~= s);
    }
}


proof fn lemma_trim_start_head(s: Seq<char>)
    ensures
        trim_start(s).len() == 0 || !is_space(trim_start(s)[0]),
    decreases s.len(),
{
    if s.len() > 0 && is_space(s[0]) {
        lemma_trim_start_head(s.drop_first());
    }
}

proof fn lemma_trim_end_prefix(s: Seq<char>)
    ensures
        trim_end(s).len() <= s.len(),
        trim_end(s) == s.take(trim_end(s).len() as int),
        trim_end(s).len() == 0 || !is_space(trim_end(s).last()),
    decreases s.len(),
{
    if s.len() > 0 && is_space(s.last()) {
        lemma_trim_end_prefix(s.drop_last());
        let t = trim_end(s);
        assert(s.drop_last().take(t.len() as int) =~= s.take(t.len() as int));
    } else {
        assert(s.take(s.len() as int) =~= s);
    }
}

/// Trimming twice is trimming once.
pub proof fn lemma_trim_idempotent(s: Seq<char>)
    ensures
        trim(trim(s)) == trim(s),
{
    let a = trim_start(s);
    let t = trim_end(a);
    lemma_trim_start_head(s);
    lemma_trim_end_prefix(a);
    if t.len() > 0 {
        assert(t[0] == a[0]);
    }
    assert(trim_start(t) == t);
    assert(trim_end(t) == t);
}


/// Trimming drops the white space before and after and keeps the rest
/// whole: white space `a`, then `m` (empty, or starting and ending with a
/// character that is not white space), then white space `b`, trim to `m`.
pub proof fn law_trim_keeps_middle(a: Seq<char>, m: Seq<char>, b: Seq<char>)
    requires
        forall|k: int| 0 <= k < a.len() ==> is_space(a[k]),
        forall|k: int| 0 <= k < b.len() ==> is_space(b[k]),
        m.len() > 0 ==> !is_space(m[0]) && !is_space(m.last()),
    ensures
        trim(a + m + b) == m,
{
    let s = a + m + b;
    if m.len() == 0 {
        assert forall|k: int| 0 <= k < s.len() implies is_space(#[trigger] s[k]) by {
            if k < a.len() {
                assert(s[k] == a[k]);
            } else {
                assert(s[k] == b[k - a.len()]);
            }
        }
        lemma_trim_start_skip(s, s.len() as int);
        assert(s.skip(s.len() as int) =~= Seq::<char>::empty());
        assert(trim_start(Seq::<char>::empty()) == Seq::<char>::empty());
        assert(trim_end(Seq::<char>::empty()) == Seq::<char>::empty());
    } else {
        assert forall|k: int| 0 <= k < a.len() implies is_space(#[trigger] s[k]) by {
            assert(s[k] == a[k]);
        }
        lemma_trim_start_skip(s, a.len() as int);
        let t = m + b;
        assert(s.skip(a.len() as int) =~= t);
        assert(t[0] == m[0]);
        assert(trim_start(t) == t);
        assert forall|k: int| m.len() <= k < t.len() implies is_space(#[trigger] t[k]) by {
            assert(t[k] == b[k - m.len()]);
        }
        lemma_trim_end_take(t, m.len() as int);
        assert(t.take(m.len() as int) =~= m);
        assert(m.last() == m[m.len() - 1]);
        assert(trim_end(m) == m);
    }
}

proof fn lemma_join_prepend(x: Seq<char>, ps: Seq<Seq<char>>, sep: Seq<char>)
    requires
        ps.len() >= 1,
    ensures
        join(seq![x] + ps, sep) == x + sep + join(ps, sep),
    decreases ps.len(),
{
    let qs = seq![x] + ps;
    if ps.len() == 1 {
        assert(qs.drop_last() =~= seq![x]);
        assert(qs.last() == ps[0]);
        assert(join(seq![x], sep) == x);
        assert(join(ps, sep) == ps[0]);
        assert(join(qs, sep) == join(qs.drop_last(), sep) + sep + qs.last());
        assert(join(qs, sep) =~= x + sep + join(ps, sep));
    } else {
        lemma_join_prepend(x, ps.drop_last(), sep);
        assert(qs.drop_last() =~= seq![x] + ps.drop_last());
        assert(qs.last() == ps.last());
        assert(join(qs, sep) == join(qs.drop_last(), sep) + sep + qs.last());
        assert(join(ps, sep) == join(ps.drop_last(), sep) + sep + ps.last());
        assert(join(qs, sep) =~= x + sep + join(ps, sep));
    }
}

/// Splitting at a non-empty pattern and joining the pieces with it again
/// gives back the text: no piece is lost and no occurrence is added.
pub proof fn law_split_join_round_trip(s: Seq<char>, p: Seq<char>)
    requires
        p.len() > 0,
    ensures
        join(split_on(s, p), p) == s,
    decreases s.len(),
{
    if exists|i: int| is_first_match(s, p, i) {
        let i = choose|i: int| is_first_match(s, p, i);
        lemma_split_step(s, p, i);
        let rest = s.skip(i + p.len());
        law_split_join_round_trip(rest, p);
        reveal(split_on);
        assert(split_on(rest, p).len() >= 1);
        lemma_join_prepend(s.take(i), split_on(rest, p), p);
        assert(s.subrange(i, i + p.len()) == p);
        assert(s =~= s.take(i) + p + rest);
    } else {
        assert forall|j: int| !matches_at(s, p, j) by {
            if matches_at(s, p, j) {
                let k = lemma_first_match_from(s, p, j);
            }
        }
        lemma_split_none(s, p);
    }
}

/// A text without a line break is one line, unless it is empty: `lines`
/// keeps a last line that has no line break after it.
pub proof fn law_lines_single(s: Seq<char>)
    requires
        forall|i: int| 0 <= i < s.len() ==> s[i] != '\n',
    ensures
        s.len() == 0 ==> lines(s) == Seq::<Seq<char>>::empty(),
        s.len() > 0 ==> lines(s) == seq![s],
{
    assert forall|i: int| !is_first_match(s, seq!['\n'], i) by {
        if matches_at(s, seq!['\n'], i) {
            assert(s.subrange(i, i + 1)[0] == s[i]);
        }
    }
}

/// A line break ends the line before it (without a `'\r'` just before the
/// break), and the lines after it follow.
pub proof fn law_lines_break(a: Seq<char>, b: Seq<char>)
    requires
        forall|i: int| 0 <= i < a.len() ==> a[i] != '\n',
    ensures
        lines(a + seq!['\n'] + b) == seq![
            if a.len() > 0 && a[a.len() - 1] == '\r' {
                a.take(a.len() - 1)
            } else {
                a
            },
        ] + lines(b),
{
    let nl = seq!['\n'];
    let s = a + nl + b;
    let n = a.len() as int;
    assert(s.subrange(n, n + 1) =~= nl);
    assert forall|j: int| 0 <= j < n implies !matches_at(s, nl, j) by {
        if matches_at(s, nl, j) {
            assert(s.subrange(j, j + 1)[0] == s[j]);
            assert(s[j] == a[j]);
        }
    }
    assert(is_first_match(s, nl, n));
    let k = choose|k: int| is_first_match(s, seq!['\n'], k);
    lemma_first_match_unique(s, nl, n, k);
    assert(s.take(n) =~= a);
    assert(s.skip(n + 1) =~= b);
    if a.len() > 0 && a[a.len() - 1] == '\r' {
        assert(a.drop_last() =~= a.take(a.len() - 1));
    }
}

/// A text in which `p` occurs has a leftmost occurrence of it.
proof fn lemma_first_match_from(s: Seq<char>, p: Seq<char>, j: int) -> (k: int)
    requires
        matches_at(s, p, j),
    ensures
        is_first_match(s, p, k),
        k <= j,
    decreases j,
{
    if forall|i: int| 0 <= i < j ==> !matches_at(s, p, i) {
        j
    } else {
        let i = choose|i: int| 0 <= i < j && matches_at(s, p, i);
        lemma_first_match_from(s, p, i)
    }
}

/// The final line break is optional: a text and the same text with a line
/// break after it have the same lines. (Not so for an empty text, nor for
/// one that already ends with a line break or a carriage return.)
pub proof fn law_final_line_break_optional(s: Seq<char>)
    requires
        s.len() > 0,
        s.last() != '\n',
        s.last() != '\r',
    ensures
        lines(s + seq!['\n']) == lines(s),
    decreases s.len(),
{
    let nl = seq!['\n'];
    if exists|i: int| 0 <= i < s.len() && s[i] == '\n' {
        let i = choose|i: int| 0 <= i < s.len() && s[i] == '\n';
        assert(s.subrange(i, i + 1) =~= nl);
        let k = lemma_first_match_from(s, nl, i);
        let a = s.take(k);
        let b = s.skip(k + 1);
        assert(s.subrange(k, k + 1)[0] == s[k]);
        assert forall|j: int| 0 <= j < a.len() implies a[j] != '\n' by {
            if a[j] == '\n' {
                assert(s.subrange(j, j + 1) =~= nl);
                assert(matches_at(s, nl, j));
            }
        }
        assert(s =~= a + nl + b);
        assert(s + nl =~= a + nl + (b + nl));
        law_lines_break(a, b);
        law_lines_break(a, b + nl);
        assert(b.len() > 0);
        assert(b.last() == s.last());
        law_final_line_break_optional(b);
    } else {
        law_lines_single(s);
        law_lines_break(s, Seq::empty());
        assert(s + nl + Seq::<char>::empty() =~= s + nl);
        assert(lines(Seq::<char>::empty()) == Seq::<Seq<char>>::empty());
        assert(seq![s] + Seq::<Seq<char>>::empty() =~= seq![s]);
    }
}

/// The number that a numeral of decimal digits stands for.
pub open spec fn numeral_value(s: Seq<char>) -> int
    decreases s.len(),
{
    if s.len() == 0 {
        0
    } else {
        numeral_value(s.drop_last()) * 10 + (s.last() as int - '0' as int)
    }
}

proof fn lemma_digit_char(d: nat)
    requires
        d < 10,
    ensures
        '0' <= digit_char(d) <= '9',
        digit_char(d) as int - '0' as int == d,
{
}

/// The decimal numeral of `n` is made of the digits `0` to `9`, starts with
/// `0` only when `n` is zero, and stands for `n`.
pub proof fn law_decimal_reads_back(n: nat)
    ensures
        decimal(n).len() > 0,
        forall|i: int| 0 <= i < decimal(n).len() ==> '0' <= #[trigger] decimal(n)[i] <= '9',
        decimal(n)[0] == '0' ==> n == 0,
        numeral_value(decimal(n)) == n,
    decreases n,
{
    if n < 10 {
        lemma_digit_char(n);
        let d = decimal(n);
        assert(d.drop_last() =~= Seq::<char>::empty());
        assert(numeral_value(d.drop_last()) == 0);
        assert(d.last() == digit_char(n));
        assert(numeral_value(d) == numeral_value(d.drop_last()) * 10 + (d.last() as int - '0' as int));
    } else {
        law_decimal_reads_back(n / 10);
        lemma_digit_char(n % 10);
        let d = decimal(n);
        assert(d.drop_last() =~= decimal(n / 10));
        assert(d[0] == decimal(n / 10)[0]);
        assert forall|i: int| 0 <= i < d.len() implies '0' <= #[trigger] d[i] <= '9' by {
            if i < d.len() - 1 {
                assert(d[i] == decimal(n / 10)[i]);
            }
        }
        assert(d.last() == digit_char(n % 10));
        assert(numeral_value(d) == numeral_value(d.drop_last()) * 10 + (d.last() as int - '0' as int));
        assert(numeral_value(d.drop_last()) == n / 10);
        assert(n == (n / 10) * 10 + n % 10);
    }
}

/// Joining no pieces gives nothing, one piece gives that piece, and each
/// further piece comes after the separator.
pub proof fn law_join(ps: Seq<Seq<char>>, x: Seq<char>, sep: Seq<char>)
    ensures
        join(Seq::<Seq<char>>::empty(), sep) == Seq::<char>::empty(),
        join(seq![x], sep) == x,
        ps.len() >= 1 ==> join(ps.push(x), sep) == join(ps, sep) + sep + x,
{
    assert(ps.push(x).drop_last() =~= ps);
}

/// The total length of the pieces.
pub open spec fn total_len(ps: Seq<Seq<char>>) -> int
    decreases ps.len(),
{
    if ps.len() == 0 {
        0
    } else {
        total_len(ps.drop_last()) + ps.last().len()
    }
}

/// A join is as long as its pieces together, plus one separator between
/// each two neighbouring pieces.
pub proof fn law_join_len(ps: Seq<Seq<char>>, sep: Seq<char>)
    requires
        ps.len() >= 1,
    ensures
        join(ps, sep).len() == total_len(ps) + (ps.len() - 1) * sep.len(),
    decreases ps.len(),
{
    if ps.len() > 1 {
        law_join_len(ps.drop_last(), sep);
        let n = ps.len() as int;
        assert((n - 1) * sep.len() == (n - 2) * sep.len() + sep.len()) by (nonlinear_arith);
    } else {
        assert(ps.drop_last().len() == 0);
        assert(total_len(ps.drop_last()) == 0);
        assert(ps.last() == ps[0]);
        assert((ps.len() - 1) * sep.len() == 0) by (nonlinear_arith)
            requires
                ps.len() == 1,
        ;
    }
}

/// String order: `a` comes at or before `b` exactly when `a` is a prefix of
/// `b`, or at the first place where they differ `a` has the smaller
/// character.
pub proof fn law_lex_le_meaning(a: Seq<char>, b: Seq<char>)
    ensures
        lex_le(a, b) <==> (a.len() <= b.len() && b.take(a.len() as int) == a) || exists|k: int|
            0 <= k < a.len() && k < b.len() && a.take(k) == b.take(k) && a[k] < b[k],
    decreases a.len(),
{
    let pre = a.len() <= b.len() && b.take(a.len() as int) == a;
    let ex = exists|k: int| 0 <= k < a.len() && k < b.len() && a.take(k) == b.take(k) && a[k] < b[k];
    if a.len() == 0 {
        assert(b.take(0) =~= a);
    } else if b.len() == 0 {
    } else if a[0] != b[0] {
        if pre {
            assert(b.take(a.len() as int)[0] == b[0]);
        }
        if a[0] < b[0] {
            assert(a.take(0) =~= b.take(0));
        }
        if ex {
            let k = choose|k: int| 0 <= k < a.len() && k < b.len() && a.take(k) == b.take(k) && a[k] < b[k];
            if k > 0 {
                assert(a.take(k)[0] == b.take(k)[0]);
            }
        }
    } else {
        let a1 = a.drop_first();
        let b1 = b.drop_first();
        law_lex_le_meaning(a1, b1);
        let pre1 = a1.len() <= b1.len() && b1.take(a1.len() as int) == a1;
        let ex1 = exists|k: int| 0 <= k < a1.len() && k < b1.len() && a1.take(k) == b1.take(k) && a1[k] < b1[k];
        if pre1 {
            assert(b.take(a.len() as int) =~= seq![b[0]] + b1.take(a1.len() as int));
            assert(a =~= seq![a[0]] + a1);
        }
        if pre {
            assert(b1.take(a1.len() as int) =~= b.take(a.len() as int).drop_first());
            assert(a1 =~= a.drop_first());
        }
        if ex1 {
            let k = choose|k: int| 0 <= k < a1.len() && k < b1.len() && a1.take(k) == b1.take(k) && a1[k] < b1[k];
            assert(a.take(k + 1) =~= seq![a[0]] + a1.take(k));
            assert(b.take(k + 1) =~= seq![b[0]] + b1.take(k));
            assert(a[k + 1] == a1[k] && b[k + 1] == b1[k]);
        }
        if ex {
            let k = choose|k: int| 0 <= k < a.len() && k < b.len() && a.take(k) == b.take(k) && a[k] < b[k];
            assert(k > 0);
            assert(a1.take(k - 1) =~= a.take(k).drop_first());
            assert(b1.take(k - 1) =~= b.take(k).drop_first());
            assert(a1[k - 1] == a[k] && b1[k - 1] == b[k]);
        }
    }
}

} // verus!
