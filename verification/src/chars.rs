//! Character-sequence helpers shared by the text primitives and the
//! parsers: whitespace scanning, blank trimming, and the conversions
//! between `String` and `Vec<char>`.

use vstd::prelude::*;

verus! {

/// True of the two characters the text primitives treat as blank.
pub open spec fn is_ws(c: char) -> bool {
    c == ' ' || c == '\t'
}

/// Count of leading space and tab characters.
pub open spec fn ws_len(s: Seq<char>) -> nat
    decreases s.len(),
{
    if s.len() == 0 || !is_ws(s[0]) {
        0
    } else {
        1 + ws_len(s.drop_first())
    }
}

pub proof fn lemma_ws_len(s: Seq<char>)
    ensures
        ws_len(s) <= s.len(),
        forall|j: int| 0 <= j < ws_len(s) ==> is_ws(s[j]),
        ws_len(s) < s.len() ==> !is_ws(s[ws_len(s) as int]),
    decreases s.len(),
{
    if s.len() > 0 && is_ws(s[0]) {
        lemma_ws_len(s.drop_first());
        assert forall|j: int| 0 <= j < ws_len(s) implies is_ws(s[j]) by {
            if j > 0 {
                assert(s[j] == s.drop_first()[j - 1]);
            }
        }
    }
}

/// The boundary after the leading blanks determines `ws_len` uniquely.
pub proof fn lemma_ws_len_is(s: Seq<char>, p: int)
    requires
        0 <= p <= s.len(),
        forall|j: int| 0 <= j < p ==> is_ws(s[j]),
        p < s.len() ==> !is_ws(s[p]),
    ensures
        ws_len(s) == p,
    decreases p,
{
    if p > 0 {
        assert(is_ws(s[0]));
        assert forall|j: int| 0 <= j < p - 1 implies is_ws(s.drop_first()[j]) by {
            assert(s.drop_first()[j] == s[j + 1]);
        }
        if p - 1 < s.drop_first().len() {
            assert(s.drop_first()[p - 1] == s[p]);
        }
        lemma_ws_len_is(s.drop_first(), p - 1);
    }
}

/// The sequence without its trailing blanks.
pub open spec fn strip_trailing(s: Seq<char>) -> Seq<char>
    decreases s.len(),
{
    if s.len() > 0 && is_ws(s.last()) {
        strip_trailing(s.drop_last())
    } else {
        s
    }
}

/// The boundary before the trailing blanks determines `strip_trailing`.
pub proof fn lemma_strip_trailing_is(s: Seq<char>, q: int)
    requires
        0 <= q <= s.len(),
        forall|j: int| q <= j < s.len() ==> is_ws(s[j]),
        q > 0 ==> !is_ws(s[q - 1]),
    ensures
        strip_trailing(s) == s.take(q),
    decreases s.len(),
{
    if s.len() > 0 && is_ws(s.last()) {
        assert(q < s.len());
        assert forall|j: int| q <= j < s.drop_last().len() implies is_ws(s.drop_last()[j]) by {
            assert(s.drop_last()[j] == s[j]);
        }
        if q > 0 {
            assert(s.drop_last()[q - 1] == s[q - 1]);
        }
        lemma_strip_trailing_is(s.drop_last(), q);
        assert(s.drop_last().take(q) =~= s.take(q));
    } else {
        if q < s.len() {
            assert(is_ws(s[s.len() - 1]));
            assert(false);
        }
        assert(s.take(q) =~= s);
    }
}

/// A line as the line splitter reports it: one carriage return before
/// the line break is dropped.
pub open spec fn strip_cr(l: Seq<char>) -> Seq<char> {
    if l.len() > 0 && l.last() == '\r' {
        l.drop_last()
    } else {
        l
    }
}

/// The sequence without its trailing, then leading, blanks.
pub open spec fn trim_spec(s: Seq<char>) -> Seq<char> {
    strip_trailing(s).skip(ws_len(strip_trailing(s)) as int)
}

/// Copies the characters of `v` in `[from, to)` into a fresh vector.
pub fn copy_range(v: &Vec<char>, from: usize, to: usize) -> (out: Vec<char>)
    requires
        from <= to <= v@.len(),
    ensures
        out@ == v@.subrange(from as int, to as int),
{
    let mut out: Vec<char> = Vec::new();
    let mut j = from;
    while j < to
        invariant
            from <= j <= to <= v@.len(),
            out@ == v@.subrange(from as int, j as int),
        decreases to - j,
    {
        out.push(v[j]);
        proof {
            assert(out@ =~= v@.subrange(from as int, j as int + 1));
        }
        j += 1;
    }
    out
}

/// Appends the characters of `v` in `[from, to)` to `out`.
pub fn push_range(out: &mut Vec<char>, v: &Vec<char>, from: usize, to: usize)
    requires
        from <= to <= v@.len(),
    ensures
        final(out)@ == old(out)@ + v@.subrange(from as int, to as int),
{
    let mut j = from;
    while j < to
        invariant
            from <= j <= to <= v@.len(),
            out@ == old(out)@ + v@.subrange(from as int, j as int),
        decreases to - j,
    {
        out.push(v[j]);
        proof {
            assert(old(out)@ + v@.subrange(from as int, j as int + 1) =~= (old(out)@ + v@.subrange(
                from as int,
                j as int,
            )).push(v@[j as int]));
        }
        j += 1;
    }
}

/// Relies on str::chars: it yields exactly the characters of the string,
/// in order; collected, they are the string's view.
#[verifier::external_body]
pub fn chars_of(s: &str) -> (v: Vec<char>)
    ensures
        v@ == s@,
{
    s.chars().collect()
}

/// Relies on String implementing FromIterator over char: collecting a
/// vector's characters builds the string whose characters they are.
#[verifier::external_body]
pub fn string_of(v: &Vec<char>) -> (s: String)
    ensures
        s@ == v@,
{
    v.iter().collect()
}

} // verus!
