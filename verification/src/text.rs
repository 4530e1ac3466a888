//! Character-indexed text primitives. Every index below counts characters,
//! never bytes, so multi-byte content is always split on character
//! boundaries.

use core::ops::Range;
use vstd::prelude::*;
use vstd::string::StrSliceExecFns;
use vstd::string::StringExecFns;

verus! {

use crate::chars::{
    chars_of, copy_range, is_ws, lemma_strip_trailing_is, lemma_ws_len, lemma_ws_len_is,
    push_range, string_of, strip_trailing, trim_spec, ws_len,
};
use vstd::arithmetic::power::{lemma_pow_adds, lemma_pow_positive, pow};

/// What the backward pass of `trim` leaves: the blanks at the end of the
/// scanned region — everything but the last `end` characters — are
/// removed, the protected tail stays.
pub open spec fn trim_phase1(s: Seq<char>, end: int) -> Seq<char> {
    strip_trailing(s.take(s.len() - end)) + s.skip(s.len() - end)
}

/// How many blanks the forward pass of `trim` removes: the run of blanks
/// at `start`, cut short where removal would reach the protected tail of
/// `end` characters.
pub open spec fn trim_removed(s1: Seq<char>, start: int, end: int) -> int {
    if 0 <= start <= s1.len() {
        let w = ws_len(s1.skip(start)) as int;
        let cap = s1.len() - end - start;
        if cap < 0 {
            0
        } else if w < cap {
            w
        } else {
            cap
        }
    } else {
        0
    }
}

/// What the forward pass of `trim` leaves.
pub open spec fn trim_result(s1: Seq<char>, start: int, end: int) -> Seq<char> {
    if 0 <= start <= s1.len() {
        s1.take(start) + s1.skip(start + trim_removed(s1, start, end))
    } else {
        s1
    }
}

/// The index `trim` reports as the end of the text: the last scanned
/// position, or zero when the scan saw nothing.
pub open spec fn trim_last(s1: Seq<char>, start: int, end: int) -> int {
    let n2 = s1.len() - trim_removed(s1, start, end);
    if start < n2 - end {
        n2 - end - 1
    } else {
        0
    }
}

/// Length of a string in characters.
pub fn len(s: &str) -> (n: usize)
    ensures
        n == s@.len(),
{
    s.unicode_len()
}

/// A start index at or past the end of the string falls back to zero.
pub open spec fn clamped_start(s: Seq<char>, start: int) -> int {
    if start < s.len() {
        start
    } else {
        0
    }
}

/// An end index at or past the end of the string falls back to the length.
pub open spec fn clamped_end(s: Seq<char>, end: int) -> int {
    if end < s.len() {
        end
    } else {
        s.len() as int
    }
}

/// The characters of `s` in the range `r`, where an out-of-range start
/// falls back to zero and an out-of-range end to the string's length.
pub fn slice(s: &str, r: Range<usize>) -> (out: String)
    requires
        clamped_start(s@, r.start as int) <= clamped_end(s@, r.end as int),
    ensures
        out@ == s@.subrange(
            clamped_start(s@, r.start as int),
            clamped_end(s@, r.end as int),
        ),
{
    let n = s.unicode_len();
    let b: usize = if r.start < n {
        r.start
    } else {
        0
    };
    let e: usize = if r.end < n {
        r.end
    } else {
        n
    };
    s.substring_char(b, e).to_owned()
}

/// Inserts `ins` into `s` at character index `idx`.
pub fn insert(s: &str, idx: usize, ins: &str) -> (out: String)
    requires
        idx <= s@.len(),
    ensures
        out@ == s@.subrange(0, idx as int) + ins@ + s@.subrange(idx as int, s@.len() as int),
{
    let n = s.unicode_len();
    let mut out = s.substring_char(0, idx).to_owned();
    out.append(ins);
    out.append(s.substring_char(idx, n));
    proof {
        assert(out@ =~= s@.subrange(0, idx as int) + ins@ + s@.subrange(
            idx as int,
            s@.len() as int,
        ));
    }
    out
}

/// What `remove` leaves: the prefix before `i`, then the characters from
/// `i + l` on. A count that reaches exactly the end leaves the prefix
/// alone; one that overshoots the end appends the whole string again, as
/// the range fallback of `slice` dictates.
pub open spec fn remove_spec(s: Seq<char>, i: int, l: int) -> Seq<char> {
    if i + l == s.len() {
        s.subrange(0, i)
    } else if i + l < s.len() {
        s.subrange(0, i) + s.subrange(i + l, s.len() as int)
    } else {
        s.subrange(0, i) + s
    }
}

/// Removes `l` characters from `s` starting at character index `i`.
pub fn remove(s: &str, i: usize, l: usize) -> (out: String)
    requires
        i <= s@.len(),
        i + l <= usize::MAX,
    ensures
        out@ == remove_spec(s@, i as int, l as int),
{
    let n = s.unicode_len();
    let mut out = s.substring_char(0, i).to_owned();
    if i + l == n {
        out
    } else if i + l < n {
        out.append(s.substring_char(i + l, n));
        proof {
            assert(out@ =~= remove_spec(s@, i as int, l as int));
        }
        out
    } else {
        out.append(s);
        proof {
            assert(out@ =~= remove_spec(s@, i as int, l as int));
        }
        out
    }
}

/// First non-blank character of `s` (as a one-character string, or empty
/// when every character is blank) together with the count of blanks
/// before it.
pub fn first(s: &str) -> (out: (String, usize))
    ensures
        out.1 == ws_len(s@),
        ws_len(s@) < s@.len() ==> out.0@ == seq![s@[ws_len(s@) as int]],
        ws_len(s@) == s@.len() ==> out.0@ == Seq::<char>::empty(),
{
    let v = chars_of(s);
    let n = v.len();
    let mut i: usize = 0;
    proof {
        assert(s@.skip(0) =~= s@);
    }
    while i < n && (v[i] == ' ' || v[i] == '\t')
        invariant
            n == s@.len(),
            v@ == s@,
            0 <= i <= n,
            ws_len(s@) as int == i + ws_len(s@.skip(i as int)),
        decreases n - i,
    {
        proof {
            let rest = s@.skip(i as int);
            assert(rest[0] == s@[i as int]);
            assert(rest.drop_first() =~= s@.skip(i as int + 1));
            assert(ws_len(rest) == 1 + ws_len(rest.drop_first()));
        }
        i += 1;
    }
    proof {
        let rest = s@.skip(i as int);
        if i < n {
            assert(rest[0] == s@[i as int]);
            assert(ws_len(rest) == 0);
        } else {
            assert(ws_len(rest) == 0);
        }
        assert(ws_len(s@) == i);
    }
    if i < n {
        let mut one: Vec<char> = Vec::new();
        one.push(v[i]);
        proof {
            assert(one@ =~= seq![s@[ws_len(s@) as int]]);
        }
        (string_of(&one), i)
    } else {
        (String::new(), i)
    }
}

/// The string `first_from` examines: the characters of `s` from index `i`
/// on, or — by the range fallback of `slice` — the whole string when `i`
/// is past the end.
pub open spec fn first_from_src(s: Seq<char>, i: int) -> Seq<char> {
    if i < s.len() {
        s.subrange(i, s.len() as int)
    } else {
        s
    }
}

/// `first` applied to the characters of `s` from index `i` on.
pub fn first_from(s: &str, i: usize) -> (out: (String, usize))
    ensures
        out.1 == ws_len(first_from_src(s@, i as int)),
        ws_len(first_from_src(s@, i as int)) < first_from_src(s@, i as int).len()
            ==> out.0@ == seq![
            first_from_src(s@, i as int)[ws_len(first_from_src(s@, i as int)) as int],
        ],
        ws_len(first_from_src(s@, i as int)) == first_from_src(s@, i as int).len()
            ==> out.0@ == Seq::<char>::empty(),
{
    let n = s.unicode_len();
    let sub = slice(s, Range { start: i, end: n });
    proof {
        assert(sub@ =~= first_from_src(s@, i as int));
    }
    first(sub.as_str())
}

/// Removes the run of blanks before the last `end` characters, then the
/// run of blanks at index `start`, and reports the trimmed string, the
/// index of its first character (always zero), and the index of the last
/// character the forward scan visited.
pub fn trim(l: &String, start: usize, end: usize) -> (out: (String, usize, usize))
    requires
        end <= l@.len(),
    ensures
        out.0@ == trim_result(trim_phase1(l@, end as int), start as int, end as int),
        out.1 == 0,
        out.2 == trim_last(trim_phase1(l@, end as int), start as int, end as int),
{
    let v = chars_of(l.as_str());
    let n = v.len();
    let m = n - end;
    let mut q = m;
    while q > 0 && (v[q - 1] == ' ' || v[q - 1] == '\t')
        invariant
            q <= m <= n,
            n == l@.len(),
            v@ == l@,
            forall|j: int| q <= j < m ==> is_ws(v@[j]),
        decreases q,
    {
        q -= 1;
    }
    let mut s1 = copy_range(&v, 0, q);
    push_range(&mut s1, &v, m, n);
    proof {
        let region = l@.take(m as int);
        assert forall|j: int| q <= j < region.len() implies is_ws(region[j]) by {
            assert(region[j] == l@[j]);
        }
        if q > 0 {
            assert(region[q as int - 1] == l@[q as int - 1]);
        }
        lemma_strip_trailing_is(region, q as int);
        assert(region.take(q as int) =~= l@.subrange(0, q as int));
        assert(s1@ =~= trim_phase1(l@, end as int));
    }
    let n1 = s1.len();
    proof {
        assert(n1 == q + end);
    }
    let limit = n1 - end;
    let ghost s1v = s1@;
    let mut r: usize = 0;
    while start + r < limit && (s1[start + r] == ' ' || s1[start + r] == '\t')
        invariant
            s1v == s1@,
            n1 == s1@.len(),
            limit == n1 - end,
            r == 0 || start + r <= limit,
            forall|j: int| 0 <= j < r ==> is_ws(#[trigger] s1v[start + j]),
        decreases limit - start - r,
    {
        r += 1;
    }
    proof {
        let cap = n1 - end - start;
        if start <= n1 {
            let sk = s1v.skip(start as int);
            assert forall|j: int| 0 <= j < r implies is_ws(sk[j]) by {
                assert(is_ws(s1v[start + j]));
                assert(sk[j] == s1v[start + j]);
            }
            if start + r < limit {
                assert(!is_ws(s1v[start + r]));
                assert(sk[r as int] == s1v[start + r]);
                lemma_ws_len_is(sk, r as int);
                assert(trim_removed(s1v, start as int, end as int) == r);
            } else {
                lemma_ws_len(sk);
                if cap >= 0 {
                    assert(r == cap);
                    if (ws_len(sk) as int) < cap {
                        assert(is_ws(sk[ws_len(sk) as int]));
                        assert(false);
                    }
                    assert(trim_removed(s1v, start as int, end as int) == cap);
                } else {
                    assert(r == 0);
                    assert(trim_removed(s1v, start as int, end as int) == 0);
                }
            }
        } else {
            assert(r == 0);
            assert(trim_removed(s1v, start as int, end as int) == 0);
        }
    }
    let out_vec: Vec<char>;
    if start <= n1 {
        let mut tmp = copy_range(&s1, 0, start);
        push_range(&mut tmp, &s1, start + r, n1);
        proof {
            assert(tmp@ =~= trim_result(s1v, start as int, end as int));
        }
        out_vec = tmp;
    } else {
        proof {
            assert(s1@ =~= trim_result(s1v, start as int, end as int));
        }
        out_vec = s1;
    }
    let n2 = n1 - r;
    let tail_limit = n2 - end;
    let last: usize = if start < tail_limit {
        tail_limit - 1
    } else {
        0
    };
    proof {
        assert(last == trim_last(s1v, start as int, end as int));
    }
    (string_of(&out_vec), 0, last)
}

/// With both offsets zero, `trim` yields exactly the string without its
/// leading and trailing blanks.
pub proof fn lemma_trim_zero(s: Seq<char>)
    ensures
        trim_result(trim_phase1(s, 0), 0, 0) == trim_spec(s),
{
    assert(s.take(s.len() as int) =~= s);
    assert(s.skip(s.len() as int) =~= Seq::<char>::empty());
    let st = strip_trailing(s);
    assert(trim_phase1(s, 0) =~= st);
    lemma_ws_len(st);
    let w = ws_len(st) as int;
    assert(st.skip(0) =~= st);
    assert(trim_removed(st, 0, 0) == w);
    assert(st.take(0) =~= Seq::<char>::empty());
    assert(trim_result(st, 0, 0) =~= st.skip(w));
}

/// One left-to-right pass of replacement: every occurrence of `t` is
/// replaced by `ins`, replaced text is not visited again, and an empty
/// `t` leaves the string unchanged. The template compositor falls back to
/// this pass on texts where rescanning would never finish.
pub open spec fn replace_pass(s: Seq<char>, t: Seq<char>, ins: Seq<char>) -> Seq<char>
    decreases s.len(),
{
    if t.len() == 0 || s.len() == 0 {
        s
    } else if s.len() >= t.len() && s.take(t.len() as int) == t {
        ins + replace_pass(s.skip(t.len() as int), t, ins)
    } else {
        seq![s[0]] + replace_pass(s.drop_first(), t, ins)
    }
}

/// True when `t` occurs in `v` at position `i`.
pub(crate) fn match_at(v: &Vec<char>, t: &Vec<char>, i: usize) -> (b: bool)
    requires
        i <= v@.len(),
    ensures
        b == (i + t@.len() <= v@.len() && v@.subrange(i as int, i + t@.len()) == t@),
{
    let tn = t.len();
    let n = v.len();
    if tn > n - i {
        proof {
            assert(i + t@.len() > v@.len());
        }
        return false;
    }
    let mut j: usize = 0;
    while j < tn
        invariant
            i + tn <= n,
            n == v@.len(),
            tn == t@.len(),
            j <= tn,
            forall|k: int| 0 <= k < j ==> v@[i + k] == t@[k],
        decreases tn - j,
    {
        if v[i + j] != t[j] {
            proof {
                assert(v@.subrange(i as int, i + t@.len())[j as int] == v@[i + j]);
            }
            return false;
        }
        j += 1;
    }
    proof {
        assert(v@.subrange(i as int, i + t@.len()) =~= t@);
    }
    true
}

/// Replaces occurrences of `target` in `s` by `ins` in one left-to-right
/// pass, never revisiting replaced text.
pub(crate) fn replace_one_pass(s: &str, target: &str, ins: &str) -> (out: String)
    ensures
        out@ == replace_pass(s@, target@, ins@),
{
    let v = chars_of(s);
    let t = chars_of(target);
    let insv = chars_of(ins);
    let n = v.len();
    let tn = t.len();
    if tn == 0 {
        return s.to_owned();
    }
    let mut out: Vec<char> = Vec::new();
    let mut i: usize = 0;
    proof {
        assert(v@.skip(0) =~= s@);
    }
    while i < n
        invariant
            n == v@.len(),
            v@ == s@,
            tn == t@.len(),
            t@ == target@,
            insv@ == ins@,
            tn >= 1,
            i <= n,
            replace_pass(s@, target@, ins@) == out@ + replace_pass(
                v@.skip(i as int),
                target@,
                ins@,
            ),
        decreases n - i,
    {
        let ghost rest = v@.skip(i as int);
        let ghost out0 = out@;
        if match_at(&v, &t, i) {
            push_range(&mut out, &insv, 0, insv.len());
            proof {
                assert(rest.take(target@.len() as int) =~= v@.subrange(i as int, i + t@.len()));
                assert(rest.skip(target@.len() as int) =~= v@.skip(i + tn));
                assert(replace_pass(rest, target@, ins@) == ins@ + replace_pass(
                    v@.skip(i + tn),
                    target@,
                    ins@,
                ));
                assert(insv@.subrange(0, insv@.len() as int) =~= ins@);
                assert(out@ =~= out0 + ins@);
                assert(out0 + (ins@ + replace_pass(v@.skip(i + tn), target@, ins@)) =~= (out0
                    + ins@) + replace_pass(v@.skip(i + tn), target@, ins@));
            }
            i = i + tn;
        } else {
            let c = v[i];
            out.push(c);
            proof {
                assert(rest[0] == v@[i as int]);
                if rest.len() >= target@.len() {
                    assert(rest.take(target@.len() as int) =~= v@.subrange(i as int, i + tn));
                }
                assert(rest.drop_first() =~= v@.skip(i as int + 1));
                assert(replace_pass(rest, target@, ins@) == seq![c] + replace_pass(
                    v@.skip(i as int + 1),
                    target@,
                    ins@,
                ));
                assert(out@ =~= out0 + seq![c]);
                assert(out0 + (seq![c] + replace_pass(v@.skip(i as int + 1), target@, ins@)) =~= (
                out0 + seq![c]) + replace_pass(v@.skip(i as int + 1), target@, ins@));
            }
            i += 1;
        }
    }
    proof {
        assert(v@.skip(i as int).len() == 0);
        assert(out@ + replace_pass(v@.skip(i as int), target@, ins@) =~= out@);
    }
    string_of(&out)
}

/// Whether `t` occurs in `l`.
pub open spec fn contains_seq(l: Seq<char>, t: Seq<char>) -> bool {
    exists|i: int| 0 <= i && i + t.len() <= l.len() && #[trigger] l.subrange(i, i + t.len()) == t
}

/// Whether `t` occurs in `s` at position `j`.
pub open spec fn occurs_at(s: Seq<char>, t: Seq<char>, j: int) -> bool {
    0 <= j && j + t.len() <= s.len() && s.subrange(j, j + t.len()) == t
}

/// Position of the first occurrence of `t` in `s`, or the length of `s`
/// when there is none.
pub open spec fn occ(s: Seq<char>, t: Seq<char>) -> nat
    decreases s.len(),
{
    if s.len() >= t.len() && s.take(t.len() as int) == t {
        0
    } else if s.len() == 0 {
        0
    } else {
        1 + occ(s.drop_first(), t)
    }
}

/// Whether `t` occurs anywhere in `s`, over the first-occurrence scan.
pub open spec fn has_occ(s: Seq<char>, t: Seq<char>) -> bool {
    occ(s, t) + t.len() <= s.len()
}

pub proof fn lemma_occ(s: Seq<char>, t: Seq<char>)
    requires
        t.len() >= 1,
    ensures
        occ(s, t) <= s.len(),
        forall|j: int| 0 <= j < occ(s, t) ==> !occurs_at(s, t, j),
        has_occ(s, t) ==> occurs_at(s, t, occ(s, t) as int),
        !has_occ(s, t) ==> occ(s, t) == s.len(),
    decreases s.len(),
{
    if s.len() >= t.len() && s.take(t.len() as int) == t {
        assert(s.subrange(0, t.len() as int) =~= s.take(t.len() as int));
    } else if s.len() == 0 {
    } else {
        let dd = s.drop_first();
        lemma_occ(dd, t);
        assert forall|j: int| 0 <= j < occ(s, t) implies !occurs_at(s, t, j) by {
            if j == 0 {
                if occurs_at(s, t, 0) {
                    assert(s.take(t.len() as int) =~= s.subrange(0, t.len() as int));
                    assert(false);
                }
            } else {
                if occurs_at(s, t, j) {
                    assert(s.subrange(j, j + t.len()) =~= dd.subrange(j - 1, j - 1 + t.len()));
                    assert(occurs_at(dd, t, j - 1));
                    assert(false);
                }
            }
        }
        if has_occ(s, t) {
            assert(has_occ(dd, t));
            let o = occ(dd, t) as int;
            assert(occurs_at(dd, t, o));
            assert(dd.subrange(o, o + t.len()) =~= s.subrange(o + 1, o + 1 + t.len()));
        }
    }
}

/// `t` occurs in `s` exactly when the first-occurrence scan finds it.
pub proof fn lemma_contains_has_occ(s: Seq<char>, t: Seq<char>)
    requires
        t.len() >= 1,
    ensures
        contains_seq(s, t) <==> has_occ(s, t),
{
    lemma_occ(s, t);
    if has_occ(s, t) {
        assert(s.subrange(occ(s, t) as int, occ(s, t) as int + t.len()) == t);
    }
    if contains_seq(s, t) {
        let i = choose|i: int|
            0 <= i && i + t.len() <= s.len() && #[trigger] s.subrange(i, i + t.len()) == t;
        assert(occurs_at(s, t, i));
        if !has_occ(s, t) {
            assert(i < occ(s, t));
            assert(false);
        }
    }
}

/// The string after the first occurrence of `t` is replaced by `ins`.
pub open spec fn splice_first(s: Seq<char>, t: Seq<char>, ins: Seq<char>) -> Seq<char> {
    s.take(occ(s, t) as int) + ins + s.skip(occ(s, t) as int + t.len())
}

/// Replacing `t` by `ins` can create no occurrence of `t` across a
/// splice boundary: `ins` holds no `t`, no tail of `t` starts `ins`, and
/// no head of `t` ends `ins`.
pub open spec fn overlap_free(t: Seq<char>, ins: Seq<char>) -> bool {
    &&& !contains_seq(ins, t)
    &&& forall|l: int|
        1 <= l < t.len() && l <= ins.len() ==> t.subrange(t.len() - l, t.len() as int) != (
        #[trigger] ins.take(l))
    &&& forall|l: int|
        1 <= l < t.len() && l <= ins.len() ==> t.take(l) != (#[trigger] ins.subrange(
            ins.len() - l,
            ins.len() as int,
        ))
}

/// The radix the lexicographic measure weighs characters with: one more
/// than the largest character scalar value.
pub open spec fn char_radix() -> int {
    0x110000
}

/// A text read as a number in base [`char_radix`]: among texts of one
/// length, these values are ordered exactly as the texts are
/// lexicographically.
pub open spec fn lex_value(s: Seq<char>) -> int
    decreases s.len(),
{
    if s.len() == 0 {
        0
    } else {
        (s[0] as int) * pow(char_radix(), (s.len() - 1) as nat) + lex_value(s.drop_first())
    }
}

/// Distinct characters have distinct scalar values.
proof fn lemma_char_distinct(c1: char, c2: char)
    requires
        c1 != c2,
    ensures
        c1 as int != c2 as int,
{
    assert(c1 as u32 != c2 as u32);
    assert(c1 as int == (c1 as u32) as int);
    assert(c2 as int == (c2 as u32) as int);
}

/// A character's integer value is its scalar value.
proof fn lemma_char_int_cast(c: char)
    ensures
        c as int == (c as u32) as int,
        0 <= c as int <= 0x10FFFF,
{
    vstd::utf8::char_is_scalar(c);
    assert(c as u32 <= 0x10FFFF);
}

pub proof fn lemma_lex_value_bounds(s: Seq<char>)
    ensures
        0 <= lex_value(s) < pow(char_radix(), s.len() as nat),
    decreases s.len(),
{
    reveal(pow);
    if s.len() == 0 {
        assert(pow(char_radix(), 0) == 1);
    } else {
        let r = char_radix();
        let p = pow(r, (s.len() - 1) as nat);
        let c = s[0] as int;
        let rest = lex_value(s.drop_first());
        lemma_lex_value_bounds(s.drop_first());
        lemma_pow_positive(r, (s.len() - 1) as nat);
        lemma_char_int_cast(s[0]);
        assert(0 <= c <= 0x10FFFF);
        assert(pow(r, s.len() as nat) == r * p);
        assert(0 <= c * p + rest < r * p) by (nonlinear_arith)
            requires
                0 <= c,
                c + 1 <= r,
                0 <= rest < p,
                p > 0;
    }
}

pub proof fn lemma_lex_value_append(a: Seq<char>, b: Seq<char>)
    ensures
        lex_value(a + b) == lex_value(a) * pow(char_radix(), b.len()) + lex_value(b),
    decreases a.len(),
{
    let r = char_radix();
    if a.len() == 0 {
        assert(a + b =~= b);
        assert(lex_value(a) == 0);
    } else {
        let ab = a + b;
        assert(ab[0] == a[0]);
        assert(ab.drop_first() =~= a.drop_first() + b);
        lemma_lex_value_append(a.drop_first(), b);
        let pb = pow(r, b.len());
        let pa1 = pow(r, (a.len() - 1) as nat);
        lemma_pow_adds(r, (a.len() - 1) as nat, b.len());
        assert(pow(r, (ab.len() - 1) as nat) == pa1 * pb);
        let c = a[0] as int;
        let arest = lex_value(a.drop_first());
        assert(lex_value(ab) == c * (pa1 * pb) + (arest * pb + lex_value(b)));
        assert(c * (pa1 * pb) + arest * pb == (c * pa1 + arest) * pb) by (nonlinear_arith);
    }
}

/// Texts of one length that first differ at `d` are ordered by the
/// characters there.
pub proof fn lemma_lex_value_strict(u: Seq<char>, w: Seq<char>, d: int)
    requires
        u.len() == w.len(),
        0 <= d < u.len(),
        forall|j: int| 0 <= j < d ==> u[j] == w[j],
        (u[d] as int) < (w[d] as int),
    ensures
        lex_value(u) < lex_value(w),
{
    let r = char_radix();
    let us = u.skip(d);
    let ws = w.skip(d);
    assert(u =~= u.take(d) + us);
    assert(w =~= w.take(d) + ws);
    assert(u.take(d) =~= w.take(d));
    lemma_lex_value_append(u.take(d), us);
    lemma_lex_value_append(w.take(d), ws);
    let ll = us.len();
    assert(ll >= 1);
    let p = pow(r, (ll - 1) as nat);
    assert(us[0] == u[d]);
    assert(ws[0] == w[d]);
    lemma_lex_value_bounds(us.drop_first());
    lemma_lex_value_bounds(ws.drop_first());
    lemma_pow_positive(r, (ll - 1) as nat);
    let cu = us[0] as int;
    let cw = ws[0] as int;
    let ru = lex_value(us.drop_first());
    let rw = lex_value(ws.drop_first());
    assert(cu * p + ru < cw * p + rw) by (nonlinear_arith)
        requires
            cu < cw,
            0 <= ru < p,
            0 <= rw,
            p > 0;
    assert(lex_value(us) < lex_value(ws));
}

/// Length of the longest common prefix of two texts.
pub open spec fn diff_len(a: Seq<char>, b: Seq<char>) -> nat
    decreases a.len(),
{
    if a.len() == 0 || b.len() == 0 || a[0] != b[0] {
        0
    } else {
        1 + diff_len(a.drop_first(), b.drop_first())
    }
}

/// Different texts of one length differ first right after their common
/// prefix.
pub proof fn lemma_diff_len(a: Seq<char>, b: Seq<char>)
    requires
        a.len() == b.len(),
        a != b,
    ensures
        diff_len(a, b) < a.len(),
        forall|j: int| 0 <= j < diff_len(a, b) ==> a[j] == b[j],
        a[diff_len(a, b) as int] != b[diff_len(a, b) as int],
    decreases a.len(),
{
    if a.len() == 0 {
        assert(a =~= b);
    } else if a[0] != b[0] {
    } else {
        if a.drop_first() == b.drop_first() {
            assert forall|j: int| 0 <= j < a.len() implies a[j] == b[j] by {
                if j > 0 {
                    assert(a[j] == a.drop_first()[j - 1]);
                    assert(b[j] == b.drop_first()[j - 1]);
                }
            }
            assert(a =~= b);
        }
        lemma_diff_len(a.drop_first(), b.drop_first());
        assert forall|j: int| 0 <= j < diff_len(a, b) implies a[j] == b[j] by {
            if j > 0 {
                assert(a[j] == a.drop_first()[j - 1]);
                assert(b[j] == b.drop_first()[j - 1]);
            }
        }
        assert(a[diff_len(a, b) as int] == a.drop_first()[diff_len(a, b) - 1]);
        assert(b[diff_len(a, b) as int] == b.drop_first()[diff_len(a, b) - 1]);
    }
}

/// The bound the rewrite loop runs down: the whole length while each
/// replacement shortens the text; the text's rank — downward or upward —
/// while each replacement moves it lexicographically; the distance from
/// the first occurrence to the end once boundaries can create nothing
/// new.
pub open spec fn rep_measure(s: Seq<char>, t: Seq<char>, ins: Seq<char>) -> int {
    if ins.len() < t.len() {
        s.len() as int
    } else if ins.len() == t.len() {
        if lex_value(ins) < lex_value(t) {
            lex_value(s)
        } else {
            pow(char_radix(), s.len() as nat) - lex_value(s)
        }
    } else {
        s.len() - occ(s, t)
    }
}

/// The rewrites the replace loop provably finishes: each substitution
/// shortens the text, or keeps its length while changing it, or no
/// splice boundary can recreate the target. Outside this, replacing the
/// target over and over can grow the text forever — replacing `ab` by
/// `bbaa` in `aab` never ends, although `bbaa` holds no `ab`.
pub open spec fn rewrite_finite(t: Seq<char>, ins: Seq<char>) -> bool {
    ||| ins.len() < t.len()
    ||| ins.len() == t.len() && ins != t
    ||| overlap_free(t, ins)
}

/// With `overlap_free` and an insertion at least as long as the target,
/// the spliced string has no occurrence of the target before the end of
/// the inserted text.
pub proof fn lemma_no_new_occurrence(s: Seq<char>, t: Seq<char>, ins: Seq<char>)
    requires
        t.len() >= 1,
        ins.len() >= t.len(),
        overlap_free(t, ins),
        has_occ(s, t),
    ensures
        forall|j: int|
            0 <= j < occ(s, t) + ins.len() ==> !occurs_at(splice_first(s, t, ins), t, j),
{
    let m = t.len() as int;
    let i = occ(s, t) as int;
    let u = splice_first(s, t, ins);
    lemma_occ(s, t);
    assert(u.len() == s.len() + ins.len() - m);
    assert forall|j: int| 0 <= j < i + ins.len() implies !occurs_at(u, t, j) by {
        if occurs_at(u, t, j) {
            if j + m <= i {
                assert forall|q: int| 0 <= q < m implies #[trigger] s.subrange(j, j + m)[q]
                    == u.subrange(j, j + m)[q] by {
                    assert(u[j + q] == s[j + q]);
                }
                assert(s.subrange(j, j + m) =~= u.subrange(j, j + m));
                assert(occurs_at(s, t, j));
                assert(false);
            } else if j < i {
                let l = j + m - i;
                assert(1 <= l < m);
                assert(l <= ins.len());
                assert forall|q: int| 0 <= q < l implies ins.take(l)[q] == t.subrange(
                    m - l,
                    m,
                )[q] by {
                    assert(u[i + q] == ins[q]);
                    assert(u.subrange(j, j + m)[i + q - j] == u[i + q]);
                    assert(t[m - l + q] == u[i + q]);
                }
                assert(ins.take(l) =~= t.subrange(m - l, m));
                assert(false);
            } else if j + m <= i + ins.len() {
                assert forall|q: int| 0 <= q < m implies ins.subrange(j - i, j - i + m)[q]
                    == t[q] by {
                    assert(u[j + q] == ins[j - i + q]);
                    assert(u.subrange(j, j + m)[q] == u[j + q]);
                }
                assert(ins.subrange(j - i, j - i + m) =~= t);
                assert(contains_seq(ins, t));
                assert(false);
            } else {
                let l = i + ins.len() - j;
                assert(1 <= l < m);
                assert(l <= ins.len());
                assert forall|q: int| 0 <= q < l implies ins.subrange(
                    ins.len() - l,
                    ins.len() as int,
                )[q] == t.take(l)[q] by {
                    assert(u[j + q] == ins[j - i + q]);
                    assert(u.subrange(j, j + m)[q] == u[j + q]);
                    assert(j - i + q == ins.len() - l + q);
                }
                assert(ins.subrange(ins.len() - l, ins.len() as int) =~= t.take(l));
                assert(false);
            }
        }
    }
}

/// Each splice strictly shrinks the rewrite bound.
pub proof fn lemma_replace_all_step(s: Seq<char>, t: Seq<char>, ins: Seq<char>)
    requires
        t.len() >= 1,
        rewrite_finite(t, ins),
        has_occ(s, t),
    ensures
        0 <= rep_measure(splice_first(s, t, ins), t, ins) < rep_measure(s, t, ins),
{
    let m = t.len() as int;
    let i = occ(s, t) as int;
    let u = splice_first(s, t, ins);
    lemma_occ(s, t);
    assert(u.len() == s.len() + ins.len() - m);
    if ins.len() < t.len() {
    } else if ins.len() == t.len() {
        // an equal-length splice moves the text strictly in one
        // lexicographic direction, so its rank is the bound
        if ins == t {
            assert(ins.take(t.len() as int) =~= ins);
            assert(occ(ins, t) == 0);
            assert(has_occ(ins, t));
            lemma_contains_has_occ(ins, t);
            assert(false);
        }
        let r = char_radix();
        let pre = s.take(i);
        let post = s.skip(i + m);
        assert(s.subrange(i, i + m) == t);
        assert(s =~= pre + (t + post));
        assert(u =~= pre + (ins + post));
        lemma_lex_value_append(pre, t + post);
        lemma_lex_value_append(t, post);
        lemma_lex_value_append(pre, ins + post);
        lemma_lex_value_append(ins, post);
        assert((t + post).len() == (ins + post).len());
        let pc = pow(r, post.len());
        lemma_pow_positive(r, post.len());
        lemma_diff_len(ins, t);
        let d = diff_len(ins, t) as int;
        lemma_lex_value_bounds(s);
        lemma_lex_value_bounds(u);
        lemma_char_distinct(ins[d], t[d]);
        if (ins[d] as int) < (t[d] as int) {
            lemma_lex_value_strict(ins, t, d);
            assert(lex_value(ins) * pc < lex_value(t) * pc) by (nonlinear_arith)
                requires
                    lex_value(ins) < lex_value(t),
                    pc > 0;
            assert(lex_value(u) < lex_value(s));
        } else {
            assert((t[d] as int) < (ins[d] as int));
            assert forall|j: int| 0 <= j < d implies t[j] == ins[j] by {
                assert(ins[j] == t[j]);
            }
            lemma_lex_value_strict(t, ins, d);
            assert(lex_value(t) * pc < lex_value(ins) * pc) by (nonlinear_arith)
                requires
                    lex_value(t) < lex_value(ins),
                    pc > 0;
            assert(lex_value(s) < lex_value(u));
        }
    } else {
        lemma_no_new_occurrence(s, t, ins);
        lemma_occ(u, t);
        if has_occ(u, t) {
            assert(occurs_at(u, t, occ(u, t) as int));
            if (occ(u, t) as int) < i + ins.len() {
                assert(!occurs_at(u, t, occ(u, t) as int));
                assert(false);
            }
        }
    }
}

/// Every occurrence of `t` replaced by `ins`, rescanning from the start
/// after each substitution until none remains — spliced-in text included.
/// Defined where the rewrite provably finishes: the insertion is shorter
/// than the target, or no splice boundary can recreate it.
pub open spec fn replace_all(s: Seq<char>, t: Seq<char>, ins: Seq<char>) -> Seq<char>
    decreases rep_measure(s, t, ins),
    when t.len() >= 1 && rewrite_finite(t, ins)
    via replace_all_decreases
{
    if !has_occ(s, t) {
        s
    } else {
        replace_all(splice_first(s, t, ins), t, ins)
    }
}

#[via_fn]
proof fn replace_all_decreases(s: Seq<char>, t: Seq<char>, ins: Seq<char>) {
    if has_occ(s, t) {
        lemma_replace_all_step(s, t, ins);
    }
}

/// Index of the first occurrence of `t` in `v`, or the end.
fn scan_occ(v: &Vec<char>, t: &Vec<char>) -> (k: usize)
    requires
        t@.len() >= 1,
    ensures
        k == occ(v@, t@),
{
    let n = v.len();
    let mut j: usize = 0;
    proof {
        assert(v@.skip(0) =~= v@);
    }
    while j < n
        invariant
            j <= n,
            n == v@.len(),
            t@.len() >= 1,
            occ(v@, t@) as int == j + occ(v@.skip(j as int), t@),
        decreases n - j,
    {
        let ghost rest = v@.skip(j as int);
        if match_at(v, t, j) {
            proof {
                assert(rest.take(t@.len() as int) =~= v@.subrange(j as int, j + t@.len()));
                assert(occ(rest, t@) == 0);
            }
            return j;
        }
        proof {
            if rest.len() >= t@.len() {
                assert(rest.take(t@.len() as int) =~= v@.subrange(j as int, j + t@.len()));
            }
            assert(rest.drop_first() =~= v@.skip(j as int + 1));
            assert(occ(rest, t@) == 1 + occ(rest.drop_first(), t@));
        }
        j += 1;
    }
    proof {
        assert(v@.skip(j as int).len() == 0);
        assert(occ(v@.skip(j as int), t@) == 0);
    }
    j
}

/// Replaces every occurrence of `target` in `s` by `ins`, rescanning
/// from the start after each substitution until no occurrence remains.
/// The precondition keeps the rewrite provably finite, as
/// [`rewrite_finite`] describes.
pub fn replace(s: &str, target: &str, ins: &str) -> (out: String)
    requires
        target@.len() >= 1,
        rewrite_finite(target@, ins@),
    ensures
        out@ == replace_all(s@, target@, ins@),
        !contains_seq(out@, target@),
{
    let t = chars_of(target);
    let insv = chars_of(ins);
    let mut cur = chars_of(s);
    let mut k = scan_occ(&cur, &t);
    proof {
        lemma_occ(cur@, t@);
    }
    while cur.len() - k >= t.len()
        invariant
            t@ == target@,
            insv@ == ins@,
            t@.len() >= 1,
            rewrite_finite(target@, ins@),
            k == occ(cur@, target@),
            k <= cur@.len(),
            replace_all(s@, target@, ins@) == replace_all(cur@, target@, ins@),
        decreases rep_measure(cur@, target@, ins@),
    {
        let ghost prev = cur@;
        let mut next = copy_range(&cur, 0, k);
        push_range(&mut next, &insv, 0, insv.len());
        push_range(&mut next, &cur, k + t.len(), cur.len());
        proof {
            assert(insv@.subrange(0, insv@.len() as int) =~= ins@);
            assert(next@ =~= splice_first(prev, target@, ins@));
            assert(has_occ(prev, target@));
            lemma_replace_all_step(prev, target@, ins@);
            assert(replace_all(prev, target@, ins@) == replace_all(
                splice_first(prev, target@, ins@),
                target@,
                ins@,
            ));
        }
        cur = next;
        k = scan_occ(&cur, &t);
        proof {
            lemma_occ(cur@, t@);
        }
    }
    proof {
        assert(!has_occ(cur@, target@));
        assert(replace_all(cur@, target@, ins@) == cur@);
        lemma_contains_has_occ(cur@, target@);
    }
    string_of(&cur)
}

} // verus!
