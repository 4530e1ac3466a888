//! The bracket-markup transducer and the page front matter around it.
//!
//! A page body is written in a bracket grammar: `[ tag attr: "value" |
//! content ]`. One forward pass rewrites every well-formed block into an
//! HTML element, normalises the attribute syntax (`,` separators dropped,
//! `:` turned into `=`, stray blanks removed), and lets everything
//! malformed fall through as literal text, so a bad page still renders.
//!
//! The pass is specified by the recursive function [`run`] over the
//! remaining input: a quote flag suppresses all structure inside
//! double-quoted spans, a head flag marks the span between a valid `[`
//! and its `|`, and a stack records the open elements — a named frame for
//! each well-formed block and an anonymous frame for each malformed
//! bracket, so closing brackets always pair with the innermost opening.

use vstd::prelude::*;

verus! {

use crate::chars::{
    chars_of, copy_range, is_ws, lemma_strip_trailing_is, lemma_ws_len, lemma_ws_len_is,
    push_range, string_of, strip_cr, strip_trailing, trim_spec, ws_len,
};

/// One `name: value` pair from a page's metadata block.
pub struct Metadata {
    pub name: String,
    pub value: String,
}

/// The error type a failed page parse would report. Parsing never fails —
/// malformed markup degrades to literal text instead — so no function of
/// this library constructs the value; the type stays for callers that
/// expect a page parse to have an error type.
#[derive(Debug)]
pub struct PageParseError;

/// A parsed page: the metadata pairs of its header and its content text.
pub struct Page {
    pub meta: Vec<Metadata>,
    pub content: String,
}

/// The pairs a metadata list stands for.
pub open spec fn meta_pairs(m: Seq<Metadata>) -> Seq<(Seq<char>, Seq<char>)> {
    m.map_values(|x: Metadata| (x.name@, x.value@))
}

/// A character the block-validity lookahead stops at.
pub open spec fn is_structural(c: char) -> bool {
    c == '|' || c == ']' || c == '['
}

/// A character that ends a tag name.
pub open spec fn is_name_end(c: char) -> bool {
    c == ',' || c == ' ' || c == '\t' || c == '\n' || c == '|' || c == ']'
}

/// Count of leading characters that can still belong to a tag name.
pub open spec fn name_len(s: Seq<char>) -> nat
    decreases s.len(),
{
    if s.len() == 0 || is_name_end(s[0]) {
        0
    } else {
        1 + name_len(s.drop_first())
    }
}

/// Count of leading characters before the first structural one.
pub open spec fn structural_len(s: Seq<char>) -> nat
    decreases s.len(),
{
    if s.len() == 0 || is_structural(s[0]) {
        0
    } else {
        1 + structural_len(s.drop_first())
    }
}

pub proof fn lemma_name_len(s: Seq<char>)
    ensures
        name_len(s) <= s.len(),
        forall|j: int| 0 <= j < name_len(s) ==> !is_name_end(s[j]),
        name_len(s) < s.len() ==> is_name_end(s[name_len(s) as int]),
    decreases s.len(),
{
    if s.len() > 0 && !is_name_end(s[0]) {
        lemma_name_len(s.drop_first());
        assert forall|j: int| 0 <= j < name_len(s) implies !is_name_end(s[j]) by {
            if j > 0 {
                assert(s[j] == s.drop_first()[j - 1]);
            }
        }
    }
}

pub proof fn lemma_structural_len(s: Seq<char>)
    ensures
        structural_len(s) <= s.len(),
        forall|j: int| 0 <= j < structural_len(s) ==> !is_structural(s[j]),
        structural_len(s) < s.len() ==> is_structural(s[structural_len(s) as int]),
    decreases s.len(),
{
    if s.len() > 0 && !is_structural(s[0]) {
        lemma_structural_len(s.drop_first());
        assert forall|j: int| 0 <= j < structural_len(s) implies !is_structural(s[j]) by {
            if j > 0 {
                assert(s[j] == s.drop_first()[j - 1]);
            }
        }
    }
}

/// The lookahead that decides whether an opening bracket begins a
/// well-formed block: in the text after the bracket, a separator `|`
/// must be the first structural character — a closing bracket, a further
/// opening bracket, or the end of the text first all mean the block is
/// malformed and stays literal.
pub open spec fn lookahead_valid(s: Seq<char>) -> bool {
    structural_len(s) < s.len() && s[structural_len(s) as int] == '|'
}

/// The closing tag for `name`.
pub open spec fn close_tag(name: Seq<char>) -> Seq<char> {
    seq!['<', '/'] + name + seq!['>']
}

/// What a closing bracket emits: the closing tag of the innermost open
/// element, the bracket itself when the innermost opening was malformed,
/// or a closing tag with an empty name when nothing is open at all.
pub open spec fn close_emit(stack: Seq<Option<Seq<char>>>) -> Seq<char> {
    if stack.len() == 0 {
        close_tag(Seq::empty())
    } else {
        match stack.last() {
            Some(name) => close_tag(name),
            None => seq![']'],
        }
    }
}

/// The stack after a closing bracket: the innermost frame is gone.
pub open spec fn pop_frame(stack: Seq<Option<Seq<char>>>) -> Seq<Option<Seq<char>>> {
    if stack.len() == 0 {
        stack
    } else {
        stack.drop_last()
    }
}

/// One forward pass over the remaining input `s`.
///
/// `quoted` is true inside a double-quoted span, where every character
/// passes through and only the closing quote has meaning. `head` is true
/// between a valid opening bracket and its `|`, where the attribute
/// rewrites apply. `stack` holds the open elements, innermost last:
/// `Some(name)` for a well-formed block, `None` for a malformed bracket
/// that was emitted literally.
pub open spec fn run(
    s: Seq<char>,
    quoted: bool,
    head: bool,
    stack: Seq<Option<Seq<char>>>,
) -> Seq<char>
    decreases s.len(),
    via run_decreases
{
    if s.len() == 0 {
        Seq::empty()
    } else {
        let c = s[0];
        let tail = s.drop_first();
        if quoted {
            seq![c] + run(tail, c != '"', head, stack)
        } else if head {
            if c == '"' {
                seq![c] + run(tail, true, true, stack)
            } else if c == '|' {
                seq!['>'] + run(tail.skip(ws_len(tail) as int), false, false, stack)
            } else if c == ']' {
                close_emit(stack) + run(tail, false, false, pop_frame(stack))
            } else if c == ':' {
                seq!['='] + run(tail.skip(ws_len(tail) as int), false, true, stack)
            } else if c == ',' {
                run(tail, false, true, stack)
            } else if is_ws(c) {
                let after = s.skip(ws_len(s) as int);
                if after.len() > 0 && (after[0] == '|' || after[0] == ':' || after[0] == '"') {
                    run(after, false, true, stack)
                } else {
                    s.take(ws_len(s) as int) + run(after, false, true, stack)
                }
            } else {
                seq![c] + run(tail, false, true, stack)
            }
        } else {
            if c == '"' {
                seq![c] + run(tail, true, false, stack)
            } else if c == '[' {
                if lookahead_valid(tail) {
                    let after_ws = tail.skip(ws_len(tail) as int);
                    let name = after_ws.take(name_len(after_ws) as int);
                    seq!['<'] + name + run(
                        after_ws.skip(name_len(after_ws) as int),
                        false,
                        true,
                        stack.push(Some(name)),
                    )
                } else {
                    seq!['['] + run(tail, false, false, stack.push(None))
                }
            } else if c == ']' {
                close_emit(stack) + run(tail, false, false, pop_frame(stack))
            } else {
                seq![c] + run(tail, false, false, stack)
            }
        }
    }
}

#[via_fn]
proof fn run_decreases(s: Seq<char>, quoted: bool, head: bool, stack: Seq<Option<Seq<char>>>) {
    if s.len() > 0 {
        let tail = s.drop_first();
        lemma_ws_len(s);
        lemma_ws_len(tail);
        let after_ws = tail.skip(ws_len(tail) as int);
        lemma_name_len(after_ws);
        assert(after_ws.len() <= tail.len());
        assert(after_ws.skip(name_len(after_ws) as int).len() <= after_ws.len());
        if is_ws(s[0]) {
            assert(ws_len(s) == 1 + ws_len(s.drop_first()));
            assert(ws_len(s) >= 1);
        }
    }
}

/// The whole transducer: one pass over the text, starting outside any
/// block, outside any quote, with nothing open. Whatever is still open
/// when the text ends is dropped without a closing tag.
pub open spec fn transduce(s: Seq<char>) -> Seq<char> {
    run(s, false, false, Seq::empty())
}

/// Index of the first character at or after `from` that is not a space
/// or tab.
fn scan_ws(v: &Vec<char>, from: usize) -> (k: usize)
    requires
        from <= v@.len(),
    ensures
        from <= k <= v@.len(),
        k - from == ws_len(v@.skip(from as int)),
{
    let n = v.len();
    let mut j = from;
    while j < n && (v[j] == ' ' || v[j] == '\t')
        invariant
            from <= j <= n,
            n == v@.len(),
            ws_len(v@.skip(from as int)) as int == (j - from) + ws_len(v@.skip(j as int)),
        decreases n - j,
    {
        proof {
            let rest = v@.skip(j as int);
            assert(rest[0] == v@[j as int]);
            assert(rest.drop_first() =~= v@.skip(j as int + 1));
            assert(ws_len(rest) == 1 + ws_len(rest.drop_first()));
        }
        j += 1;
    }
    proof {
        let rest = v@.skip(j as int);
        if j < n {
            assert(rest[0] == v@[j as int]);
            assert(ws_len(rest) == 0);
        } else {
            assert(rest.len() == 0);
            assert(ws_len(rest) == 0);
        }
    }
    j
}

/// Index of the first character at or after `from` that ends a tag name.
fn scan_name(v: &Vec<char>, from: usize) -> (k: usize)
    requires
        from <= v@.len(),
    ensures
        from <= k <= v@.len(),
        k - from == name_len(v@.skip(from as int)),
{
    let n = v.len();
    let mut j = from;
    while j < n && !(v[j] == ',' || v[j] == ' ' || v[j] == '\t' || v[j] == '\n' || v[j] == '|'
        || v[j] == ']')
        invariant
            from <= j <= n,
            n == v@.len(),
            name_len(v@.skip(from as int)) as int == (j - from) + name_len(v@.skip(j as int)),
        decreases n - j,
    {
        proof {
            let rest = v@.skip(j as int);
            assert(rest[0] == v@[j as int]);
            assert(rest.drop_first() =~= v@.skip(j as int + 1));
            assert(name_len(rest) == 1 + name_len(rest.drop_first()));
        }
        j += 1;
    }
    proof {
        let rest = v@.skip(j as int);
        if j < n {
            assert(rest[0] == v@[j as int]);
            assert(name_len(rest) == 0);
        } else {
            assert(name_len(rest) == 0);
        }
    }
    j
}

/// Runs the block-validity lookahead on the text from `from` on.
fn scan_valid(v: &Vec<char>, from: usize) -> (b: bool)
    requires
        from <= v@.len(),
    ensures
        b == lookahead_valid(v@.skip(from as int)),
{
    let n = v.len();
    let mut j = from;
    while j < n && !(v[j] == '|' || v[j] == ']' || v[j] == '[')
        invariant
            from <= j <= n,
            n == v@.len(),
            structural_len(v@.skip(from as int)) as int == (j - from) + structural_len(
                v@.skip(j as int),
            ),
        decreases n - j,
    {
        proof {
            let rest = v@.skip(j as int);
            assert(rest[0] == v@[j as int]);
            assert(rest.drop_first() =~= v@.skip(j as int + 1));
            assert(structural_len(rest) == 1 + structural_len(rest.drop_first()));
        }
        j += 1;
    }
    proof {
        let rest = v@.skip(j as int);
        let whole = v@.skip(from as int);
        if j < n {
            assert(rest[0] == v@[j as int]);
            assert(structural_len(rest) == 0);
            assert(structural_len(whole) as int == j - from);
            assert(whole[j - from] == v@[j as int]);
        } else {
            assert(structural_len(rest) == 0);
            assert(structural_len(whole) == whole.len());
        }
    }
    if j < n {
        let c = v[j];
        c == '|'
    } else {
        false
    }
}

/// Appends the closing tag of the innermost open frame to `out` and pops
/// the frame, as [`close_emit`] and [`pop_frame`] describe.
fn pop_close(out: &mut Vec<char>, stack: &mut Vec<Option<Vec<char>>>)
    ensures
        final(out)@ == old(out)@ + close_emit(old(stack).deep_view()),
        final(stack).deep_view() == pop_frame(old(stack).deep_view()),
{
    proof {
        assert(stack.deep_view().len() == stack@.len());
    }
    match stack.pop() {
        None => {
            out.push('<');
            out.push('/');
            out.push('>');
            proof {
                assert(old(stack).deep_view().len() == 0);
                assert(out@ =~= old(out)@ + close_tag(Seq::<char>::empty()));
                assert(stack.deep_view() =~= pop_frame(old(stack).deep_view()));
            }
        },
        Some(frame) => {
            proof {
                let ghost odv = old(stack).deep_view();
                assert(odv.len() > 0);
                assert(odv.last() == old(stack)@.last().deep_view());
                assert(stack.deep_view() =~= odv.drop_last());
            }
            match frame {
                None => {
                    out.push(']');
                    proof {
                        assert(out@ =~= old(out)@ + close_emit(old(stack).deep_view()));
                    }
                },
                Some(name) => {
                    out.push('<');
                    out.push('/');
                    let ghost mid = out@;
                    push_range(out, &name, 0, name.len());
                    out.push('>');
                    proof {
                        assert(name.deep_view() == name@);
                        assert(name@.subrange(0, name@.len() as int) =~= name@);
                        assert(out@ =~= old(out)@ + close_tag(name@));
                    }
                },
            }
        },
    }
}

/// Rewrites one page body: every well-formed bracket block becomes an
/// HTML element with its attributes normalised, and malformed brackets
/// pass through as literal text. The output is exactly [`transduce`] of
/// the input.
#[verifier::rlimit(60)]
pub fn parse_granite(s: &str) -> (out: String)
    ensures
        out@ == transduce(s@),
{
    let v = chars_of(s);
    let n = v.len();
    let mut out: Vec<char> = Vec::new();
    let mut stack: Vec<Option<Vec<char>>> = Vec::new();
    let mut quoted = false;
    let mut head = false;
    let mut i: usize = 0;
    proof {
        assert(v@.skip(0) =~= s@);
        assert(stack.deep_view() =~= Seq::<Option<Seq<char>>>::empty());
    }
    while i < n
        invariant
            n == v@.len(),
            v@ == s@,
            i <= n,
            transduce(s@) == out@ + run(v@.skip(i as int), quoted, head, stack.deep_view()),
        decreases n - i,
    {
        let ghost rest = v@.skip(i as int);
        let ghost out0 = out@;
        let ghost st0 = stack.deep_view();
        let ghost q0 = quoted;
        let ghost h0 = head;
        proof {
            assert(rest.len() == n - i);
            assert(rest[0] == v@[i as int]);
            assert(rest.drop_first() =~= v@.skip(i as int + 1));
        }
        let c = v[i];
        if quoted {
            out.push(c);
            quoted = c != '"';
            i += 1;
            proof {
                assert(run(rest, true, h0, st0) == seq![c] + run(
                    rest.drop_first(),
                    c != '"',
                    h0,
                    st0,
                ));
                assert(out@ =~= out0 + seq![c]);
                assert(out0 + (seq![c] + run(v@.skip(i as int), quoted, head, st0)) =~= (out0
                    + seq![c]) + run(v@.skip(i as int), quoted, head, st0));
            }
        } else if head {
            if c == '"' {
                out.push(c);
                quoted = true;
                i += 1;
                proof {
                    assert(run(rest, false, true, st0) == seq![c] + run(
                        rest.drop_first(),
                        true,
                        true,
                        st0,
                    ));
                    assert(out@ =~= out0 + seq![c]);
                    assert(out0 + (seq![c] + run(v@.skip(i as int), true, true, st0)) =~= (out0
                        + seq![c]) + run(v@.skip(i as int), true, true, st0));
                }
            } else if c == '|' {
                out.push('>');
                head = false;
                let k = scan_ws(&v, i + 1);
                proof {
                    let tail = rest.drop_first();
                    assert(tail.skip(ws_len(tail) as int) =~= v@.skip(k as int));
                    assert(run(rest, false, true, st0) == seq!['>'] + run(
                        v@.skip(k as int),
                        false,
                        false,
                        st0,
                    ));
                    assert(out@ =~= out0 + seq!['>']);
                    assert(out0 + (seq!['>'] + run(v@.skip(k as int), false, false, st0)) =~= (out0
                        + seq!['>']) + run(v@.skip(k as int), false, false, st0));
                }
                i = k;
            } else if c == ']' {
                pop_close(&mut out, &mut stack);
                head = false;
                i += 1;
                proof {
                    assert(run(rest, false, true, st0) == close_emit(st0) + run(
                        rest.drop_first(),
                        false,
                        false,
                        pop_frame(st0),
                    ));
                    assert(out0 + (close_emit(st0) + run(
                        v@.skip(i as int),
                        false,
                        false,
                        pop_frame(st0),
                    )) =~= (out0 + close_emit(st0)) + run(
                        v@.skip(i as int),
                        false,
                        false,
                        pop_frame(st0),
                    ));
                }
            } else if c == ':' {
                out.push('=');
                let k = scan_ws(&v, i + 1);
                proof {
                    let tail = rest.drop_first();
                    assert(tail.skip(ws_len(tail) as int) =~= v@.skip(k as int));
                    assert(run(rest, false, true, st0) == seq!['='] + run(
                        v@.skip(k as int),
                        false,
                        true,
                        st0,
                    ));
                    assert(out@ =~= out0 + seq!['=']);
                    assert(out0 + (seq!['='] + run(v@.skip(k as int), false, true, st0)) =~= (out0
                        + seq!['=']) + run(v@.skip(k as int), false, true, st0));
                }
                i = k;
            } else if c == ',' {
                i += 1;
                proof {
                    assert(run(rest, false, true, st0) == run(rest.drop_first(), false, true, st0));
                }
            } else if c == ' ' || c == '\t' {
                let k = scan_ws(&v, i);
                proof {
                    assert(rest.skip(ws_len(rest) as int) =~= v@.skip(k as int));
                    assert(rest.take(ws_len(rest) as int) =~= v@.subrange(i as int, k as int));
                }
                if k < n && (v[k] == '|' || v[k] == ':' || v[k] == '"') {
                    proof {
                        let after = rest.skip(ws_len(rest) as int);
                        assert(after[0] == v@[k as int]);
                        assert(run(rest, false, true, st0) == run(after, false, true, st0));
                    }
                    i = k;
                } else {
                    push_range(&mut out, &v, i, k);
                    proof {
                        let after = rest.skip(ws_len(rest) as int);
                        if after.len() > 0 {
                            assert(after[0] == v@[k as int]);
                        }
                        assert(run(rest, false, true, st0) == rest.take(ws_len(rest) as int) + run(
                            after,
                            false,
                            true,
                            st0,
                        ));
                        assert(out@ =~= out0 + rest.take(ws_len(rest) as int));
                        assert(out0 + (rest.take(ws_len(rest) as int) + run(
                            v@.skip(k as int),
                            false,
                            true,
                            st0,
                        )) =~= (out0 + rest.take(ws_len(rest) as int)) + run(
                            v@.skip(k as int),
                            false,
                            true,
                            st0,
                        ));
                    }
                    i = k;
                }
            } else {
                out.push(c);
                i += 1;
                proof {
                    assert(run(rest, false, true, st0) == seq![c] + run(
                        rest.drop_first(),
                        false,
                        true,
                        st0,
                    ));
                    assert(out@ =~= out0 + seq![c]);
                    assert(out0 + (seq![c] + run(v@.skip(i as int), false, true, st0)) =~= (out0
                        + seq![c]) + run(v@.skip(i as int), false, true, st0));
                }
            }
        } else {
            if c == '"' {
                out.push(c);
                quoted = true;
                i += 1;
                proof {
                    assert(run(rest, false, false, st0) == seq![c] + run(
                        rest.drop_first(),
                        true,
                        false,
                        st0,
                    ));
                    assert(out@ =~= out0 + seq![c]);
                    assert(out0 + (seq![c] + run(v@.skip(i as int), true, false, st0)) =~= (out0
                        + seq![c]) + run(v@.skip(i as int), true, false, st0));
                }
            } else if c == '[' {
                let valid = scan_valid(&v, i + 1);
                if valid {
                    out.push('<');
                    let ghost mid = out@;
                    let j = scan_ws(&v, i + 1);
                    let k = scan_name(&v, j);
                    let name = copy_range(&v, j, k);
                    push_range(&mut out, &v, j, k);
                    stack.push(Some(name));
                    head = true;
                    proof {
                        let tail = rest.drop_first();
                        let after_ws = tail.skip(ws_len(tail) as int);
                        assert(after_ws =~= v@.skip(j as int));
                        assert(after_ws.take(name_len(after_ws) as int) =~= v@.subrange(
                            j as int,
                            k as int,
                        ));
                        assert(after_ws.skip(name_len(after_ws) as int) =~= v@.skip(k as int));
                        let nm = after_ws.take(name_len(after_ws) as int);
                        assert(run(rest, false, false, st0) == seq!['<'] + nm + run(
                            v@.skip(k as int),
                            false,
                            true,
                            st0.push(Some(nm)),
                        ));
                        assert(stack.deep_view() =~~= st0.push(Some(nm)));
                        assert(out@ =~= out0 + (seq!['<'] + nm));
                        assert(out0 + ((seq!['<'] + nm) + run(
                            v@.skip(k as int),
                            false,
                            true,
                            st0.push(Some(nm)),
                        )) =~= (out0 + (seq!['<'] + nm)) + run(
                            v@.skip(k as int),
                            false,
                            true,
                            st0.push(Some(nm)),
                        ));
                    }
                    i = k;
                } else {
                    out.push('[');
                    stack.push(None);
                    i += 1;
                    proof {
                        assert(run(rest, false, false, st0) == seq!['['] + run(
                            rest.drop_first(),
                            false,
                            false,
                            st0.push(None),
                        ));
                        assert(stack.deep_view() =~= st0.push(None));
                        assert(out@ =~= out0 + seq!['[']);
                        assert(out0 + (seq!['['] + run(
                            v@.skip(i as int),
                            false,
                            false,
                            st0.push(None),
                        )) =~= (out0 + seq!['[']) + run(
                            v@.skip(i as int),
                            false,
                            false,
                            st0.push(None),
                        ));
                    }
                }
            } else if c == ']' {
                pop_close(&mut out, &mut stack);
                i += 1;
                proof {
                    assert(run(rest, false, false, st0) == close_emit(st0) + run(
                        rest.drop_first(),
                        false,
                        false,
                        pop_frame(st0),
                    ));
                    assert(out0 + (close_emit(st0) + run(
                        v@.skip(i as int),
                        false,
                        false,
                        pop_frame(st0),
                    )) =~= (out0 + close_emit(st0)) + run(
                        v@.skip(i as int),
                        false,
                        false,
                        pop_frame(st0),
                    ));
                }
            } else {
                out.push(c);
                i += 1;
                proof {
                    assert(run(rest, false, false, st0) == seq![c] + run(
                        rest.drop_first(),
                        false,
                        false,
                        st0,
                    ));
                    assert(out@ =~= out0 + seq![c]);
                    assert(out0 + (seq![c] + run(v@.skip(i as int), false, false, st0)) =~= (out0
                        + seq![c]) + run(v@.skip(i as int), false, false, st0));
                }
            }
        }
    }
    proof {
        assert(v@.skip(i as int).len() == 0);
        assert(run(v@.skip(i as int), quoted, head, stack.deep_view()) =~= Seq::<char>::empty());
        assert(out@ + Seq::<char>::empty() =~= out@);
    }
    string_of(&out)
}

/// Count of leading characters before the first line break.
pub open spec fn nl_len(s: Seq<char>) -> nat
    decreases s.len(),
{
    if s.len() == 0 || s[0] == '\n' {
        0
    } else {
        1 + nl_len(s.drop_first())
    }
}

pub proof fn lemma_nl_len(s: Seq<char>)
    ensures
        nl_len(s) <= s.len(),
        forall|j: int| 0 <= j < nl_len(s) ==> s[j] != '\n',
        nl_len(s) < s.len() ==> s[nl_len(s) as int] == '\n',
    decreases s.len(),
{
    if s.len() > 0 && s[0] != '\n' {
        lemma_nl_len(s.drop_first());
        assert forall|j: int| 0 <= j < nl_len(s) implies s[j] != '\n' by {
            if j > 0 {
                assert(s[j] == s.drop_first()[j - 1]);
            }
        }
    }
}

/// Count of leading characters before the first colon.
pub open spec fn colon_len(s: Seq<char>) -> nat
    decreases s.len(),
{
    if s.len() == 0 || s[0] == ':' {
        0
    } else {
        1 + colon_len(s.drop_first())
    }
}

/// The boundary at the first colon determines `colon_len` uniquely.
pub proof fn lemma_colon_len_is(s: Seq<char>, p: int)
    requires
        0 <= p <= s.len(),
        forall|j: int| 0 <= j < p ==> s[j] != ':',
        p < s.len() ==> s[p] == ':',
    ensures
        colon_len(s) == p,
    decreases p,
{
    if p > 0 {
        assert(s[0] != ':');
        assert forall|j: int| 0 <= j < p - 1 implies s.drop_first()[j] != ':' by {
            assert(s.drop_first()[j] == s[j + 1]);
        }
        if p - 1 < s.drop_first().len() {
            assert(s.drop_first()[p - 1] == s[p]);
        }
        lemma_colon_len_is(s.drop_first(), p - 1);
    }
}

/// The lines of `s`, split at every line break; a carriage return before
/// a break is dropped, and a break at the very end opens no empty line.
pub open spec fn lines_of(s: Seq<char>) -> Seq<Seq<char>>
    decreases s.len(),
    via lines_of_decreases
{
    if s.len() == 0 {
        Seq::empty()
    } else {
        let k = nl_len(s) as int;
        if k < s.len() {
            seq![strip_cr(s.take(k))] + lines_of(s.skip(k + 1))
        } else {
            seq![strip_cr(s)]
        }
    }
}

#[via_fn]
proof fn lines_of_decreases(s: Seq<char>) {
    lemma_nl_len(s);
}

/// The six characters that delimit a metadata block.
pub open spec fn meta_marker() -> Seq<char> {
    seq!['!', 'm', 'e', 't', 'a', '!']
}

/// A line long enough for the marker test, counted from its first
/// non-blank character; shorter lines go to the body even inside a
/// metadata block.
pub open spec fn is_long_line(l: Seq<char>) -> bool {
    l.len() >= ws_len(l) + 6
}

/// A line whose first non-blank characters spell the metadata marker.
pub open spec fn is_marker_line(l: Seq<char>) -> bool {
    is_long_line(l) && l.subrange(ws_len(l) as int, ws_len(l) as int + 6) == meta_marker()
}

/// What one line contributes to the header split: the metadata pairs it
/// yields, the body text it yields, and whether the scan is inside a
/// metadata block afterwards. A marker line toggles the block; inside the
/// block, a line with a colon becomes a trimmed pair and one without is
/// dropped; everything else — short lines included — goes to the body
/// with a line break appended.
pub open spec fn header_step(l: Seq<char>, in_res: bool) -> (
    Seq<(Seq<char>, Seq<char>)>,
    Seq<char>,
    bool,
) {
    if is_long_line(l) {
        if is_marker_line(l) {
            (Seq::empty(), Seq::empty(), !in_res)
        } else if in_res {
            if (colon_len(l) as int) < l.len() {
                let ci = colon_len(l) as int;
                (
                    seq![(trim_spec(l.take(ci)), trim_spec(l.skip(ci + 1)))],
                    Seq::empty(),
                    true,
                )
            } else {
                (Seq::empty(), Seq::empty(), true)
            }
        } else {
            (Seq::empty(), l + seq!['\n'], false)
        }
    } else {
        (Seq::empty(), l + seq!['\n'], in_res)
    }
}

/// `header_step` folded over a list of lines.
pub open spec fn header_fold(lines: Seq<Seq<char>>, in_res: bool) -> (
    Seq<(Seq<char>, Seq<char>)>,
    Seq<char>,
)
    decreases lines.len(),
{
    if lines.len() == 0 {
        (Seq::empty(), Seq::empty())
    } else {
        let st = header_step(lines[0], in_res);
        let rest = header_fold(lines.drop_first(), st.2);
        (st.0 + rest.0, st.1 + rest.1)
    }
}

/// The metadata pairs of a page source.
pub open spec fn header_meta(s: Seq<char>) -> Seq<(Seq<char>, Seq<char>)> {
    header_fold(lines_of(s), false).0
}

/// The body of a page source: its text with the metadata block removed
/// and every remaining line ended by a line break.
pub open spec fn header_body(s: Seq<char>) -> Seq<char> {
    header_fold(lines_of(s), false).1
}

/// Index of the first line break at or after `from`.
pub(crate) fn scan_nl(v: &Vec<char>, from: usize) -> (k: usize)
    requires
        from <= v@.len(),
    ensures
        from <= k <= v@.len(),
        k - from == nl_len(v@.skip(from as int)),
        k < v@.len() ==> v@[k as int] == '\n',
{
    let n = v.len();
    let mut j = from;
    while j < n && v[j] != '\n'
        invariant
            from <= j <= n,
            n == v@.len(),
            nl_len(v@.skip(from as int)) as int == (j - from) + nl_len(v@.skip(j as int)),
        decreases n - j,
    {
        proof {
            let rest = v@.skip(j as int);
            assert(rest[0] == v@[j as int]);
            assert(rest.drop_first() =~= v@.skip(j as int + 1));
            assert(nl_len(rest) == 1 + nl_len(rest.drop_first()));
        }
        j += 1;
    }
    proof {
        let rest = v@.skip(j as int);
        if j < n {
            assert(rest[0] == v@[j as int]);
            assert(nl_len(rest) == 0);
        } else {
            assert(nl_len(rest) == 0);
        }
    }
    j
}

/// Index of the first space or tab boundary within `[from, to)`: the
/// first index whose character is not blank, or `to`.
pub(crate) fn scan_ws_upto(v: &Vec<char>, from: usize, to: usize) -> (k: usize)
    requires
        from <= to <= v@.len(),
    ensures
        from <= k <= to,
        k - from == ws_len(v@.subrange(from as int, to as int)),
{
    let mut j = from;
    while j < to && (v[j] == ' ' || v[j] == '\t')
        invariant
            from <= j <= to <= v@.len(),
            forall|x: int| from <= x < j ==> is_ws(#[trigger] v@[x]),
        decreases to - j,
    {
        j += 1;
    }
    proof {
        let sub = v@.subrange(from as int, to as int);
        assert forall|x: int| 0 <= x < j - from implies is_ws(sub[x]) by {
            assert(sub[x] == v@[from + x]);
        }
        if j < to {
            assert(sub[j - from] == v@[j as int]);
        }
        lemma_ws_len_is(sub, j - from);
    }
    j
}

/// Index of the first colon within `[from, to)`, or `to`.
fn scan_colon_upto(v: &Vec<char>, from: usize, to: usize) -> (k: usize)
    requires
        from <= to <= v@.len(),
    ensures
        from <= k <= to,
        k - from == colon_len(v@.subrange(from as int, to as int)),
        k < to ==> v@[k as int] == ':',
{
    let mut j = from;
    while j < to && v[j] != ':'
        invariant
            from <= j <= to <= v@.len(),
            forall|x: int| from <= x < j ==> #[trigger] v@[x] != ':',
        decreases to - j,
    {
        j += 1;
    }
    proof {
        let sub = v@.subrange(from as int, to as int);
        assert forall|x: int| 0 <= x < j - from implies sub[x] != ':' by {
            assert(sub[x] == v@[from + x]);
        }
        if j < to {
            assert(sub[j - from] == v@[j as int]);
        }
        lemma_colon_len_is(sub, j - from);
    }
    j
}

/// Copies the characters of `v` in `[from, to)` without their leading and
/// trailing blanks.
fn trimmed_copy(v: &Vec<char>, from: usize, to: usize) -> (out: Vec<char>)
    requires
        from <= to <= v@.len(),
    ensures
        out@ == trim_spec(v@.subrange(from as int, to as int)),
{
    let ghost sub = v@.subrange(from as int, to as int);
    let mut b = to;
    while b > from && (v[b - 1] == ' ' || v[b - 1] == '\t')
        invariant
            from <= b <= to <= v@.len(),
            forall|x: int| b <= x < to ==> is_ws(#[trigger] v@[x]),
        decreases b,
    {
        b -= 1;
    }
    proof {
        assert forall|x: int| b - from <= x < sub.len() implies is_ws(sub[x]) by {
            assert(sub[x] == v@[from + x]);
        }
        if b > from {
            assert(sub[b - from - 1] == v@[b as int - 1]);
        }
        lemma_strip_trailing_is(sub, b - from);
    }
    let mut a = from;
    while a < b && (v[a] == ' ' || v[a] == '\t')
        invariant
            from <= a <= b <= v@.len(),
            forall|x: int| from <= x < a ==> is_ws(#[trigger] v@[x]),
        decreases b - a,
    {
        a += 1;
    }
    proof {
        let st = strip_trailing(sub);
        assert(st == sub.take(b - from));
        assert forall|x: int| 0 <= x < a - from implies is_ws(st[x]) by {
            assert(st[x] == v@[from + x]);
        }
        if a < b {
            assert(st[a - from] == v@[a as int]);
        }
        lemma_ws_len_is(st, a - from);
        assert(st.skip(a - from) =~= v@.subrange(a as int, b as int));
    }
    copy_range(v, a, b)
}

/// True when the six characters at `a` spell the metadata marker.
fn marker_at(v: &Vec<char>, a: usize) -> (b: bool)
    requires
        a + 6 <= v@.len(),
    ensures
        b == (v@.subrange(a as int, a as int + 6) == meta_marker()),
{
    let ghost sub = v@.subrange(a as int, a as int + 6);
    let n = v.len();
    proof {
        assert(a + 6 <= n);
        assert(sub.len() == 6);
    }
    let r = v[a] == '!' && v[a + 1] == 'm' && v[a + 2] == 'e' && v[a + 3] == 't' && v[a + 4] == 'a'
        && v[a + 5] == '!';
    proof {
        assert(sub[0] == v@[a as int]);
        assert(sub[1] == v@[a as int + 1]);
        assert(sub[2] == v@[a as int + 2]);
        assert(sub[3] == v@[a as int + 3]);
        assert(sub[4] == v@[a as int + 4]);
        assert(sub[5] == v@[a as int + 5]);
        if r {
            assert(sub =~= meta_marker());
        } else {
            assert(sub != meta_marker());
        }
    }
    r
}

/// Splits a page source into its metadata pairs and its body: a block
/// between two `!meta!` marker lines yields one trimmed `name: value`
/// pair per colon line, and every other line passes to the body with a
/// line break appended.
#[verifier::rlimit(60)]
pub fn parse_header(l: &str) -> (page: Page)
    ensures
        page.content@ == header_body(l@),
        meta_pairs(page.meta@) == header_meta(l@),
{
    let v = chars_of(l);
    let n = v.len();
    let mut meta: Vec<Metadata> = Vec::new();
    let mut body: Vec<char> = Vec::new();
    let mut in_res = false;
    let mut pos: usize = 0;
    proof {
        assert(v@.skip(0) =~= l@);
        assert(meta_pairs(meta@) =~= Seq::<(Seq<char>, Seq<char>)>::empty());
    }
    while pos < n
        invariant
            n == v@.len(),
            v@ == l@,
            pos <= n,
            header_meta(l@) == meta_pairs(meta@) + header_fold(
                lines_of(v@.skip(pos as int)),
                in_res,
            ).0,
            header_body(l@) == body@ + header_fold(lines_of(v@.skip(pos as int)), in_res).1,
        decreases n - pos,
    {
        let ghost rest = v@.skip(pos as int);
        let ghost meta0 = meta@;
        let ghost body0 = body@;
        let ghost res0 = in_res;
        let k = scan_nl(&v, pos);
        let le = if k > pos && v[k - 1] == '\r' {
            k - 1
        } else {
            k
        };
        let ghost line = strip_cr(rest.take(k - pos));
        proof {
            assert(rest.take(k - pos) =~= v@.subrange(pos as int, k as int));
            if k > pos && v@[k as int - 1] == '\r' {
                assert(rest.take(k - pos).last() == v@[k as int - 1]);
                assert(line =~= v@.subrange(pos as int, le as int));
            } else {
                if k > pos {
                    assert(rest.take(k - pos).last() == v@[k as int - 1]);
                }
                assert(line =~= v@.subrange(pos as int, le as int));
            }
        }
        // classify the line as header_step does
        let f = scan_ws_upto(&v, pos, le);
        proof {
            assert(ws_len(line) == f - pos);
        }
        let ghost step = header_step(line, res0);
        if le - f >= 6 && marker_at(&v, f) {
            proof {
                assert(line.subrange(ws_len(line) as int, ws_len(line) as int + 6) =~= v@.subrange(
                    f as int,
                    f as int + 6,
                ));
                assert(is_marker_line(line));
                assert(step == (
                    Seq::<(Seq<char>, Seq<char>)>::empty(),
                    Seq::<char>::empty(),
                    !res0,
                ));
            }
            in_res = !in_res;
        } else if le - f >= 6 && in_res {
            proof {
                assert(is_long_line(line));
                if is_marker_line(line) {
                    assert(line.subrange(ws_len(line) as int, ws_len(line) as int + 6) =~= v@.subrange(
                        f as int,
                        f as int + 6,
                    ));
                    assert(false);
                }
            }
            let ci = scan_colon_upto(&v, pos, le);
            if ci < le {
                let name = trimmed_copy(&v, pos, ci);
                let value = trimmed_copy(&v, ci + 1, le);
                proof {
                    assert(line.take(ci - pos) =~= v@.subrange(pos as int, ci as int));
                    assert(line.skip(ci - pos + 1) =~= v@.subrange(ci as int + 1, le as int));
                    assert(colon_len(line) == ci - pos);
                }
                let m = Metadata { name: string_of(&name), value: string_of(&value) };
                meta.push(m);
                proof {
                    assert(meta_pairs(meta@) =~= meta_pairs(meta0) + step.0);
                }
            } else {
                proof {
                    assert(colon_len(line) == ci - pos);
                    assert((colon_len(line) as int) >= line.len());
                    assert(step.0 =~= Seq::<(Seq<char>, Seq<char>)>::empty());
                }
            }
        } else {
            proof {
                if le - f >= 6 {
                    assert(is_long_line(line));
                    if is_marker_line(line) {
                        assert(line.subrange(ws_len(line) as int, ws_len(line) as int + 6) =~= v@.subrange(
                            f as int,
                            f as int + 6,
                        ));
                        assert(false);
                    }
                } else {
                    assert(!is_long_line(line));
                }
            }
            push_range(&mut body, &v, pos, le);
            body.push('\n');
            proof {
                assert(body@ =~= body0 + (line + seq!['\n']));
            }
        }
        let newpos = if k < n {
            k + 1
        } else {
            n
        };
        proof {
            // one line peeled off the remaining input
            assert(nl_len(rest) == k - pos);
            if k < n {
                assert(rest[k - pos] == v@[k as int]);
                assert((nl_len(rest) as int) < rest.len());
                assert(rest.skip(k - pos + 1) =~= v@.skip(newpos as int));
                assert(lines_of(rest) == seq![line] + lines_of(v@.skip(newpos as int)));
            } else {
                assert(nl_len(rest) == rest.len());
                assert(strip_cr(rest) == line || rest =~= rest.take(k - pos));
                assert(rest =~= rest.take(k - pos));
                assert(lines_of(rest) == seq![strip_cr(rest)]);
                assert(v@.skip(newpos as int).len() == 0);
                assert(lines_of(v@.skip(newpos as int)) =~= Seq::<Seq<char>>::empty());
                assert(lines_of(rest) =~= seq![line] + lines_of(v@.skip(newpos as int)));
            }
            let ls = seq![line] + lines_of(v@.skip(newpos as int));
            assert(ls[0] == line);
            assert(ls.drop_first() =~= lines_of(v@.skip(newpos as int)));
            let rest_fold = header_fold(lines_of(v@.skip(newpos as int)), step.2);
            assert(header_fold(lines_of(rest), res0) == (step.0 + rest_fold.0, step.1
                + rest_fold.1));
            assert(meta_pairs(meta@) =~= meta_pairs(meta0) + step.0);
            assert(body@ =~= body0 + step.1);
            assert(meta_pairs(meta0) + (step.0 + rest_fold.0) =~= (meta_pairs(meta0) + step.0)
                + rest_fold.0);
            assert(body0 + (step.1 + rest_fold.1) =~= (body0 + step.1) + rest_fold.1);
            assert(in_res == step.2);
        }
        pos = newpos;
    }
    proof {
        assert(v@.skip(pos as int).len() == 0);
        assert(lines_of(v@.skip(pos as int)) =~= Seq::<Seq<char>>::empty());
        assert(meta_pairs(meta@) + header_fold(lines_of(v@.skip(pos as int)), in_res).0
            =~= meta_pairs(meta@));
        assert(body@ + header_fold(lines_of(v@.skip(pos as int)), in_res).1 =~= body@);
    }
    Page { meta, content: string_of(&body) }
}

/// Parses a page source whole: the header split, then the markup
/// transducer over the body.
pub fn parse(s: &str) -> (page: Page)
    ensures
        page.content@ == transduce(header_body(s@)),
        meta_pairs(page.meta@) == header_meta(s@),
{
    let header_parsed = parse_header(s);
    let content = parse_granite(header_parsed.content.as_str());
    Page { meta: header_parsed.meta, content }
}

impl core::str::FromStr for Page {
    type Err = PageParseError;

    /// Parses a page source, as [`parse`] does; the parse never fails,
    /// so the result is always the page.
    fn from_str(s: &str) -> Result<Page, PageParseError> {
        Ok(parse(s))
    }
}

impl Page {
    /// Parses a page source, as [`parse`] does.
    pub fn new(s: &str) -> (page: Page)
        ensures
            page.content@ == transduce(header_body(s@)),
            meta_pairs(page.meta@) == header_meta(s@),
    {
        parse(s)
    }
}

/// A character without structural meaning to the transducer outside a
/// tag head: not a bracket and not a double quote.
pub open spec fn is_plain(c: char) -> bool {
    c != '[' && c != ']' && c != '"'
}

/// A character a tag name may consist of.
pub open spec fn is_name_char(c: char) -> bool {
    !is_name_end(c) && c != '['
}

/// The boundary at the first structural character determines
/// `structural_len` uniquely.
pub proof fn lemma_structural_len_is(s: Seq<char>, p: int)
    requires
        0 <= p <= s.len(),
        forall|j: int| 0 <= j < p ==> !is_structural(s[j]),
        p < s.len() ==> is_structural(s[p]),
    ensures
        structural_len(s) == p,
    decreases p,
{
    if p > 0 {
        assert(!is_structural(s[0]));
        assert forall|j: int| 0 <= j < p - 1 implies !is_structural(s.drop_first()[j]) by {
            assert(s.drop_first()[j] == s[j + 1]);
        }
        if p - 1 < s.drop_first().len() {
            assert(s.drop_first()[p - 1] == s[p]);
        }
        lemma_structural_len_is(s.drop_first(), p - 1);
    }
}

/// The boundary at the first name-ending character determines `name_len`
/// uniquely.
pub proof fn lemma_name_len_is(s: Seq<char>, p: int)
    requires
        0 <= p <= s.len(),
        forall|j: int| 0 <= j < p ==> !is_name_end(s[j]),
        p < s.len() ==> is_name_end(s[p]),
    ensures
        name_len(s) == p,
    decreases p,
{
    if p > 0 {
        assert(!is_name_end(s[0]));
        assert forall|j: int| 0 <= j < p - 1 implies !is_name_end(s.drop_first()[j]) by {
            assert(s.drop_first()[j] == s[j + 1]);
        }
        if p - 1 < s.drop_first().len() {
            assert(s.drop_first()[p - 1] == s[p]);
        }
        lemma_name_len_is(s.drop_first(), p - 1);
    }
}

/// Outside quotes, heads and brackets, text passes through the
/// transducer unchanged: a plain prefix is emitted as it stands and the
/// pass continues behind it, with the open elements untouched.
pub proof fn lemma_run_plain(p: Seq<char>, rest: Seq<char>, stack: Seq<Option<Seq<char>>>)
    requires
        forall|j: int| 0 <= j < p.len() ==> is_plain(#[trigger] p[j]),
    ensures
        run(p + rest, false, false, stack) == p + run(rest, false, false, stack),
    decreases p.len(),
{
    if p.len() == 0 {
        assert(p + rest =~= rest);
        assert(p + run(rest, false, false, stack) =~= run(rest, false, false, stack));
    } else {
        let s = p + rest;
        assert(s[0] == p[0]);
        assert(s.drop_first() =~= p.drop_first() + rest);
        assert forall|j: int| 0 <= j < p.drop_first().len() implies is_plain(
            #[trigger] p.drop_first()[j],
        ) by {
            assert(p.drop_first()[j] == p[j + 1]);
        }
        lemma_run_plain(p.drop_first(), rest, stack);
        assert(run(s, false, false, stack) == seq![p[0]] + (p.drop_first() + run(
            rest,
            false,
            false,
            stack,
        )));
        assert(seq![p[0]] + (p.drop_first() + run(rest, false, false, stack)) =~= p + run(
            rest,
            false,
            false,
            stack,
        ));
    }
}

/// Inside a quoted span, text without a double quote passes through
/// unchanged and the quote stays open behind it.
pub proof fn lemma_run_quoted(
    p: Seq<char>,
    rest: Seq<char>,
    head: bool,
    stack: Seq<Option<Seq<char>>>,
)
    requires
        forall|j: int| 0 <= j < p.len() ==> #[trigger] p[j] != '"',
    ensures
        run(p + rest, true, head, stack) == p + run(rest, true, head, stack),
    decreases p.len(),
{
    if p.len() == 0 {
        assert(p + rest =~= rest);
        assert(p + run(rest, true, head, stack) =~= run(rest, true, head, stack));
    } else {
        let s = p + rest;
        assert(s[0] == p[0]);
        assert(s.drop_first() =~= p.drop_first() + rest);
        assert forall|j: int| 0 <= j < p.drop_first().len() implies #[trigger] p.drop_first()[j]
            != '"' by {
            assert(p.drop_first()[j] == p[j + 1]);
        }
        lemma_run_quoted(p.drop_first(), rest, head, stack);
        assert(run(s, true, head, stack) == seq![p[0]] + (p.drop_first() + run(
            rest,
            true,
            head,
            stack,
        )));
        assert(seq![p[0]] + (p.drop_first() + run(rest, true, head, stack)) =~= p + run(
            rest,
            true,
            head,
            stack,
        ));
    }
}

/// Text with no brackets and no double quotes comes out of the
/// transducer exactly as it went in.
pub proof fn lemma_no_markup_unchanged(s: Seq<char>)
    requires
        forall|j: int| 0 <= j < s.len() ==> is_plain(#[trigger] s[j]),
    ensures
        transduce(s) == s,
{
    let empty = Seq::<char>::empty();
    lemma_run_plain(s, empty, Seq::empty());
    assert(s + empty =~= s);
    assert(run(empty, false, false, Seq::empty()) =~= empty);
    assert(s + run(empty, false, false, Seq::empty()) =~= s);
}

/// Opening a well-formed block: the bracket becomes `<`, the name is
/// emitted and pushed, and the pass continues in the head at the
/// separator.
pub proof fn lemma_open_block(name: Seq<char>, rest: Seq<char>, stack: Seq<Option<Seq<char>>>)
    requires
        name.len() > 0,
        forall|j: int| 0 <= j < name.len() ==> is_name_char(#[trigger] name[j]),
        rest.len() > 0,
        rest[0] == '|',
    ensures
        run(seq!['['] + name + rest, false, false, stack) == seq!['<'] + name + run(
            rest,
            false,
            true,
            stack.push(Some(name)),
        ),
{
    let s = seq!['['] + name + rest;
    let tail = s.drop_first();
    assert(s[0] == '[');
    assert(tail =~= name + rest);
    assert forall|j: int| 0 <= j < name.len() implies !is_structural(tail[j]) by {
        assert(tail[j] == name[j]);
        assert(is_name_char(name[j]));
    }
    assert(tail[name.len() as int] == rest[0]);
    lemma_structural_len_is(tail, name.len() as int);
    assert(lookahead_valid(tail));
    assert(tail[0] == name[0]);
    assert(!is_ws(tail[0]));
    assert(ws_len(tail) == 0);
    let after_ws = tail.skip(0);
    assert(after_ws =~= tail);
    assert forall|j: int| 0 <= j < name.len() implies !is_name_end(after_ws[j]) by {
        assert(after_ws[j] == name[j]);
    }
    assert(after_ws[name.len() as int] == '|');
    lemma_name_len_is(after_ws, name.len() as int);
    assert(after_ws.take(name.len() as int) =~= name);
    assert(after_ws.skip(name.len() as int) =~= rest);
}

/// At the separator of a head whose content does not begin with a blank,
/// the separator becomes `>` and the pass continues in the content.
pub proof fn lemma_head_sep(rest: Seq<char>, stack: Seq<Option<Seq<char>>>)
    requires
        rest.len() > 0,
        rest[0] == '|',
        rest.len() > 1 ==> !is_ws(rest[1]),
    ensures
        run(rest, false, true, stack) == seq!['>'] + run(rest.drop_first(), false, false, stack),
{
    let tail = rest.drop_first();
    if tail.len() > 0 {
        assert(tail[0] == rest[1]);
        assert(ws_len(tail) == 0);
    } else {
        assert(ws_len(tail) == 0);
    }
    assert(tail.skip(0) =~= tail);
}

/// One well-formed block whose content is plain text: the block becomes
/// its element around the content, and the pass continues behind the
/// closing bracket with the same open elements.
pub proof fn lemma_simple_block(
    name: Seq<char>,
    y: Seq<char>,
    rest_after: Seq<char>,
    stack: Seq<Option<Seq<char>>>,
)
    requires
        name.len() > 0,
        forall|j: int| 0 <= j < name.len() ==> is_name_char(#[trigger] name[j]),
        forall|j: int| 0 <= j < y.len() ==> is_plain(#[trigger] y[j]),
        y.len() > 0 ==> !is_ws(y[0]),
    ensures
        run(seq!['['] + name + seq!['|'] + y + seq![']'] + rest_after, false, false, stack)
            == seq!['<'] + name + seq!['>'] + y + close_tag(name) + run(
            rest_after,
            false,
            false,
            stack,
        ),
{
    let st1 = stack.push(Some(name));
    let s = seq!['['] + name + seq!['|'] + y + seq![']'] + rest_after;
    let rest1 = seq!['|'] + y + seq![']'] + rest_after;
    assert(s =~= seq!['['] + name + rest1);
    lemma_open_block(name, rest1, stack);
    assert(rest1[0] == '|');
    if y.len() > 0 {
        assert(rest1[1] == y[0]);
    } else {
        assert(rest1[1] == ']');
    }
    lemma_head_sep(rest1, st1);
    let rest2 = y + (seq![']'] + rest_after);
    assert(rest1.drop_first() =~= rest2);
    let rest3 = seq![']'] + rest_after;
    lemma_run_plain(y, rest3, st1);
    assert(rest3[0] == ']');
    assert(st1.last() == Some(name));
    assert(close_emit(st1) == close_tag(name));
    assert(pop_frame(st1) =~= stack);
    assert(rest3.drop_first() =~= rest_after);
    let tail_run = run(rest_after, false, false, stack);
    assert(run(rest3, false, false, st1) == close_tag(name) + tail_run);
    assert(run(rest2, false, false, st1) =~= y + (close_tag(name) + tail_run));
    assert(run(rest1, false, true, st1) =~= seq!['>'] + (y + (close_tag(name) + tail_run)));
    assert(run(s, false, false, stack) =~= seq!['<'] + name + (seq!['>'] + (y + (close_tag(name)
        + tail_run))));
    assert(seq!['<'] + name + (seq!['>'] + (y + (close_tag(name) + tail_run))) =~= seq!['<'] + name
        + seq!['>'] + y + close_tag(name) + tail_run);
}

/// Block nesting follows stack discipline: an inner block opened in an
/// outer block's content closes first — the output carries the inner
/// closing tag before any of the text that follows it, and the outer
/// closing tag last.
#[verifier::rlimit(100)]
pub proof fn lemma_nested_blocks(
    a: Seq<char>,
    b: Seq<char>,
    x: Seq<char>,
    y: Seq<char>,
    z: Seq<char>,
)
    requires
        a.len() > 0,
        b.len() > 0,
        forall|j: int| 0 <= j < a.len() ==> is_name_char(#[trigger] a[j]),
        forall|j: int| 0 <= j < b.len() ==> is_name_char(#[trigger] b[j]),
        forall|j: int| 0 <= j < x.len() ==> is_plain(#[trigger] x[j]),
        forall|j: int| 0 <= j < y.len() ==> is_plain(#[trigger] y[j]),
        forall|j: int| 0 <= j < z.len() ==> is_plain(#[trigger] z[j]),
        x.len() > 0 ==> !is_ws(x[0]),
        y.len() > 0 ==> !is_ws(y[0]),
    ensures
        transduce(
            seq!['['] + a + seq!['|'] + x + seq!['['] + b + seq!['|'] + y + seq![']'] + z
                + seq![']'],
        ) == seq!['<'] + a + seq!['>'] + x + seq!['<'] + b + seq!['>'] + y + close_tag(b) + z
            + close_tag(a),
{
    let st0 = Seq::<Option<Seq<char>>>::empty();
    let st1 = st0.push(Some(a));
    let s = seq!['['] + a + seq!['|'] + x + seq!['['] + b + seq!['|'] + y + seq![']'] + z
        + seq![']'];
    let rest1 = seq!['|'] + x + seq!['['] + b + seq!['|'] + y + seq![']'] + z + seq![']'];
    assert(s =~= seq!['['] + a + rest1);
    lemma_open_block(a, rest1, st0);
    assert(rest1[0] == '|');
    if x.len() > 0 {
        assert(rest1[1] == x[0]);
    } else {
        assert(rest1[1] == '[');
    }
    lemma_head_sep(rest1, st1);
    let inner = seq!['['] + b + seq!['|'] + y + seq![']'] + (z + seq![']']);
    let rest2 = x + inner;
    assert(rest1.drop_first() =~= rest2);
    lemma_run_plain(x, inner, st1);
    lemma_simple_block(b, y, z + seq![']'], st1);
    lemma_run_plain(z, seq![']'], st1);
    let last = seq![']'];
    assert(last[0] == ']');
    assert(st1.last() == Some(a));
    assert(close_emit(st1) == close_tag(a));
    assert(pop_frame(st1) =~= st0);
    assert(last.drop_first().len() == 0);
    assert(run(last.drop_first(), false, false, pop_frame(st1)) =~= Seq::<char>::empty());
    assert(run(last, false, false, st1) =~= close_tag(a));
    assert(run(z + seq![']'], false, false, st1) =~= z + close_tag(a));
    // the inner block, then the tail of the outer one
    let inner_out = seq!['<'] + b + seq!['>'] + y + close_tag(b) + (z + close_tag(a));
    assert(run(inner, false, false, st1) =~= inner_out);
    assert(run(rest2, false, false, st1) =~= x + inner_out);
    assert(run(rest1, false, true, st1) =~= seq!['>'] + (x + inner_out));
    assert(run(s, false, false, st0) =~= seq!['<'] + a + (seq!['>'] + (x + inner_out)));
    assert(seq!['<'] + a + (seq!['>'] + (x + inner_out)) =~= seq!['<'] + a + seq!['>'] + x
        + seq!['<'] + b + seq!['>'] + y + close_tag(b) + z + close_tag(a));
}

/// A quoted span that ends directly before a block's closing bracket
/// does not swallow it: the closing tag is still emitted right after the
/// closing quote.
pub proof fn lemma_quote_before_close(name: Seq<char>, x: Seq<char>, q: Seq<char>)
    requires
        name.len() > 0,
        forall|j: int| 0 <= j < name.len() ==> is_name_char(#[trigger] name[j]),
        forall|j: int| 0 <= j < x.len() ==> is_plain(#[trigger] x[j]),
        forall|j: int| 0 <= j < q.len() ==> #[trigger] q[j] != '"',
        x.len() > 0 ==> !is_ws(x[0]),
    ensures
        transduce(seq!['['] + name + seq!['|'] + x + seq!['"'] + q + seq!['"', ']']) == seq!['<']
            + name + seq!['>'] + x + seq!['"'] + q + seq!['"'] + close_tag(name),
{
    let st0 = Seq::<Option<Seq<char>>>::empty();
    let st1 = st0.push(Some(name));
    let s = seq!['['] + name + seq!['|'] + x + seq!['"'] + q + seq!['"', ']'];
    let rest1 = seq!['|'] + x + seq!['"'] + q + seq!['"', ']'];
    assert(s =~= seq!['['] + name + rest1);
    lemma_open_block(name, rest1, st0);
    assert(rest1[0] == '|');
    if x.len() > 0 {
        assert(rest1[1] == x[0]);
    } else {
        assert(rest1[1] == '"');
    }
    lemma_head_sep(rest1, st1);
    let rest2 = x + (seq!['"'] + q + seq!['"', ']']);
    assert(rest1.drop_first() =~= rest2);
    let rest3 = seq!['"'] + q + seq!['"', ']'];
    lemma_run_plain(x, rest3, st1);
    // the opening quote
    assert(rest3[0] == '"');
    assert(run(rest3, false, false, st1) == seq!['"'] + run(
        rest3.drop_first(),
        true,
        false,
        st1,
    ));
    let rest4 = q + seq!['"', ']'];
    assert(rest3.drop_first() =~= rest4);
    lemma_run_quoted(q, seq!['"', ']'], false, st1);
    // the closing quote, then the closing bracket
    let rest5 = seq!['"', ']'];
    assert(rest5[0] == '"');
    assert(run(rest5, true, false, st1) == seq!['"'] + run(
        rest5.drop_first(),
        false,
        false,
        st1,
    ));
    let rest6 = seq![']'];
    assert(rest5.drop_first() =~= rest6);
    assert(rest6[0] == ']');
    assert(st1.last() == Some(name));
    assert(close_emit(st1) == close_tag(name));
    assert(pop_frame(st1) =~= st0);
    assert(rest6.drop_first().len() == 0);
    assert(run(rest6.drop_first(), false, false, pop_frame(st1)) =~= Seq::<char>::empty());
    assert(run(rest6, false, false, st1) =~= close_tag(name));
    assert(run(rest5, true, false, st1) =~= seq!['"'] + close_tag(name));
    assert(run(rest4, true, false, st1) =~= q + (seq!['"'] + close_tag(name)));
    assert(run(rest3, false, false, st1) =~= seq!['"'] + (q + (seq!['"'] + close_tag(name))));
    assert(run(rest2, false, false, st1) =~= x + (seq!['"'] + (q + (seq!['"'] + close_tag(
        name,
    )))));
    assert(run(rest1, false, true, st1) =~= seq!['>'] + (x + (seq!['"'] + (q + (seq!['"']
        + close_tag(name))))));
    assert(run(s, false, false, st0) =~= seq!['<'] + name + (seq!['>'] + (x + (seq!['"'] + (q + (
    seq!['"'] + close_tag(name)))))));
    assert(seq!['<'] + name + (seq!['>'] + (x + (seq!['"'] + (q + (seq!['"'] + close_tag(name))))))
        =~= seq!['<'] + name + seq!['>'] + x + seq!['"'] + q + seq!['"'] + close_tag(name));
}

} // verus!
