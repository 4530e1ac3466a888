//! Template composition and plugin-marker scanning: the text-only halves
//! of splicing a page into a template and of finding the `{{name}}`
//! markers a plugin pipeline rewrites.

use vstd::prelude::*;

verus! {

use crate::chars::{chars_of, copy_range, push_range, string_of, strip_cr, ws_len};
use crate::granite::{lines_of, nl_len, scan_nl, scan_ws_upto, Metadata};
use crate::text::{
    contains_seq, match_at, overlap_free, replace, replace_all, replace_one_pass, replace_pass,
    rewrite_finite,
};

/// The characters of the `{{content}}` placeholder.
pub open spec fn content_marker() -> Seq<char> {
    seq!['{', '{', 'c', 'o', 'n', 't', 'e', 'n', 't', '}', '}']
}

/// The characters of the metadata name that picks a template.
pub open spec fn template_key() -> Seq<char> {
    seq!['t', 'e', 'm', 'p', 'l', 'a', 't', 'e']
}

/// The default template file name.
pub open spec fn default_template() -> Seq<char> {
    seq!['d', 'e', 'f', 'a', 'u', 'l', 't', '.', 'h', 't', 'm', 'l']
}

/// The `.html` file name extension.
pub open spec fn html_ext() -> Seq<char> {
    seq!['.', 'h', 't', 'm', 'l']
}

/// The template file a metadata list picks: the value of its last
/// `template` pair with `.html` appended, or the default file.
pub open spec fn template_file(pairs: Seq<(Seq<char>, Seq<char>)>) -> Seq<char>
    decreases pairs.len(),
{
    if pairs.len() == 0 {
        default_template()
    } else if pairs.last().0 == template_key() {
        pairs.last().1 + html_ext()
    } else {
        template_file(pairs.drop_last())
    }
}

/// Without a `template` pair, the default file is picked.
pub proof fn lemma_template_file_default(pairs: Seq<(Seq<char>, Seq<char>)>)
    requires
        forall|k: int| 0 <= k < pairs.len() ==> (#[trigger] pairs[k]).0 != template_key(),
    ensures
        template_file(pairs) == default_template(),
    decreases pairs.len(),
{
    if pairs.len() > 0 {
        lemma_template_file_default(pairs.drop_last());
    }
}

/// The last `template` pair decides the file.
pub proof fn lemma_template_file_last(pairs: Seq<(Seq<char>, Seq<char>)>, j: int)
    requires
        0 <= j < pairs.len(),
        pairs[j].0 == template_key(),
        forall|k: int| j < k < pairs.len() ==> (#[trigger] pairs[k]).0 != template_key(),
    ensures
        template_file(pairs) == pairs[j].1 + html_ext(),
    decreases pairs.len(),
{
    if j == pairs.len() - 1 {
    } else {
        assert(pairs.drop_last()[j] == pairs[j]);
        lemma_template_file_last(pairs.drop_last(), j);
    }
}

/// The indentation the content placeholder inherits: the leading blanks
/// of the last template line that holds the `{{content}}` marker, or
/// nothing when no line does.
pub open spec fn marker_indent(lines: Seq<Seq<char>>) -> Seq<char>
    decreases lines.len(),
{
    if lines.len() == 0 {
        Seq::empty()
    } else if contains_seq(lines.last(), content_marker()) {
        lines.last().take(ws_len(lines.last()) as int)
    } else {
        marker_indent(lines.drop_last())
    }
}

/// The text the compositor replaces: the `{{content}}` marker behind the
/// indentation of the last line that carries it.
pub open spec fn compose_pattern(template: Seq<char>) -> Seq<char> {
    marker_indent(lines_of(template)) + content_marker()
}

/// What composing a page into a template yields: every occurrence of the
/// indented `{{content}}` marker is replaced by the page content,
/// rescanning until none remains. Where that rewrite would never finish —
/// the content can grow the text while recreating the marker across a
/// splice boundary — one left-to-right pass is made instead.
pub open spec fn compose_spec(template: Seq<char>, content: Seq<char>) -> Seq<char> {
    let pat = compose_pattern(template);
    if rewrite_finite(pat, content) {
        replace_all(template, pat, content)
    } else {
        replace_pass(template, pat, content)
    }
}

/// Whether the characters of `a` at `af` and of `b` at `bf` agree for
/// `l` positions.
fn eq_range(a: &Vec<char>, af: usize, b: &Vec<char>, bf: usize, l: usize) -> (r: bool)
    requires
        af + l <= a@.len(),
        bf + l <= b@.len(),
    ensures
        r == (a@.subrange(af as int, af + l) == b@.subrange(bf as int, bf + l)),
{
    let an = a.len();
    let bn = b.len();
    let mut q: usize = 0;
    while q < l
        invariant
            q <= l,
            an == a@.len(),
            bn == b@.len(),
            af + l <= an,
            bf + l <= bn,
            forall|x: int| 0 <= x < q ==> #[trigger] a@[af + x] == b@[bf + x],
        decreases l - q,
    {
        if a[af + q] != b[bf + q] {
            proof {
                assert(a@.subrange(af as int, af + l)[q as int] == a@[af + q]);
                assert(b@.subrange(bf as int, bf + l)[q as int] == b@[bf + q]);
            }
            return false;
        }
        q += 1;
    }
    proof {
        assert forall|x: int| 0 <= x < l implies #[trigger] a@.subrange(af as int, af + l)[x]
            == b@.subrange(bf as int, bf + l)[x] by {
            assert(a@[af + x] == b@[bf + x]);
        }
        assert(a@.subrange(af as int, af + l) =~= b@.subrange(bf as int, bf + l));
    }
    true
}

/// Whether replacing `t` by `ins` can recreate `t` across a splice
/// boundary, decided as [`overlap_free`] describes.
fn check_overlap_free(t: &Vec<char>, ins: &Vec<char>) -> (b: bool)
    requires
        t@.len() >= 1,
    ensures
        b == overlap_free(t@, ins@),
{
    if contains_marker(ins, 0, ins.len(), t) {
        proof {
            assert(ins@.subrange(0, ins@.len() as int) =~= ins@);
        }
        return false;
    }
    proof {
        assert(ins@.subrange(0, ins@.len() as int) =~= ins@);
    }
    let m = t.len();
    let il = ins.len();
    let lim = if m - 1 < il {
        m - 1
    } else {
        il
    };
    let mut l: usize = 1;
    while l <= lim
        invariant
            m == t@.len(),
            il == ins@.len(),
            m >= 1,
            lim < m,
            lim <= il,
            1 <= l <= lim + 1,
            forall|x: int|
                1 <= x < l ==> t@.subrange(t@.len() - x, t@.len() as int) != (
                #[trigger] ins@.take(x)),
            forall|x: int|
                1 <= x < l ==> t@.take(x) != (#[trigger] ins@.subrange(
                    ins@.len() - x,
                    ins@.len() as int,
                )),
        decreases lim + 1 - l,
    {
        if eq_range(t, m - l, ins, 0, l) {
            proof {
                assert(ins@.take(l as int) =~= ins@.subrange(0, l as int));
            }
            return false;
        }
        if eq_range(t, 0, ins, il - l, l) {
            proof {
                assert(t@.take(l as int) =~= t@.subrange(0, l as int));
            }
            return false;
        }
        proof {
            assert(ins@.take(l as int) =~= ins@.subrange(0, l as int));
            assert(t@.take(l as int) =~= t@.subrange(0, l as int));
        }
        l += 1;
    }
    proof {
        assert forall|x: int|
            1 <= x < t@.len() && x <= ins@.len() implies t@.subrange(t@.len() - x, t@.len() as int)
            != (#[trigger] ins@.take(x)) by {
            assert(x <= lim);
        }
        assert forall|x: int|
            1 <= x < t@.len() && x <= ins@.len() implies t@.take(x) != (#[trigger] ins@.subrange(
            ins@.len() - x,
            ins@.len() as int,
        )) by {
            assert(x <= lim);
        }
    }
    true
}

/// Whether the name of `m` is `template`.
fn is_template_name(m: &Metadata) -> (b: bool)
    ensures
        b == (m.name@ == template_key()),
{
    let nv = chars_of(m.name.as_str());
    let r = nv.len() == 8 && nv[0] == 't' && nv[1] == 'e' && nv[2] == 'm' && nv[3] == 'p' && nv[4]
        == 'l' && nv[5] == 'a' && nv[6] == 't' && nv[7] == 'e';
    proof {
        if r {
            assert(m.name@ =~= template_key());
        } else {
            assert(m.name@ != template_key());
        }
    }
    r
}

/// Picks the template file a page's metadata asks for: the value of the
/// last `template` pair with `.html` appended, or `default.html`.
pub fn template_filename(meta: &Vec<Metadata>) -> (out: String)
    ensures
        out@ == template_file(crate::granite::meta_pairs(meta@)),
{
    let ghost pairs = crate::granite::meta_pairs(meta@);
    let mut best: Option<Vec<char>> = None;
    let n = meta.len();
    let mut i: usize = 0;
    proof {
        assert(pairs.len() == n);
    }
    while i < n
        invariant
            n == meta@.len(),
            i <= n,
            pairs == crate::granite::meta_pairs(meta@),
            pairs.len() == n,
            best is None ==> forall|k: int| 0 <= k < i ==> (#[trigger] pairs[k]).0
                != template_key(),
            best is Some ==> exists|j: int|
                0 <= j < i && (#[trigger] pairs[j]).0 == template_key() && best->Some_0@
                    == pairs[j].1 + html_ext() && (forall|k: int|
                    j < k < i ==> (#[trigger] pairs[k]).0 != template_key()),
        decreases n - i,
    {
        proof {
            assert(pairs[i as int] == (meta@[i as int].name@, meta@[i as int].value@));
        }
        if is_template_name(&meta[i]) {
            let vv = chars_of(meta[i].value.as_str());
            let mut file = vv;
            file.push('.');
            file.push('h');
            file.push('t');
            file.push('m');
            file.push('l');
            proof {
                assert(file@ =~= meta@[i as int].value@ + html_ext());
            }
            best = Some(file);
            proof {
                assert(pairs[i as int].0 == template_key());
                assert(best->Some_0@ == pairs[i as int].1 + html_ext());
            }
        }
        i += 1;
    }
    match best {
        Some(v) => {
            proof {
                let j = choose|j: int|
                    0 <= j < n && (#[trigger] pairs[j]).0 == template_key() && v@ == pairs[j].1
                        + html_ext() && (forall|k: int|
                        j < k < n ==> (#[trigger] pairs[k]).0 != template_key());
                lemma_template_file_last(pairs, j);
            }
            string_of(&v)
        },
        None => {
            proof {
                lemma_template_file_default(pairs);
            }
            let mut d: Vec<char> = Vec::new();
            d.push('d');
            d.push('e');
            d.push('f');
            d.push('a');
            d.push('u');
            d.push('l');
            d.push('t');
            d.push('.');
            d.push('h');
            d.push('t');
            d.push('m');
            d.push('l');
            proof {
                assert(d@ =~= default_template());
            }
            string_of(&d)
        },
    }
}

/// Whether the marker occurs in `v[from, to)`, reported over
/// [`contains_seq`].
fn contains_marker(v: &Vec<char>, from: usize, to: usize, marker: &Vec<char>) -> (b: bool)
    requires
        from <= to <= v@.len(),
        marker@.len() >= 1,
    ensures
        b == contains_seq(v@.subrange(from as int, to as int), marker@),
{
    let ghost sub = v@.subrange(from as int, to as int);
    let m = marker.len();
    let mut i = from;
    if to - from < m {
        proof {
            assert forall|x: int| !(0 <= x && x + marker@.len() <= sub.len() && #[trigger] sub.subrange(
                x,
                x + marker@.len(),
            ) == marker@) by {}
        }
        return false;
    }
    while to - i >= m
        invariant
            from <= i,
            i <= to,
            i + m <= to + 1,
            to <= v@.len(),
            m == marker@.len(),
            m >= 1,
            sub == v@.subrange(from as int, to as int),
            forall|x: int|
                0 <= x < i - from ==> #[trigger] sub.subrange(x, x + marker@.len()) != marker@,
        decreases to - i,
    {
        if match_at(v, marker, i) {
            proof {
                let x = i - from;
                assert(sub.subrange(x, x + marker@.len()) =~= v@.subrange(
                    i as int,
                    i + marker@.len(),
                ));
            }
            return true;
        }
        proof {
            let x = i - from;
            assert(sub.subrange(x, x + marker@.len()) =~= v@.subrange(i as int, i + marker@.len()));
            assert forall|y: int|
                0 <= y < i + 1 - from implies #[trigger] sub.subrange(y, y + marker@.len())
                != marker@ by {
                if y < i - from {
                } else {
                    assert(y == i - from);
                }
            }
        }
        i += 1;
    }
    proof {
        assert forall|x: int| !(0 <= x && x + marker@.len() <= sub.len() && #[trigger] sub.subrange(
            x,
            x + marker@.len(),
        ) == marker@) by {
            if 0 <= x && x + marker@.len() <= sub.len() {
                assert(x < i - from);
            }
        }
    }
    false
}

/// The eleven marker characters, as a vector.
fn marker_chars() -> (v: Vec<char>)
    ensures
        v@ == content_marker(),
{
    let mut v: Vec<char> = Vec::new();
    v.push('{');
    v.push('{');
    v.push('c');
    v.push('o');
    v.push('n');
    v.push('t');
    v.push('e');
    v.push('n');
    v.push('t');
    v.push('}');
    v.push('}');
    proof {
        assert(v@ =~= content_marker());
    }
    v
}

/// Splices a page's content into a template: the `{{content}}` marker,
/// together with the indentation of the last line that carries it, is
/// replaced by the content throughout, rescanning until no marker
/// remains. On content that could recreate the marker across a splice
/// boundary forever, a single pass is made instead.
pub fn compose(template: &str, content: &str) -> (out: String)
    ensures
        out@ == compose_spec(template@, content@),
{
    let v = chars_of(template);
    let n = v.len();
    let marker = marker_chars();
    let mut indent: Vec<char> = Vec::new();
    let mut pos: usize = 0;
    proof {
        assert(v@.skip(0) =~= template@);
        assert(lines_of(v@.skip(0)) == lines_of(template@));
    }
    let ghost all_lines = lines_of(template@);
    let ghost done: Seq<Seq<char>> = Seq::empty();
    let mut done_exec: Ghost<Seq<Seq<char>>> = Ghost(done);
    proof {
        assert(all_lines =~= done_exec@ + lines_of(v@.skip(pos as int)));
        assert(marker_indent(done_exec@) =~= indent@);
    }
    while pos < n
        invariant
            n == v@.len(),
            v@ == template@,
            pos <= n,
            marker@ == content_marker(),
            all_lines == lines_of(template@),
            all_lines == done_exec@ + lines_of(v@.skip(pos as int)),
            marker_indent(done_exec@) == indent@,
        decreases n - pos,
    {
        let ghost rest = v@.skip(pos as int);
        let k = scan_nl(&v, pos);
        let le = if k > pos && v[k - 1] == '\r' {
            k - 1
        } else {
            k
        };
        let ghost line = strip_cr(rest.take(k - pos));
        proof {
            assert(rest.take(k - pos) =~= v@.subrange(pos as int, k as int));
            if k > pos {
                assert(rest.take(k - pos).last() == v@[k as int - 1]);
            }
            assert(line =~= v@.subrange(pos as int, le as int));
        }
        if contains_marker(&v, pos, le, &marker) {
            let f = scan_ws_upto(&v, pos, le);
            let new_indent = copy_range(&v, pos, f);
            proof {
                assert(ws_len(line) == f - pos);
                assert(new_indent@ =~= line.take(ws_len(line) as int));
            }
            indent = new_indent;
        }
        let newpos = if k < n {
            k + 1
        } else {
            n
        };
        proof {
            assert(nl_len(rest) == k - pos);
            if k < n {
                assert(rest[k - pos] == v@[k as int]);
                assert(rest.skip(k - pos + 1) =~= v@.skip(newpos as int));
                assert(lines_of(rest) == seq![line] + lines_of(v@.skip(newpos as int)));
            } else {
                assert(nl_len(rest) == rest.len());
                assert(rest =~= rest.take(k - pos));
                assert(lines_of(rest) == seq![strip_cr(rest)]);
                assert(v@.skip(newpos as int).len() == 0);
                assert(lines_of(v@.skip(newpos as int)) =~= Seq::<Seq<char>>::empty());
                assert(lines_of(rest) =~= seq![line] + lines_of(v@.skip(newpos as int)));
            }
            let done2 = done_exec@.push(line);
            assert(done2.last() == line);
            assert(done2.drop_last() =~= done_exec@);
            if contains_seq(line, content_marker()) {
                assert(marker_indent(done2) == line.take(ws_len(line) as int));
            } else {
                assert(marker_indent(done2) == marker_indent(done_exec@));
            }
            assert(all_lines =~= (done_exec@ + seq![line]) + lines_of(v@.skip(newpos as int)));
            assert(done_exec@ + seq![line] =~= done2);
        }
        proof {
            done_exec@ = done_exec@.push(line);
        }
        pos = newpos;
    }
    proof {
        assert(lines_of(v@.skip(pos as int)) =~= Seq::<Seq<char>>::empty());
        assert(done_exec@ + Seq::<Seq<char>>::empty() =~= done_exec@);
        assert(done_exec@ =~= all_lines);
    }
    let mut pattern = indent;
    push_range(&mut pattern, &marker, 0, marker.len());
    proof {
        assert(marker@.subrange(0, marker@.len() as int) =~= content_marker());
        assert(pattern@ == marker_indent(all_lines) + content_marker());
    }
    let pattern_s = string_of(&pattern);
    let cv = chars_of(content);
    proof {
        assert(pattern@.len() >= 1);
    }
    let finite = if cv.len() < pattern.len() {
        true
    } else if cv.len() == pattern.len() {
        let same = eq_range(&pattern, 0, &cv, 0, pattern.len());
        proof {
            assert(pattern@.subrange(0, pattern@.len() as int) =~= pattern@);
            assert(cv@.subrange(0, cv@.len() as int) =~= cv@);
            if same {
                assert(cv@.take(pattern@.len() as int) =~= cv@);
                assert(crate::text::occ(cv@, pattern@) == 0);
                assert(crate::text::has_occ(cv@, pattern@));
                crate::text::lemma_contains_has_occ(cv@, pattern@);
            }
        }
        !same
    } else {
        check_overlap_free(&pattern, &cv)
    };
    if finite {
        replace(template, pattern_s.as_str(), content)
    } else {
        replace_one_pass(template, pattern_s.as_str(), content)
    }
}

/// Count of leading characters that are not a closing brace.
pub open spec fn nonbrace_len(s: Seq<char>) -> nat
    decreases s.len(),
{
    if s.len() == 0 || s[0] == '}' {
        0
    } else {
        1 + nonbrace_len(s.drop_first())
    }
}

pub proof fn lemma_nonbrace_len(s: Seq<char>)
    ensures
        nonbrace_len(s) <= s.len(),
        forall|j: int| 0 <= j < nonbrace_len(s) ==> s[j] != '}',
        nonbrace_len(s) < s.len() ==> s[nonbrace_len(s) as int] == '}',
    decreases s.len(),
{
    if s.len() > 0 && s[0] != '}' {
        lemma_nonbrace_len(s.drop_first());
        assert forall|j: int| 0 <= j < nonbrace_len(s) implies s[j] != '}' by {
            if j > 0 {
                assert(s[j] == s.drop_first()[j - 1]);
            }
        }
    }
}

/// The plugin markers of a text, scanned from index `i` on: at each
/// `{{`, the following run of non-`}` characters is a marker name when it
/// is non-empty and two closing braces follow it directly; the scan
/// resumes after the closing braces, or one character along when the
/// shape does not complete.
pub open spec fn markers_from(s: Seq<char>, i: int) -> Seq<Seq<char>>
    decreases s.len() - i,
    via markers_from_decreases
{
    if i < 0 || i + 2 > s.len() {
        Seq::empty()
    } else if s[i] == '{' && s[i + 1] == '{' {
        let t = i + 2 + nonbrace_len(s.skip(i + 2));
        if t > i + 2 && t + 1 < s.len() && s[t + 1] == '}' {
            seq![s.subrange(i + 2, t)] + markers_from(s, t + 2)
        } else {
            markers_from(s, i + 1)
        }
    } else {
        markers_from(s, i + 1)
    }
}

#[via_fn]
proof fn markers_from_decreases(s: Seq<char>, i: int) {
    if 0 <= i && i + 2 <= s.len() {
        lemma_nonbrace_len(s.skip(i + 2));
    }
}

/// The `{{name}}` plugin markers of a text, leftmost first.
pub open spec fn plugin_markers_spec(s: Seq<char>) -> Seq<Seq<char>> {
    markers_from(s, 0)
}

/// Index of the first closing brace at or after `from`, or the end.
fn scan_nonbrace(v: &Vec<char>, from: usize) -> (k: usize)
    requires
        from <= v@.len(),
    ensures
        from <= k <= v@.len(),
        k - from == nonbrace_len(v@.skip(from as int)),
{
    let n = v.len();
    let mut j = from;
    while j < n && v[j] != '}'
        invariant
            from <= j <= n,
            n == v@.len(),
            nonbrace_len(v@.skip(from as int)) as int == (j - from) + nonbrace_len(
                v@.skip(j as int),
            ),
        decreases n - j,
    {
        proof {
            let rest = v@.skip(j as int);
            assert(rest[0] == v@[j as int]);
            assert(rest.drop_first() =~= v@.skip(j as int + 1));
            assert(nonbrace_len(rest) == 1 + nonbrace_len(rest.drop_first()));
        }
        j += 1;
    }
    proof {
        let rest = v@.skip(j as int);
        if j < n {
            assert(rest[0] == v@[j as int]);
            assert(nonbrace_len(rest) == 0);
        } else {
            assert(nonbrace_len(rest) == 0);
        }
    }
    j
}

/// Lists the `{{name}}` plugin markers of a text, leftmost first, each
/// name without its braces.
pub fn plugin_markers(s: &str) -> (out: Vec<String>)
    ensures
        out@.len() == plugin_markers_spec(s@).len(),
        forall|k: int|
            0 <= k < out@.len() ==> (#[trigger] out@[k])@ == plugin_markers_spec(s@)[k],
{
    let v = chars_of(s);
    let n = v.len();
    let mut out: Vec<String> = Vec::new();
    let mut i: usize = 0;
    let ghost all = plugin_markers_spec(s@);
    proof {
        assert(markers_from(v@, 0) == all);
    }
    while n - i > 1
        invariant
            n == v@.len(),
            v@ == s@,
            i <= n,
            all == plugin_markers_spec(s@),
            all == out@.map_values(|x: String| x@) + markers_from(v@, i as int),
        decreases n - i,
    {
        let ghost out0 = out@;
        if v[i] == '{' && v[i + 1] == '{' {
            let t = scan_nonbrace(&v, i + 2);
            proof {
                lemma_nonbrace_len(v@.skip(i as int + 2));
            }
            if t > i + 2 && t < n - 1 && v[t + 1] == '}' {
                let name = copy_range(&v, i + 2, t);
                out.push(string_of(&name));
                proof {
                    assert(name@ =~= v@.subrange(i as int + 2, t as int));
                    assert(markers_from(v@, i as int) == seq![v@.subrange(i as int + 2, t as int)]
                        + markers_from(v@, t as int + 2));
                    assert(out@.map_values(|x: String| x@) =~= out0.map_values(|x: String| x@)
                        + seq![v@.subrange(i as int + 2, t as int)]);
                    assert((out0.map_values(|x: String| x@) + seq![
                        v@.subrange(i as int + 2, t as int),
                    ]) + markers_from(v@, t as int + 2) =~= out0.map_values(|x: String| x@) + (seq![
                        v@.subrange(i as int + 2, t as int),
                    ] + markers_from(v@, t as int + 2)));
                }
                i = t + 2;
            } else {
                proof {
                    assert(markers_from(v@, i as int) == markers_from(v@, i as int + 1));
                }
                i += 1;
            }
        } else {
            proof {
                assert(markers_from(v@, i as int) == markers_from(v@, i as int + 1));
            }
            i += 1;
        }
    }
    proof {
        assert(markers_from(v@, i as int) =~= Seq::<Seq<char>>::empty());
        assert(out@.map_values(|x: String| x@) + markers_from(v@, i as int) =~= out@.map_values(
            |x: String| x@,
        ));
        assert forall|k: int| 0 <= k < out@.len() implies (#[trigger] out@[k])@ == plugin_markers_spec(
            s@,
        )[k] by {
            assert(out@.map_values(|x: String| x@)[k] == out@[k]@);
        }
    }
    out
}

/// The text after the first line break — what remains when a path line
/// prefixed to a plugin's output is taken off again; a text without a
/// line break leaves nothing.
pub open spec fn after_first_line(s: Seq<char>) -> Seq<char> {
    if nl_len(s) < s.len() {
        s.skip(nl_len(s) as int + 1)
    } else {
        Seq::empty()
    }
}

/// Drops the first line, line break included.
pub fn strip_first_line(s: &str) -> (out: String)
    ensures
        out@ == after_first_line(s@),
{
    let v = chars_of(s);
    let n = v.len();
    let k = scan_nl(&v, 0);
    proof {
        assert(v@.skip(0) =~= s@);
    }
    if k < n {
        let tail = copy_range(&v, k + 1, n);
        proof {
            assert(tail@ =~= after_first_line(s@));
        }
        string_of(&tail)
    } else {
        String::new()
    }
}

} // verus!
