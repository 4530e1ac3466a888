//! The token-tree parser over the rune and brace grammar, and its HTML
//! renderer.
//!
//! [`Token::new`] parses a source text into a tree: the text outside all
//! braces becomes a node's contents (with one `{}` placeholder per
//! block), and each top-level block becomes a child node tagged by the
//! rune written before its brace. [`Token::render`] turns the tree back
//! into HTML, interleaving the contents around the placeholders with the
//! rendered children.

pub use crate::parserhashed::RUNE_DEFAULT;
pub use crate::parserhashed::RUNE_EMPTY;

use vstd::prelude::*;

verus! {

broadcast use vstd::std_specs::vec::group_vec_axioms;

use crate::chars::{chars_of, copy_range, push_range, string_of};
use crate::parserhashed::{parse_children, parse_parsed, TokenMap};

/// The most ancestors a node records.
pub const PARENTS_MAX: usize = 32;

/// The chain of runes above a node, kept for diagnostics while a tree is
/// built. Once full, further ancestors are dropped.
#[derive(Debug)]
pub struct Parents {
    bytes: [u8; PARENTS_MAX],
    len: usize,
}

impl Parents {
    /// An empty ancestor record.
    fn new() -> (p: Parents)
        ensures
            p.len == 0,
            forall|i: int| 0 <= i < PARENTS_MAX ==> p.bytes@[i] == 0u8,
    {
        Parents { bytes: [0; PARENTS_MAX], len: 0 }
    }

    /// Records one more ancestor in the next free slot; once the record
    /// is full, further ancestors are dropped and nothing changes.
    fn add(&mut self, b: u8)
        ensures
            old(self).len < PARENTS_MAX ==> final(self).len == old(self).len + 1
                && final(self).bytes@ == old(self).bytes@.update(old(self).len as int, b),
            old(self).len >= PARENTS_MAX ==> *final(self) == *old(self),
    {
        if self.len < PARENTS_MAX {
            self.bytes[self.len] = b;
            self.len = self.len + 1;
        }
    }
}

/// One node of the token tree: its rune, its contents with a `{}`
/// placeholder per child, and the children in order.
#[derive(Debug)]
pub struct Token {
    pub parents: Parents,
    pub rune: u8,
    pub contents: String,
    pub tokens: Vec<Token>,
}

/// The tree `t` is exactly the parse of `s` under `rune`: the node keeps
/// the rune and the parsed contents, and each child is, recursively, the
/// parse of its block's interior under its block's rune.
pub open spec fn token_matches(t: Token, rune: u8, s: Seq<char>) -> bool
    decreases t,
{
    &&& t.rune == rune
    &&& t.contents@ == parse_parsed(s)
    &&& t.tokens@.len() == parse_children(s).len()
    &&& forall|k: int|
        0 <= k < parse_children(s).len() ==> token_matches(
            #[trigger] t.tokens@[k],
            parse_children(s)[k].0,
            parse_children(s)[k].1,
        )
}

impl Token {
    /// Parses `content` into a node under `rune`; the result is always a
    /// tree, never a failure.
    fn parse(parents: Parents, rune: u8, content: &str) -> (t: Option<Token>)
        ensures
            t is Some,
            token_matches(t->Some_0, rune, content@),
        decreases content@.len(),
    {
        let (parsed, child_list) = TokenMap::parse(content);
        let mut tokens: Vec<Token> = Vec::new();
        let cn = child_list.len();
        let mut ci: usize = 0;
        while ci < cn
            invariant
                cn == child_list@.len(),
                ci <= cn,
                crate::parserhashed::child_pairs(child_list@) == parse_children(content@),
                forall|k: int|
                    0 <= k < child_list@.len() ==> (#[trigger] child_list@[k]).1@.len()
                        < content@.len(),
                tokens@.len() == ci,
                forall|k: int|
                    0 <= k < ci ==> token_matches(
                        #[trigger] tokens@[k],
                        parse_children(content@)[k].0,
                        parse_children(content@)[k].1,
                    ),
            decreases cn - ci,
        {
            let mut new_parents = Parents { bytes: parents.bytes, len: parents.len };
            new_parents.add(rune);
            proof {
                assert(parse_children(content@)[ci as int] == (
                    child_list@[ci as int].0,
                    child_list@[ci as int].1@,
                ));
            }
            let rune_k = child_list[ci].0;
            let handled = Self::parse(new_parents, rune_k, child_list[ci].1.as_str());
            match handled {
                Some(nt) => {
                    tokens.push(nt);
                },
                None => {},
            }
            ci += 1;
        }
        Some(Token { parents, rune, contents: parsed, tokens })
    }

    /// Parses a source text into its token tree, rooted at an elementless
    /// node.
    pub fn new(s: &str) -> (t: Token)
        ensures
            token_matches(t, RUNE_EMPTY, s@),
    {
        match Token::parse(Parents::new(), RUNE_EMPTY, s) {
            Some(t) => t,
            None => {
                proof {
                    assert(false);
                }
                vstd::pervasive::unreached()
            },
        }
    }
}

/// The element name a rune selects; runes without an element — the
/// default contextual rune and the reserved scripting rune among them —
/// select the empty name.
pub open spec fn elem_of(rune: u8) -> Seq<char> {
    if rune == 46 {  // '.'
        seq!['p']
    } else if rune == 126 {  // '~'
        seq!['u', 'l']
    } else if rune == 45 {  // '-'
        seq!['l', 'i']
    } else if rune == 33 {  // '!'
        seq!['i', 'm', 'g']
    } else if rune == 64 {  // '@'
        seq!['a']
    } else if rune == 35 {  // '#'
        seq!['h', '1']
    } else if rune == 38 {  // '&'
        seq!['v', 'i', 'd', 'e', 'o']
    } else if rune == 42 {  // '*'
        seq!['i']
    } else if rune == 43 {  // '+'
        seq!['s', 'u', 'm', 'm', 'a', 'r', 'y']
    } else if rune == 61 {  // '='
        seq!['p', 'r', 'e']
    } else if rune == 62 {  // '>'
        seq!['b', 'l', 'o', 'c', 'k', 'q', 'u', 'o', 't', 'e']
    } else if rune == RUNE_EMPTY {
        seq!['P', 'A', 'R', 'S', 'E', '_', 'E', 'R', 'R', 'O', 'R']
    } else {
        Seq::empty()
    }
}

/// The element name for `rune`, as characters.
fn elem_chars(rune: u8) -> (v: Vec<char>)
    ensures
        v@ == elem_of(rune),
{
    let mut v: Vec<char> = Vec::new();
    if rune == 46 {
        v.push('p');
    } else if rune == 126 {
        v.push('u');
        v.push('l');
    } else if rune == 45 {
        v.push('l');
        v.push('i');
    } else if rune == 33 {
        v.push('i');
        v.push('m');
        v.push('g');
    } else if rune == 64 {
        v.push('a');
    } else if rune == 35 {
        v.push('h');
        v.push('1');
    } else if rune == 38 {
        v.push('v');
        v.push('i');
        v.push('d');
        v.push('e');
        v.push('o');
    } else if rune == 42 {
        v.push('i');
    } else if rune == 43 {
        v.push('s');
        v.push('u');
        v.push('m');
        v.push('m');
        v.push('a');
        v.push('r');
        v.push('y');
    } else if rune == 61 {
        v.push('p');
        v.push('r');
        v.push('e');
    } else if rune == 62 {
        v.push('b');
        v.push('l');
        v.push('o');
        v.push('c');
        v.push('k');
        v.push('q');
        v.push('u');
        v.push('o');
        v.push('t');
        v.push('e');
    } else if rune == RUNE_EMPTY {
        v.push('P');
        v.push('A');
        v.push('R');
        v.push('S');
        v.push('E');
        v.push('_');
        v.push('E');
        v.push('R');
        v.push('R');
        v.push('O');
        v.push('R');
    }
    proof {
        assert(v@ =~= elem_of(rune));
    }
    v
}

/// Count of leading characters before the first `{}` placeholder.
pub open spec fn ph_len(s: Seq<char>) -> nat
    decreases s.len(),
{
    if s.len() == 0 {
        0
    } else if s.len() >= 2 && s[0] == '{' && s[1] == '}' {
        0
    } else {
        1 + ph_len(s.drop_first())
    }
}

pub proof fn lemma_ph_len(s: Seq<char>)
    ensures
        ph_len(s) <= s.len(),
        ph_len(s) < s.len() ==> ph_len(s) + 1 < s.len() && s[ph_len(s) as int] == '{' && s[ph_len(
            s,
        ) as int + 1] == '}',
    decreases s.len(),
{
    if s.len() > 0 && !(s.len() >= 2 && s[0] == '{' && s[1] == '}') {
        lemma_ph_len(s.drop_first());
    }
}

/// The pieces of `s` around its `{}` placeholders, scanned once from the
/// left; a text with no placeholder is one piece, the empty text
/// included.
pub open spec fn split_parts(s: Seq<char>) -> Seq<Seq<char>>
    decreases s.len(),
    via split_parts_decreases
{
    if ph_len(s) < s.len() {
        seq![s.take(ph_len(s) as int)] + split_parts(s.skip(ph_len(s) as int + 2))
    } else {
        seq![s]
    }
}

#[via_fn]
proof fn split_parts_decreases(s: Seq<char>) {
    lemma_ph_len(s);
}

/// Pieces interleaved with fillers: piece, filler, piece, filler — and
/// whatever remains of the longer list once the shorter runs out.
pub open spec fn zip_join(parts: Seq<Seq<char>>, fills: Seq<Seq<char>>) -> Seq<char>
    decreases parts.len() + fills.len(),
{
    if parts.len() == 0 && fills.len() == 0 {
        Seq::empty()
    } else if parts.len() == 0 {
        fills[0] + zip_join(parts, fills.drop_first())
    } else if fills.len() == 0 {
        parts[0] + zip_join(parts.drop_first(), fills)
    } else {
        parts[0] + fills[0] + zip_join(parts.drop_first(), fills.drop_first())
    }
}

/// The renders of a list of nodes, in order.
pub open spec fn render_fills(ts: Seq<Token>) -> Seq<Seq<char>>
    decreases ts,
{
    if ts.len() == 0 {
        Seq::empty()
    } else {
        seq![render_spec(ts[0])] + render_fills(ts.drop_first())
    }
}

/// The HTML for a node: a leaf is its element around its contents, an
/// inner node is its element around its contents with every placeholder
/// replaced by the matching child's render; an elementless node yields
/// no tags — a leaf one disappears entirely.
pub open spec fn render_spec(t: Token) -> Seq<char>
    decreases t,
{
    let elem = elem_of(t.rune);
    if t.tokens@.len() == 0 {
        if t.rune != RUNE_EMPTY {
            seq!['<'] + elem + seq!['>'] + t.contents@ + seq!['<', '/'] + elem + seq!['>']
        } else {
            Seq::empty()
        }
    } else {
        let zipped = zip_join(split_parts(t.contents@), render_fills(t.tokens@));
        if t.rune != RUNE_EMPTY {
            seq!['<'] + elem + seq!['>'] + zipped + seq!['<', '/'] + elem + seq!['>']
        } else {
            zipped
        }
    }
}

pub proof fn lemma_render_fills(ts: Seq<Token>)
    ensures
        render_fills(ts).len() == ts.len(),
        forall|k: int| 0 <= k < ts.len() ==> render_fills(ts)[k] == render_spec(#[trigger] ts[k]),
    decreases ts,
{
    if ts.len() > 0 {
        lemma_render_fills(ts.drop_first());
        assert forall|k: int| 0 <= k < ts.len() implies render_fills(ts)[k] == render_spec(
            ts[k],
        ) by {
            if k > 0 {
                assert(ts.drop_first()[k - 1] == ts[k]);
                assert(render_fills(ts)[k] == render_fills(ts.drop_first())[k - 1]);
            }
        }
    }
}

/// Index of the first `{}` placeholder at or after `from`, or the end.
fn scan_ph(v: &Vec<char>, from: usize) -> (k: usize)
    requires
        from <= v@.len(),
    ensures
        from <= k <= v@.len(),
        k - from == ph_len(v@.skip(from as int)),
{
    let n = v.len();
    let mut j = from;
    while j < n && !(v[j] == '{' && j + 1 < n && v[j + 1] == '}')
        invariant
            from <= j <= n,
            n == v@.len(),
            ph_len(v@.skip(from as int)) as int == (j - from) + ph_len(v@.skip(j as int)),
        decreases n - j,
    {
        proof {
            let rest = v@.skip(j as int);
            assert(rest[0] == v@[j as int]);
            if rest.len() >= 2 {
                assert(rest[1] == v@[j as int + 1]);
            }
            assert(rest.drop_first() =~= v@.skip(j as int + 1));
            assert(ph_len(rest) == 1 + ph_len(rest.drop_first()));
        }
        j += 1;
    }
    proof {
        let rest = v@.skip(j as int);
        if j < n {
            assert(rest[0] == v@[j as int]);
            if rest.len() >= 2 {
                assert(rest[1] == v@[j as int + 1]);
            }
            assert(ph_len(rest) == 0);
        } else {
            assert(ph_len(rest) == 0);
        }
    }
    j
}

/// Splits `v` at every `{}` placeholder, as [`split_parts`] describes.
fn split_placeholders(v: &Vec<char>) -> (parts: Vec<Vec<char>>)
    ensures
        parts.deep_view() == split_parts(v@),
{
    let n = v.len();
    let mut parts: Vec<Vec<char>> = Vec::new();
    let mut from: usize = 0;
    proof {
        assert(v@.skip(0) =~= v@);
        assert(parts.deep_view() =~= Seq::<Seq<char>>::empty());
    }
    let mut k = scan_ph(v, from);
    while k < n
        invariant
            n == v@.len(),
            from <= k <= n,
            k - from == ph_len(v@.skip(from as int)),
            split_parts(v@) == parts.deep_view() + split_parts(v@.skip(from as int)),
        decreases n - from,
    {
        let ghost parts0 = parts.deep_view();
        let ghost rest = v@.skip(from as int);
        proof {
            lemma_ph_len(rest);
            assert(rest[k - from] == v@[k as int]);
            assert(k + 1 < n);
        }
        let piece = copy_range(v, from, k);
        parts.push(piece);
        proof {
            assert(rest.take(ph_len(rest) as int) =~= v@.subrange(from as int, k as int));
            assert(rest.skip(ph_len(rest) as int + 2) =~= v@.skip(k as int + 2));
            assert(split_parts(rest) == seq![rest.take(ph_len(rest) as int)] + split_parts(
                v@.skip(k as int + 2),
            ));
            assert(parts.deep_view() =~~= parts0 + seq![v@.subrange(from as int, k as int)]);
            assert((parts0 + seq![v@.subrange(from as int, k as int)]) + split_parts(
                v@.skip(k as int + 2),
            ) =~= parts0 + (seq![v@.subrange(from as int, k as int)] + split_parts(
                v@.skip(k as int + 2),
            )));
        }
        from = k + 2;
        k = scan_ph(v, from);
    }
    let ghost parts0 = parts.deep_view();
    let ghost rest = v@.skip(from as int);
    let piece = copy_range(v, from, n);
    parts.push(piece);
    proof {
        lemma_ph_len(rest);
        assert(ph_len(rest) == rest.len());
        assert(split_parts(rest) == seq![rest]);
        assert(rest =~= v@.subrange(from as int, n as int));
        assert(parts.deep_view() =~~= parts0 + seq![rest]);
    }
    parts
}

/// Interleaves pieces and fillers, as [`zip_join`] describes.
fn zip_chars(parts: &Vec<Vec<char>>, fills: &Vec<Vec<char>>) -> (out: Vec<char>)
    ensures
        out@ == zip_join(parts.deep_view(), fills.deep_view()),
{
    let pn = parts.len();
    let fn_ = fills.len();
    let mut out: Vec<char> = Vec::new();
    let mut i: usize = 0;
    proof {
        assert(parts.deep_view().skip(0) =~= parts.deep_view());
        assert(fills.deep_view().skip(0) =~= fills.deep_view());
    }
    while i < pn || i < fn_
        invariant
            pn == parts@.len(),
            fn_ == fills@.len(),
            i <= pn || i <= fn_,
            zip_join(parts.deep_view(), fills.deep_view()) == out@ + zip_join(
                parts.deep_view().skip(if i <= pn {
                    i as int
                } else {
                    pn as int
                }),
                fills.deep_view().skip(if i <= fn_ {
                    i as int
                } else {
                    fn_ as int
                }),
            ),
        decreases pn + fn_ - i,
    {
        let ghost out0 = out@;
        let ghost prest = parts.deep_view().skip(
            if i <= pn {
                i as int
            } else {
                pn as int
            },
        );
        let ghost frest = fills.deep_view().skip(
            if i <= fn_ {
                i as int
            } else {
                fn_ as int
            },
        );
        if i < pn {
            let p = &parts[i];
            push_range(&mut out, p, 0, p.len());
            proof {
                assert(prest[0] == parts.deep_view()[i as int]);
                assert(p@.subrange(0, p@.len() as int) =~= prest[0]);
            }
        }
        if i < fn_ {
            let f = &fills[i];
            push_range(&mut out, f, 0, f.len());
            proof {
                assert(frest[0] == fills.deep_view()[i as int]);
                assert(f@.subrange(0, f@.len() as int) =~= frest[0]);
            }
        }
        proof {
            let pnext = parts.deep_view().skip(
                if i + 1 <= pn {
                    i + 1
                } else {
                    pn as int
                },
            );
            let fnext = fills.deep_view().skip(
                if i + 1 <= fn_ {
                    i + 1
                } else {
                    fn_ as int
                },
            );
            if i < pn {
                assert(prest.drop_first() =~= pnext);
            } else {
                assert(prest =~= pnext);
                assert(prest.len() == 0);
            }
            if i < fn_ {
                assert(frest.drop_first() =~= fnext);
            } else {
                assert(frest =~= fnext);
                assert(frest.len() == 0);
            }
            if i < pn && i < fn_ {
                assert(zip_join(prest, frest) == prest[0] + frest[0] + zip_join(pnext, fnext));
                assert(out@ =~= out0 + (prest[0] + frest[0]));
                assert(out0 + ((prest[0] + frest[0]) + zip_join(pnext, fnext)) =~= (out0 + (
                prest[0] + frest[0])) + zip_join(pnext, fnext));
            } else if i < pn {
                assert(zip_join(prest, frest) == prest[0] + zip_join(pnext, fnext));
                assert(out@ =~= out0 + prest[0]);
                assert(out0 + (prest[0] + zip_join(pnext, fnext)) =~= (out0 + prest[0]) + zip_join(
                    pnext,
                    fnext,
                ));
            } else {
                assert(zip_join(prest, frest) == frest[0] + zip_join(pnext, fnext));
                assert(out@ =~= out0 + frest[0]);
                assert(out0 + (frest[0] + zip_join(pnext, fnext)) =~= (out0 + frest[0]) + zip_join(
                    pnext,
                    fnext,
                ));
            }
        }
        i += 1;
    }
    proof {
        let prest = parts.deep_view().skip(
            if i <= pn {
                i as int
            } else {
                pn as int
            },
        );
        let frest = fills.deep_view().skip(
            if i <= fn_ {
                i as int
            } else {
                fn_ as int
            },
        );
        assert(prest.len() == 0);
        assert(frest.len() == 0);
        assert(zip_join(prest, frest) =~= Seq::<char>::empty());
        assert(out@ + Seq::<char>::empty() =~= out@);
    }
    out
}

impl Token {
    /// Renders the tree as HTML, as [`render_spec`] describes: tags from
    /// the runes, contents interleaved with the children's renders at the
    /// `{}` placeholders.
    pub fn render(&self) -> (out: String)
        ensures
            out@ == render_spec(*self),
        decreases *self,
    {
        let elem = elem_chars(self.rune);
        let mut out: Vec<char> = Vec::new();
        if self.tokens.len() == 0 {
            if self.rune != RUNE_EMPTY {
                out.push('<');
                push_range(&mut out, &elem, 0, elem.len());
                out.push('>');
                let cv = chars_of(self.contents.as_str());
                push_range(&mut out, &cv, 0, cv.len());
                out.push('<');
                out.push('/');
                push_range(&mut out, &elem, 0, elem.len());
                out.push('>');
                proof {
                    assert(elem@.subrange(0, elem@.len() as int) =~= elem_of(self.rune));
                    assert(cv@.subrange(0, cv@.len() as int) =~= self.contents@);
                    assert(out@ =~= render_spec(*self));
                }
            } else {
                proof {
                    assert(out@ =~= render_spec(*self));
                }
            }
        } else {
            let cv = chars_of(self.contents.as_str());
            let parts = split_placeholders(&cv);
            let mut fills: Vec<Vec<char>> = Vec::new();
            let cn = self.tokens.len();
            let mut k: usize = 0;
            while k < cn
                invariant
                    cn == self.tokens@.len(),
                    k <= cn,
                    fills@.len() == k,
                    forall|j: int|
                        0 <= j < k ==> fills.deep_view()[j] == render_spec(
                            #[trigger] self.tokens@[j],
                        ),
                decreases cn - k,
            {
                let r = self.tokens[k].render();
                let rv = chars_of(r.as_str());
                fills.push(rv);
                k += 1;
            }
            let zipped = zip_chars(&parts, &fills);
            proof {
                lemma_render_fills(self.tokens@);
                assert(fills.deep_view().len() == cn);
                assert(render_fills(self.tokens@).len() == cn);
                assert forall|j: int| 0 <= j < cn implies fills.deep_view()[j] == render_fills(
                    self.tokens@,
                )[j] by {
                    assert(fills.deep_view()[j] == render_spec(self.tokens@[j]));
                    assert(render_fills(self.tokens@)[j] == render_spec(self.tokens@[j]));
                }
                assert(fills.deep_view() =~= render_fills(self.tokens@));
            }
            if self.rune != RUNE_EMPTY {
                out.push('<');
                push_range(&mut out, &elem, 0, elem.len());
                out.push('>');
                push_range(&mut out, &zipped, 0, zipped.len());
                out.push('<');
                out.push('/');
                push_range(&mut out, &elem, 0, elem.len());
                out.push('>');
                proof {
                    assert(elem@.subrange(0, elem@.len() as int) =~= elem_of(self.rune));
                    assert(zipped@.subrange(0, zipped@.len() as int) =~= zipped@);
                    assert(out@ =~= render_spec(*self));
                }
            } else {
                push_range(&mut out, &zipped, 0, zipped.len());
                proof {
                    assert(zipped@.subrange(0, zipped@.len() as int) =~= zipped@);
                    assert(out@ =~= render_spec(*self));
                }
            }
        }
        string_of(&out)
    }
}

} // verus!
