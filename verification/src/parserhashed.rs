//! The hashed token map: a brace-markup parser whose token tree lives in
//! one flat map, each node keyed by the murmur3 hash of its parsed
//! contents.
//!
//! The brace grammar is the rune one: `rune{interior}` nests, the rune
//! character directly before a top-level `{` names the element, and the
//! parsed contents keep one `{}` placeholder per child. [`scan`] specifies
//! the whole pass, unbalanced braces included.

use std::collections::HashMap;
use vstd::prelude::*;

verus! {

broadcast use vstd::std_specs::hash::group_hash_axioms;

use crate::chars::{chars_of, copy_range, string_of};
use crate::murmur3::spec_murmur;
use vstd::utf8::encode_utf8;

/// The rune attached to a block no rune character precedes.
pub const RUNE_DEFAULT: u8 = 59;

/// The rune that marks a node as elementless.
pub const RUNE_EMPTY: u8 = 63;

/// A rune: one of the characters that select an element when written
/// directly before an opening brace.
pub open spec fn is_rune(c: char) -> bool {
    c == '.' || c == '~' || c == '-' || c == '!' || c == '@' || c == '#' || c == '$' || c == '%'
        || c == '&' || c == '*' || c == '+' || c == '=' || c == '?' || c == '>'
}

/// Whether `c` is a rune character.
pub fn rune_char(c: char) -> (b: bool)
    ensures
        b == is_rune(c),
{
    c == '.' || c == '~' || c == '-' || c == '!' || c == '@' || c == '#' || c == '$' || c == '%'
        || c == '&' || c == '*' || c == '+' || c == '=' || c == '?' || c == '>'
}

/// The rune a top-level `{` at index `i` picks up: the character directly
/// before it when that is a rune, the default otherwise.
pub open spec fn rune_before(s: Seq<char>, i: int) -> u8 {
    if i > 0 && is_rune(s[i - 1]) {
        s[i - 1] as u8
    } else {
        RUNE_DEFAULT
    }
}

/// The interior of a block whose braces sit at `start` and `e`; a
/// degenerate pair whose closing brace precedes its recorded opening
/// yields the empty interior.
pub open spec fn child_content(s: Seq<char>, start: int, e: int) -> Seq<char> {
    if start + 1 <= e {
        s.subrange(start + 1, e)
    } else {
        Seq::empty()
    }
}

/// One pass of the brace parser from index `i` on.
///
/// `nb` counts open braces (it may go negative on stray closing braces,
/// as the scan tolerates them), `rune` and `start` remember the rune and
/// the position of the innermost top-level `{`. The first result is the
/// parsed contents — the text outside all braces, with `{}` kept as a
/// placeholder per block; the second lists each top-level block's rune
/// and interior, in order. A `|` directly after `{` is dropped; any other
/// `|` passes into the contents whatever the depth. A rune character
/// directly before a top-level `{` is consumed by it.
pub open spec fn scan(s: Seq<char>, i: int, nb: int, rune: u8, start: int) -> (
    Seq<char>,
    Seq<(u8, Seq<char>)>,
)
    decreases s.len() - i,
{
    if i < 0 || i >= s.len() {
        (Seq::empty(), Seq::empty())
    } else {
        let c = s[i];
        if c == '{' {
            let rune2 = if nb < 1 {
                rune_before(s, i)
            } else {
                rune
            };
            let start2 = if nb < 1 {
                i
            } else {
                start
            };
            let rest = scan(s, i + 1, nb + 1, rune2, start2);
            if nb < 1 {
                (seq!['{'] + rest.0, rest.1)
            } else {
                rest
            }
        } else if c == '}' {
            let rest = scan(s, i + 1, nb - 1, rune, start);
            if nb - 1 < 1 {
                (seq!['}'] + rest.0, seq![(rune, child_content(s, start, i))] + rest.1)
            } else {
                rest
            }
        } else if c == '|' {
            let rest = scan(s, i + 1, nb, rune, start);
            if i > 0 && s[i - 1] == '{' {
                rest
            } else {
                (seq!['|'] + rest.0, rest.1)
            }
        } else {
            let rest = scan(s, i + 1, nb, rune, start);
            if nb < 1 && !(is_rune(c) && i + 1 < s.len() && s[i + 1] == '{') {
                (seq![c] + rest.0, rest.1)
            } else {
                rest
            }
        }
    }
}

/// The parsed contents of a source text.
pub open spec fn parse_parsed(s: Seq<char>) -> Seq<char> {
    scan(s, 0, 0, RUNE_DEFAULT, 0).0
}

/// The top-level blocks of a source text: each one's rune and interior.
pub open spec fn parse_children(s: Seq<char>) -> Seq<(u8, Seq<char>)> {
    scan(s, 0, 0, RUNE_DEFAULT, 0).1
}

/// Every block interior is strictly shorter than the text it came from.
pub proof fn lemma_scan_children(s: Seq<char>, i: int, nb: int, rune: u8, start: int)
    requires
        0 <= i,
        0 <= start,
    ensures
        forall|k: int|
            0 <= k < scan(s, i, nb, rune, start).1.len() ==> (#[trigger] scan(
                s,
                i,
                nb,
                rune,
                start,
            ).1[k]).1.len() < s.len(),
    decreases s.len() - i,
{
    if 0 <= i < s.len() {
        let c = s[i];
        let cur = scan(s, i, nb, rune, start);
        if c == '{' {
            let rune2 = if nb < 1 {
                rune_before(s, i)
            } else {
                rune
            };
            let start2: int = if nb < 1 {
                i
            } else {
                start
            };
            lemma_scan_children(s, i + 1, nb + 1, rune2, start2);
            let rest = scan(s, i + 1, nb + 1, rune2, start2);
            assert forall|k: int| 0 <= k < cur.1.len() implies (#[trigger] cur.1[k]).1.len()
                < s.len() by {
                assert(cur.1[k] == rest.1[k]);
            }
        } else if c == '}' {
            lemma_scan_children(s, i + 1, nb - 1, rune, start);
            let rest = scan(s, i + 1, nb - 1, rune, start);
            assert(child_content(s, start, i).len() < s.len());
            assert forall|k: int| 0 <= k < cur.1.len() implies (#[trigger] cur.1[k]).1.len()
                < s.len() by {
                if nb - 1 < 1 {
                    if k > 0 {
                        assert(cur.1[k] == rest.1[k - 1]);
                    }
                } else {
                    assert(cur.1[k] == rest.1[k]);
                }
            }
        } else {
            lemma_scan_children(s, i + 1, nb, rune, start);
            let rest = scan(s, i + 1, nb, rune, start);
            assert forall|k: int| 0 <= k < cur.1.len() implies (#[trigger] cur.1[k]).1.len()
                < s.len() by {
                assert(cur.1[k] == rest.1[k]);
            }
        }
    }
}

/// The pairs a child list stands for.
pub open spec fn child_pairs(cs: Seq<(u8, String)>) -> Seq<(u8, Seq<char>)> {
    cs.map_values(|p: (u8, String)| (p.0, p.1@))
}

/// The key under which the tree of a source text is stored: the murmur3
/// hash of the UTF-8 bytes of its parsed contents.
pub open spec fn node_id(s: Seq<char>) -> u32 {
    spec_murmur(encode_utf8(parse_parsed(s)), 0)
}

/// One node of the token map.
#[derive(Debug)]
pub struct Token {
    pub id: u32,
    pub parent: Option<u32>,
    pub rune: u8,
    pub contents: String,
    pub children: Vec<u32>,
}

/// A token consistent with its key: stored under the hash of its own
/// parsed contents.
pub open spec fn token_wf(k: u32, t: Token) -> bool {
    t.id == k && k == spec_murmur(encode_utf8(t.contents@), 0)
}

/// Every entry of the map is keyed by the hash of its contents.
pub open spec fn map_wf(m: Map<u32, Token>) -> bool {
    forall|k: u32| #[trigger] m.contains_key(k) ==> token_wf(k, m[k])
}

/// The token tree of a page, flattened: every node sits in one map under
/// the hash of its parsed contents.
pub struct TokenMap(HashMap<u32, Token>);

impl View for TokenMap {
    type V = Map<u32, Token>;

    closed spec fn view(&self) -> Map<u32, Token> {
        self.0@
    }
}

impl TokenMap {
    /// Stores one token under its key.
    fn insert(&mut self, key: u32, value: Token)
        ensures
            final(self)@ == old(self)@.insert(key, value),
    {
        self.0.insert(key, value);
    }

    /// The token stored under `key`.
    pub fn get(&mut self, key: u32) -> (t: &Token)
        requires
            old(self)@.contains_key(key),
        ensures
            final(self)@ == old(self)@,
            *t == old(self)@[key],
    {
        match self.0.get(&key) {
            Some(t) => t,
            None => {
                proof {
                    assert(false);
                }
                vstd::pervasive::unreached()
            },
        }
    }

    /// Parses one source text: its parsed contents (blocks reduced to
    /// `{}` placeholders) and the rune and interior of each top-level
    /// block, in order.
    pub fn parse(content: &str) -> (out: (String, Vec<(u8, String)>))
        ensures
            out.0@ == parse_parsed(content@),
            child_pairs(out.1@) == parse_children(content@),
            forall|k: int|
                0 <= k < out.1@.len() ==> (#[trigger] out.1@[k]).1@.len() < content@.len(),
    {
        let v = chars_of(content);
        let n = v.len();
        let mut parsed: Vec<char> = Vec::new();
        let mut children: Vec<(u8, String)> = Vec::new();
        let mut nb: i128 = 0;
        let mut rune: u8 = RUNE_DEFAULT;
        let mut start: usize = 0;
        let mut i: usize = 0;
        proof {
            assert(child_pairs(children@) =~= Seq::<(u8, Seq<char>)>::empty());
        }
        while i < n
            invariant
                n == v@.len(),
                v@ == content@,
                i <= n,
                start <= n,
                -(i as int) <= nb <= i as int,
                parse_parsed(content@) == parsed@ + scan(
                    v@,
                    i as int,
                    nb as int,
                    rune,
                    start as int,
                ).0,
                parse_children(content@) == child_pairs(children@) + scan(
                    v@,
                    i as int,
                    nb as int,
                    rune,
                    start as int,
                ).1,
            decreases n - i,
        {
            let ghost parsed0 = parsed@;
            let ghost children0 = children@;
            let ghost nb0 = nb as int;
            let ghost rune0 = rune;
            let ghost start0 = start as int;
            let c = v[i];
            if c == '{' {
                if nb < 1 {
                    if i > 0 && rune_char(v[i - 1]) {
                        let rc = v[i - 1];
                        rune = #[verifier::truncate] (rc as u8);
                    } else {
                        rune = RUNE_DEFAULT;
                    }
                    proof {
                        assert(rune == rune_before(v@, i as int));
                    }
                    parsed.push('{');
                    start = i;
                }
                nb = nb + 1;
                i += 1;
            } else if c == '}' {
                nb = nb - 1;
                if nb < 1 {
                    parsed.push('}');
                    let interior = if start < i {
                        copy_range(&v, start + 1, i)
                    } else {
                        Vec::new()
                    };
                    proof {
                        assert(interior@ =~= child_content(v@, start0, i as int));
                    }
                    children.push((rune, string_of(&interior)));
                    proof {
                        assert(child_pairs(children@) =~= child_pairs(children0) + seq![
                            (rune0, child_content(v@, start0, i as int)),
                        ]);
                    }
                }
                i += 1;
            } else if c == '|' {
                if !(i > 0 && v[i - 1] == '{') {
                    parsed.push('|');
                }
                i += 1;
            } else {
                let swallowed = nb < 1 && rune_char(c) && i + 1 < n && v[i + 1] == '{';
                if nb < 1 && !swallowed {
                    parsed.push(c);
                }
                i += 1;
            }
            proof {
                let rest0 = scan(v@, i as int - 1, nb0, rune0, start0);
                let rest1 = scan(v@, i as int, nb as int, rune, start as int);
                assert(parse_parsed(content@) == parsed0 + rest0.0);
                assert(parse_children(content@) == child_pairs(children0) + rest0.1);
                if c == '{' {
                    if nb0 < 1 {
                        assert(rest0.0 == seq!['{'] + rest1.0);
                        assert(rest0.1 == rest1.1);
                    } else {
                        assert(rest0 == rest1);
                    }
                } else if c == '}' {
                    if nb0 - 1 < 1 {
                        assert(rest0.0 == seq!['}'] + rest1.0);
                        assert(rest0.1 == seq![(rune0, child_content(v@, start0, i as int - 1))]
                            + rest1.1);
                    } else {
                        assert(rest0 == rest1);
                    }
                } else if c == '|' {
                    if i as int - 1 > 0 && v@[i as int - 2] == '{' {
                        assert(rest0 == rest1);
                    } else {
                        assert(rest0.0 == seq!['|'] + rest1.0);
                        assert(rest0.1 == rest1.1);
                    }
                } else {
                    if nb0 < 1 && !(is_rune(c) && (i as int) < v@.len() && v@[i as int] == '{') {
                        assert(rest0.0 == seq![c] + rest1.0);
                        assert(rest0.1 == rest1.1);
                    } else {
                        assert(rest0 == rest1);
                    }
                }
                assert(parse_parsed(content@) == parsed@ + rest1.0);
                assert(parse_children(content@) == child_pairs(children@) + rest1.1);
            }
        }
        proof {
            assert(scan(v@, i as int, nb as int, rune, start as int).0 =~= Seq::<char>::empty());
            assert(scan(v@, i as int, nb as int, rune, start as int).1 =~= Seq::<
                (u8, Seq<char>),
            >::empty());
            assert(parsed@ + Seq::<char>::empty() =~= parsed@);
            assert(child_pairs(children@) + Seq::<(u8, Seq<char>)>::empty() =~= child_pairs(
                children@,
            ));
            lemma_scan_children(v@, 0, 0, RUNE_DEFAULT, 0);
            assert forall|k: int| 0 <= k < children@.len() implies (#[trigger] children@[k]).1@.len()
                < content@.len() by {
                assert(child_pairs(children@)[k] == (children@[k].0, children@[k].1@));
                assert(scan(v@, 0, 0, RUNE_DEFAULT, 0).1[k].1.len() < v@.len());
            }
        }
        (string_of(&parsed), children)
    }

    /// Parses `s`, stores its node under the hash of the parsed contents
    /// — children first, the node itself last — and returns that hash
    /// together with the set of keys the call inserted. Two nodes whose
    /// parsed contents hash alike share a key, and the later insertion
    /// wins; entries under every other key keep their values, and every
    /// entry is still keyed by the hash of its own contents.
    #[verifier::rlimit(100)]
    fn build(&mut self, parent: Option<u32>, rune: u8, s: &str) -> (res: (u32, Ghost<Set<u32>>))
        requires
            map_wf(old(self)@),
        ensures
            res.0 == node_id(s@),
            map_wf(final(self)@),
            res.1@.contains(res.0),
            forall|k: u32| old(self)@.contains_key(k) ==> #[trigger] final(self)@.contains_key(k),
            forall|k: u32| #[trigger] res.1@.contains(k) ==> final(self)@.contains_key(k),
            forall|k: u32|
                #[trigger] final(self)@.contains_key(k) ==> old(self)@.contains_key(k)
                    || res.1@.contains(k),
            forall|k: u32|
                old(self)@.contains_key(k) && !(#[trigger] res.1@.contains(k))
                    ==> final(self)@[k] == old(self)@[k],
            final(self)@[res.0].id == res.0,
            final(self)@[res.0].parent == parent,
            final(self)@[res.0].rune == rune,
            final(self)@[res.0].contents@ == parse_parsed(s@),
            final(self)@[res.0].children@.len() == parse_children(s@).len(),
            forall|k: int|
                0 <= k < parse_children(s@).len() ==> final(self)@[res.0].children@[k] == node_id(
                    (#[trigger] parse_children(s@)[k]).1,
                ) && final(self)@.contains_key(node_id(parse_children(s@)[k].1)),
        decreases s@.len(),
    {
        let (parsed, child_list) = Self::parse(s);
        let hash: u32 = crate::murmur3::hash(parsed.as_str().as_bytes());
        proof {
            assert(hash == node_id(s@));
        }
        let ghost mut inserted: Set<u32> = Set::empty();
        let mut child_ids: Vec<u32> = Vec::new();
        let mut ci: usize = 0;
        let cn = child_list.len();
        while ci < cn
            invariant
                map_wf(self@),
                cn == child_list@.len(),
                ci <= cn,
                child_pairs(child_list@) == parse_children(s@),
                forall|k: int|
                    0 <= k < child_list@.len() ==> (#[trigger] child_list@[k]).1@.len()
                        < s@.len(),
                child_ids@.len() == ci,
                forall|k: int|
                    0 <= k < ci ==> child_ids@[k] == node_id(
                        (#[trigger] parse_children(s@)[k]).1,
                    ) && self@.contains_key(node_id(parse_children(s@)[k].1)),
                forall|k: u32| old(self)@.contains_key(k) ==> #[trigger] self@.contains_key(k),
                forall|k: u32| #[trigger] inserted.contains(k) ==> self@.contains_key(k),
                forall|k: u32|
                    #[trigger] self@.contains_key(k) ==> old(self)@.contains_key(k)
                        || inserted.contains(k),
                forall|k: u32|
                    old(self)@.contains_key(k) && !(#[trigger] inserted.contains(k)) ==> self@[k]
                        == old(self)@[k],
            decreases cn - ci,
        {
            let ghost mid = self@;
            let ghost inserted0 = inserted;
            let rune_k = child_list[ci].0;
            proof {
                assert(parse_children(s@)[ci as int] == (child_list@[ci as int].0, child_list@[
                    ci as int].1@));
                assert(child_list@[ci as int].1@.len() < s@.len());
            }
            let (id, sub) = self.build(Some(hash), rune_k, child_list[ci].1.as_str());
            child_ids.push(id);
            proof {
                inserted = inserted0.union(sub@);
                assert forall|k: u32| #[trigger] self@.contains_key(k) implies old(
                    self,
                )@.contains_key(k) || inserted.contains(k) by {
                    if !old(self)@.contains_key(k) {
                        assert(mid.contains_key(k) || sub@.contains(k));
                        assert(inserted0.contains(k) || sub@.contains(k));
                        assert(inserted.contains(k));
                    }
                }
                assert forall|k: u32| #[trigger] inserted.contains(k) implies self@.contains_key(
                    k,
                ) by {
                    if inserted0.contains(k) {
                        assert(mid.contains_key(k));
                        assert(self@.contains_key(k));
                    } else {
                        assert(sub@.contains(k));
                    }
                }
                assert forall|k: u32|
                    old(self)@.contains_key(k) && !(#[trigger] inserted.contains(
                        k,
                    )) implies self@[k] == old(self)@[k] by {
                    assert(!inserted0.contains(k) && !sub@.contains(k));
                    assert(mid.contains_key(k));
                    assert(mid[k] == old(self)@[k]);
                    assert(self@[k] == mid[k]);
                }
            }
            ci += 1;
        }
        let token = Token {
            id: hash,
            parent,
            rune,
            contents: parsed,
            children: child_ids,
        };
        proof {
            assert(token_wf(hash, token));
        }
        let ghost pre = self@;
        let ghost inserted_pre = inserted;
        self.insert(hash, token);
        proof {
            inserted = inserted.insert(hash);
            assert forall|k: u32| #[trigger] self@.contains_key(k) implies token_wf(k, self@[k])
            by {
                if k != hash {
                    assert(pre.contains_key(k));
                    assert(self@[k] == pre[k]);
                }
            }
            assert forall|k: u32| #[trigger] self@.contains_key(k) implies old(
                self,
            )@.contains_key(k) || inserted.contains(k) by {
                if k == hash {
                    assert(inserted.contains(k));
                } else {
                    assert(pre.contains_key(k));
                }
            }
            assert forall|k: u32| #[trigger] inserted.contains(k) implies self@.contains_key(
                k,
            ) by {
                if k != hash {
                    assert(inserted_pre.contains(k));
                    assert(pre.contains_key(k));
                }
            }
            assert forall|k: u32|
                old(self)@.contains_key(k) && !(#[trigger] inserted.contains(
                    k,
                )) implies self@[k] == old(self)@[k] by {
                assert(k != hash && !inserted_pre.contains(k));
                assert(pre.contains_key(k));
                assert(pre[k] == old(self)@[k]);
                assert(self@[k] == pre[k]);
            }
        }
        (hash, Ghost(inserted))
    }

    /// Parses a page into its token map: the root node is stored last,
    /// under the hash of its parsed contents, with the default rune and
    /// no parent; the returned key is the root's.
    pub fn from(s: &str) -> (out: (u32, TokenMap))
        ensures
            out.0 == node_id(s@),
            map_wf(out.1@),
            out.1@.contains_key(out.0),
            out.1@[out.0].id == out.0,
            out.1@[out.0].parent is None,
            out.1@[out.0].rune == RUNE_DEFAULT,
            out.1@[out.0].contents@ == parse_parsed(s@),
            out.1@[out.0].children@.len() == parse_children(s@).len(),
            forall|k: int|
                0 <= k < parse_children(s@).len() ==> out.1@[out.0].children@[k] == node_id(
                    (#[trigger] parse_children(s@)[k]).1,
                ) && out.1@.contains_key(node_id(parse_children(s@)[k].1)),
    {
        let mut map = TokenMap(HashMap::new());
        let (hash, _inserted) = map.build(None, RUNE_DEFAULT, s);
        (hash, map)
    }
}

} // verus!
