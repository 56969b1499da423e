//! A concrete syntax tree held as plain values, and its construction from a
//! Tree-sitter parse.

use vstd::prelude::*;
use vstd::utf8::{decode_utf8, valid_utf8};
use crate::text::{str_eq, str_from_utf8, utf8_valid};
use crate::Error;

verus! {

/// One node of a concrete syntax tree: its grammar kind, whether the grammar
/// names it, the field it fills in its parent, its byte range in the source,
/// and all of its children (named and anonymous) in order.
#[derive(Debug)]
pub struct Cst {
    pub kind: &'static str,
    pub named: bool,
    pub field: Option<&'static str>,
    pub start: usize,
    pub end: usize,
    pub children: Vec<Cst>,
}

/// The source bytes of a node: its byte range, when that range lies in the
/// source and is valid UTF-8.
pub open spec fn text_bytes(src: Seq<u8>, n: Cst) -> Option<Seq<u8>> {
    if n.start <= n.end <= src.len() && valid_utf8(src.subrange(n.start as int, n.end as int)) {
        Some(src.subrange(n.start as int, n.end as int))
    } else {
        None
    }
}

/// The source text of a node: the characters its bytes encode, when its range
/// lies in the source and is valid UTF-8.
pub open spec fn text(src: Seq<u8>, n: Cst) -> Option<Seq<char>> {
    match text_bytes(src, n) {
        Some(b) => Some(decode_utf8(b)),
        None => None,
    }
}

/// Index of the first child at or after `i` that fills field `f`, or -1.
pub open spec fn find_field(cs: Seq<Cst>, f: Seq<char>, i: int) -> int
    decreases cs.len() - i,
{
    if i < 0 || i >= cs.len() {
        -1
    } else if cs[i].field matches Some(g) && g@ == f {
        i
    } else {
        find_field(cs, f, i + 1)
    }
}

/// Index of the child that fills field `f` (the first such), or -1.
pub open spec fn fidx(n: Cst, f: Seq<char>) -> int {
    find_field(n.children@, f, 0)
}

/// Index of the first named child at or after `i`, or -1.
pub open spec fn find_named(cs: Seq<Cst>, i: int) -> int
    decreases cs.len() - i,
{
    if i < 0 || i >= cs.len() {
        -1
    } else if cs[i].named {
        i
    } else {
        find_named(cs, i + 1)
    }
}

/// Index of the first named child of kind `k` at or after `i`, or -1.
pub open spec fn find_named_kind(cs: Seq<Cst>, k: Seq<char>, i: int) -> int
    decreases cs.len() - i,
{
    if i < 0 || i >= cs.len() {
        -1
    } else if cs[i].named && cs[i].kind@ == k {
        i
    } else {
        find_named_kind(cs, k, i + 1)
    }
}

/// Index of the first child (named or not) of kind `k` at or after `i`, or -1.
pub open spec fn find_kind(cs: Seq<Cst>, k: Seq<char>, i: int) -> int
    decreases cs.len() - i,
{
    if i < 0 || i >= cs.len() {
        -1
    } else if cs[i].kind@ == k {
        i
    } else {
        find_kind(cs, k, i + 1)
    }
}

/// The source text of a node, or the empty text when it cannot be read.
pub open spec fn text_or_empty(src: Seq<u8>, n: Cst) -> Seq<char> {
    match text(src, n) {
        Some(t) => t,
        None => Seq::empty(),
    }
}

/// Whether `k` indexes a child of `n`.
pub open spec fn has(n: Cst, k: int) -> bool {
    0 <= k < n.children@.len()
}

/// Whether `n` has the kind `k`.
pub fn kind_is(n: &Cst, k: &str) -> (r: bool)
    ensures
        r == (n.kind@ == k@),
{
    str_eq(n.kind, k)
}

/// The child that fills field `f`, by index.
pub fn child_by_field(n: &Cst, f: &str) -> (r: Option<usize>)
    ensures
        match r {
            Some(k) => fidx(*n, f@) == k as int && (k as int) < n.children@.len(),
            None => fidx(*n, f@) == -1,
        },
{
    let mut i: usize = 0;
    while i < n.children.len()
        invariant
            i <= n.children@.len(),
            find_field(n.children@, f@, 0) == find_field(n.children@, f@, i as int),
        decreases n.children.len() - i,
    {
        let c = &n.children[i];
        match c.field {
            Some(g) => {
                if str_eq(g, f) {
                    return Some(i);
                }
            },
            None => {},
        }
        i += 1;
    }
    None
}

/// The first named child, by index.
pub fn first_named(n: &Cst) -> (r: Option<usize>)
    ensures
        match r {
            Some(k) => find_named(n.children@, 0) == k as int && (k as int) < n.children@.len(),
            None => find_named(n.children@, 0) == -1,
        },
{
    let mut i: usize = 0;
    while i < n.children.len()
        invariant
            i <= n.children@.len(),
            find_named(n.children@, 0) == find_named(n.children@, i as int),
        decreases n.children.len() - i,
    {
        if n.children[i].named {
            return Some(i);
        }
        i += 1;
    }
    None
}

/// The first named child at or after index `from`, by index.
pub fn named_from(n: &Cst, from: usize) -> (r: Option<usize>)
    ensures
        match r {
            Some(k) => find_named(n.children@, from as int) == k as int && (k as int) < n.children@.len(),
            None => find_named(n.children@, from as int) == -1,
        },
{
    let mut i: usize = from;
    while i < n.children.len()
        invariant
            from <= i,
            find_named(n.children@, from as int) == find_named(n.children@, i as int),
        decreases n.children.len() - i,
    {
        if n.children[i].named {
            return Some(i);
        }
        i += 1;
    }
    None
}

/// The first child (named or not) of kind `k`, by index.
pub fn first_kind(n: &Cst, k: &str) -> (r: Option<usize>)
    ensures
        match r {
            Some(j) => find_kind(n.children@, k@, 0) == j as int && (j as int) < n.children@.len(),
            None => find_kind(n.children@, k@, 0) == -1,
        },
{
    let mut i: usize = 0;
    while i < n.children.len()
        invariant
            i <= n.children@.len(),
            find_kind(n.children@, k@, 0) == find_kind(n.children@, k@, i as int),
        decreases n.children.len() - i,
    {
        if kind_is(&n.children[i], k) {
            return Some(i);
        }
        i += 1;
    }
    None
}

/// The first named child of kind `k`, by index.
pub fn first_named_kind(n: &Cst, k: &str) -> (r: Option<usize>)
    ensures
        match r {
            Some(j) => find_named_kind(n.children@, k@, 0) == j as int && (j as int)
                < n.children@.len(),
            None => find_named_kind(n.children@, k@, 0) == -1,
        },
{
    let mut i: usize = 0;
    while i < n.children.len()
        invariant
            i <= n.children@.len(),
            find_named_kind(n.children@, k@, 0) == find_named_kind(n.children@, k@, i as int),
        decreases n.children.len() - i,
    {
        if n.children[i].named && kind_is(&n.children[i], k) {
            return Some(i);
        }
        i += 1;
    }
    None
}

/// The source bytes of a node, when they are in range and valid UTF-8.
pub fn node_bytes<'a>(src: &'a [u8], n: &Cst) -> (r: Option<&'a [u8]>)
    ensures
        match text_bytes(src@, *n) {
            Some(t) => r is Some && r->0@ == t,
            None => r is None,
        },
{
    if n.start <= n.end && n.end <= src.len() {
        let t = vstd::slice::slice_subrange(src, n.start, n.end);
        if utf8_valid(t) {
            Some(t)
        } else {
            None
        }
    } else {
        None
    }
}

/// The source text of a node, when its range lies in the source and is valid
/// UTF-8.
pub fn node_str<'a>(src: &'a [u8], n: &Cst) -> (r: Option<&'a str>)
    ensures
        match text(src@, *n) {
            Some(t) => r is Some && r->0@ == t,
            None => r is None,
        },
{
    if n.start <= n.end && n.end <= src.len() {
        let t = vstd::slice::slice_subrange(src, n.start, n.end);
        str_from_utf8(t)
    } else {
        None
    }
}

/// The source text of a node, or `""` when it cannot be read.
pub fn node_text<'a>(src: &'a [u8], n: &Cst) -> (r: &'a str)
    ensures
        r@ == text_or_empty(src@, *n),
{
    match node_str(src, n) {
        Some(t) => t,
        None => {
            proof {
                reveal_strlit("");
            }
            ""
        },
    }
}

// ─── Tree-sitter ─────────────────────────────────────────────────────────────

/// Which grammar to parse with.
pub enum Grammar {
    Rust,
    Html,
}

/// One node of a Tree-sitter tree as plain values: its kind, whether it is
/// named, the field it fills in its parent, its byte range, and its number of
/// children.
pub struct NodeV {
    pub kind: Seq<char>,
    pub named: bool,
    pub field: Option<Seq<char>>,
    pub start: usize,
    pub end: usize,
    pub count: usize,
}

/// A node record as the parser lists it.
pub type NodeRec = (&'static str, bool, Option<&'static str>, usize, usize, usize);

/// A node record as plain values.
pub open spec fn rec_view(r: NodeRec) -> NodeV {
    NodeV {
        kind: r.0@,
        named: r.1,
        field: match r.2 {
            Some(f) => Some(f@),
            None => None,
        },
        start: r.3,
        end: r.4,
        count: r.5,
    }
}

/// Node records as plain values.
pub open spec fn recs_view(rs: Seq<NodeRec>) -> Seq<NodeV> {
    rs.map_values(|r: NodeRec| rec_view(r))
}

/// What Tree-sitter's parse of `source` with `grammar` gives: every node of
/// the tree in pre-order, and whether the root reports a syntax error; `None`
/// when the grammar cannot be loaded or no tree is produced.
pub uninterp spec fn ts_listing(grammar: Grammar, source: Seq<u8>) -> Option<(Seq<NodeV>, bool)>;

/// `tree_sitter::Parser` with the grammar of `tree_sitter_rust` or
/// `tree_sitter_html`, `Parser::parse` of the whole buffer, then a
/// `TreeCursor` walk listing each node in pre-order (`kind`, `is_named`, the
/// cursor's `field_name`, `start_byte`, `end_byte`, `child_count`) and the
/// root's `has_error`. The parse depends on the grammar and the bytes alone,
/// so the listing is named ([`ts_listing`]).
#[verifier::external_body]
fn ts_parse_listing(grammar: Grammar, source: &[u8]) -> (r: Option<(Vec<NodeRec>, bool)>)
    ensures
        match ts_listing(grammar, source@) {
            Some(l) => r matches Some(x) && recs_view(x.0@) == l.0 && x.1 == l.1,
            None => r is None,
        },
{
    let lang = match grammar { Grammar::Rust => tree_sitter_rust::LANGUAGE, Grammar::Html => tree_sitter_html::LANGUAGE };
    let mut parser = tree_sitter::Parser::new();
    parser.set_language(&lang.into()).ok()?;
    let tree = parser.parse(source, None)?;
    let (mut c, mut out) = (tree.walk(), Vec::new());
    loop {
        let n = c.node();
        out.push((n.kind(), n.is_named(), c.field_name(), n.start_byte(), n.end_byte(), n.child_count()));
        if c.goto_first_child() { continue; }
        while !c.goto_next_sibling() {
            if !c.goto_parent() { return Some((out, tree.root_node().has_error())); }
        }
    }
}

/// A syntax tree as plain values.
pub struct TreeV {
    pub kind: Seq<char>,
    pub named: bool,
    pub field: Option<Seq<char>>,
    pub start: usize,
    pub end: usize,
    pub children: Seq<TreeV>,
}

/// The tree whose pre-order listing starts at index `i`, and the index after
/// it: the node, then its `count` children's trees one after another. `None`
/// when the listing ends too early or `fuel` (a bound on the depth) runs out.
pub open spec fn tree_at(ns: Seq<NodeV>, i: int, fuel: nat) -> Option<(TreeV, int)>
    decreases fuel, 0nat, 0nat,
{
    if fuel == 0 || i < 0 || i >= ns.len() {
        None
    } else {
        match forest_at(ns, i + 1, ns[i].count as nat, (fuel - 1) as nat) {
            Some((cs, j)) => Some(
                (
                    TreeV {
                        kind: ns[i].kind,
                        named: ns[i].named,
                        field: ns[i].field,
                        start: ns[i].start,
                        end: ns[i].end,
                        children: cs,
                    },
                    j,
                ),
            ),
            None => None,
        }
    }
}

/// `k` consecutive trees of the listing from index `i`, and the index after
/// them.
pub open spec fn forest_at(ns: Seq<NodeV>, i: int, k: nat, fuel: nat) -> Option<(Seq<TreeV>, int)>
    decreases fuel, 1nat, k,
{
    if k == 0 {
        Some((Seq::empty(), i))
    } else {
        match tree_at(ns, i, fuel) {
            Some((t, j)) => match forest_at(ns, j, (k - 1) as nat, fuel) {
                Some((ts, e)) => Some((seq![t] + ts, e)),
                None => None,
            },
            None => None,
        }
    }
}

/// Whether a [`Cst`] holds the tree `t`.
pub open spec fn cst_is(c: Cst, t: TreeV) -> bool
    decreases t,
{
    &&& c.kind@ == t.kind
    &&& c.named == t.named
    &&& match c.field {
        Some(f) => t.field == Some(f@),
        None => t.field is None,
    }
    &&& c.start == t.start
    &&& c.end == t.end
    &&& c.children@.len() == t.children.len()
    &&& forall|k: int| 0 <= k < t.children.len() ==> cst_is(#[trigger] c.children@[k], t.children[k])
}

/// The tree Tree-sitter gives for `source` with `grammar`, and whether it
/// reports a syntax error; `None` when the parser gives no tree.
pub open spec fn parse_spec(grammar: Grammar, source: Seq<u8>) -> Option<(TreeV, bool)> {
    match ts_listing(grammar, source) {
        Some((ns, err)) => match tree_at(ns, 0, usize::MAX as nat) {
            Some((t, _)) => Some((t, err)),
            None => None,
        },
        None => None,
    }
}

/// Builds the tree whose listing starts at `i` ([`tree_at`]).
fn build_tree(ns: &Vec<NodeRec>, i: usize, fuel: usize) -> (r: Option<(Cst, usize)>)
    ensures
        match tree_at(recs_view(ns@), i as int, fuel as nat) {
            Some((t, j)) => r matches Some((c, e)) && cst_is(c, t) && e == j,
            None => r is None,
        },
    decreases fuel,
{
    let ghost nv = recs_view(ns@);
    if fuel == 0 || i >= ns.len() {
        return None;
    }
    let (kind, named, field, start, end, count) = ns[i];
    proof {
        assert(nv[i as int] == rec_view(ns@[i as int]));
    }
    let mut children: Vec<Cst> = Vec::new();
    let ghost mut built: Seq<TreeV> = Seq::empty();
    if i == usize::MAX {
        proof {
            assert(forest_at(nv, i + 1, count as nat, (fuel - 1) as nat) is None || count == 0);
        }
        return None;
    }
    let mut j: usize = i + 1;
    let mut done: usize = 0;
    while done < count
        invariant
            nv == recs_view(ns@),
            fuel > 0,
            i < nv.len(),
            nv[i as int].count == count,
            done <= count,
            children@.len() == built.len(),
            forall|k: int| 0 <= k < built.len() ==> cst_is(#[trigger] children@[k], built[k]),
            forest_at(nv, i + 1, count as nat, (fuel - 1) as nat) == match forest_at(
                nv,
                j as int,
                (count - done) as nat,
                (fuel - 1) as nat,
            ) {
                Some((ts, e)) => Some((built + ts, e)),
                None => None,
            },
        decreases count - done,
    {
        match build_tree(ns, j, fuel - 1) {
            Some((c, e)) => {
                proof {
                    let t = tree_at(nv, j as int, (fuel - 1) as nat)->Some_0.0;
                    match forest_at(nv, e as int, (count - done - 1) as nat, (fuel - 1) as nat) {
                        Some((ts, e2)) => {
                            assert(built + (seq![t] + ts) =~= built.push(t) + ts);
                        },
                        None => {},
                    }
                    built = built.push(t);
                }
                children.push(c);
                j = e;
                done += 1;
            },
            None => {
                proof {
                    assert(forest_at(nv, j as int, (count - done) as nat, (fuel - 1) as nat) is None);
                }
                return None;
            },
        }
    }
    proof {
        assert(built + Seq::<TreeV>::empty() =~= built);
    }
    let c = Cst { kind, named, field, start, end, children };
    proof {
        let t = tree_at(nv, i as int, fuel as nat)->Some_0.0;
        assert(t.children == built);
        assert(cst_is(c, t));
    }
    Some((c, j))
}

/// A parse of a source buffer: its tree, and whether the parser reported a
/// syntax error anywhere in it.
pub struct Parsed {
    pub root: Cst,
    pub has_error: bool,
}

/// Parses `source` with Tree-sitter and the given grammar, and copies the tree
/// into plain values: exactly the tree of [`parse_spec`], or
/// [`Error::Parsing`] when the parser gives none.
pub fn parse_with(source: &[u8], grammar: Grammar) -> (r: Result<Parsed, Error>)
    ensures
        match parse_spec(grammar, source@) {
            Some((t, err)) => r matches Ok(p) && cst_is(p.root, t) && p.has_error == err,
            None => r matches Err(e) && e is Parsing,
        },
{
    let listing = match ts_parse_listing(grammar, source) {
        Some(l) => l,
        None => return Err(Error::Parsing("parser returned no tree".to_string())),
    };
    match build_tree(&listing.0, 0, usize::MAX) {
        Some((root, _)) => Ok(Parsed { root, has_error: listing.1 }),
        None => Err(Error::Parsing("syntax tree could not be read".to_string())),
    }
}

} // verus!
