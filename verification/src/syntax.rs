//! The validated parse tree and tree-structured context lookup.
//!
//! A parse tree handed over by the outside parser is checked, node by node,
//! against the document's current lines: byte coordinates are converted to
//! codepoint coordinates and anything out of bounds discards the whole tree.
//! Everything after that point works on the validated tree and is proved.

use crate::model::{pos_valid_model, range_valid_model};
use crate::position::{pos_le, Position, Range};
use crate::ts::RawNode;
use crate::util;
use vstd::prelude::*;

verus! {

/// One validated parse-tree node: its kind, its byte-addressed coordinates
/// exactly as the parser reported them, the same span in codepoint
/// coordinates, and its children in order.
pub struct SynNode {
    pub kind: String,
    pub start_row: usize,
    pub start_bcol: usize,
    pub end_row: usize,
    pub end_bcol: usize,
    pub range: Range,
    pub children: Vec<SynNode>,
}

/// Every node's codepoint span is valid in `lines` and ordered.
pub open spec fn syn_wf(n: SynNode, lines: Seq<Seq<char>>) -> bool
    decreases n,
{
    &&& range_valid_model(lines, n.range)
    &&& forall|i: int| 0 <= i < n.children@.len() ==> syn_wf(#[trigger] n.children@[i], lines)
}

/// Whether `p` falls inside `n`'s span, inclusively on both ends.
pub open spec fn node_contains(n: SynNode, p: Position) -> bool {
    pos_le(n.range.beginning, p) && pos_le(p, n.range.ending)
}

/// The index of the first child whose span contains `p`, or -1.
pub open spec fn first_containing_idx(children: Seq<SynNode>, p: Position) -> int
    decreases children.len(),
{
    if children.len() == 0 {
        -1
    } else if node_contains(children[0], p) {
        0
    } else {
        let r = first_containing_idx(children.subrange(1, children.len() as int), p);
        if r == -1 {
            -1
        } else {
            r + 1
        }
    }
}

/// What the index of the first containing child means.
pub proof fn lemma_first_containing(children: Seq<SynNode>, p: Position)
    ensures
        ({
            let r = first_containing_idx(children, p);
            &&& (r == -1 ==> forall|j: int|
                0 <= j < children.len() ==> !node_contains(#[trigger] children[j], p))
            &&& (r != -1 ==> 0 <= r < children.len() && node_contains(children[r], p) && (
            forall|j: int| 0 <= j < r ==> !node_contains(#[trigger] children[j], p)))
        }),
    decreases children.len(),
{
    if children.len() > 0 && !node_contains(children[0], p) {
        let tail = children.subrange(1, children.len() as int);
        lemma_first_containing(tail, p);
        assert(forall|j: int| 0 <= j < tail.len() ==> tail[j] == children[j + 1]);
        let r = first_containing_idx(children, p);
        let rt = first_containing_idx(tail, p);
        if rt == -1 {
            assert forall|j: int| 0 <= j < children.len() implies !node_contains(
                #[trigger] children[j],
                p,
            ) by {
                if j > 0 {
                    assert(tail[j - 1] == children[j]);
                }
            }
        } else {
            assert(r == rt + 1);
            assert(children[r] == tail[rt]);
            assert forall|j: int| 0 <= j < r implies !node_contains(
                #[trigger] children[j],
                p,
            ) by {
                if j > 0 {
                    assert(tail[j - 1] == children[j]);
                }
            }
        }
    }
}

/// The root-to-leaf chain of regions around `p`: each node's kind and span,
/// descending into the first child that contains `p`, stopping when none
/// does.
pub open spec fn chain_spec(n: SynNode, p: Position) -> Seq<(Seq<char>, Range)>
    decreases n,
{
    let i = first_containing_idx(n.children@, p);
    seq![(n.kind@, n.range)] + (if i >= 0 && i < n.children@.len() {
        chain_spec(n.children@[i], p)
    } else {
        Seq::<(Seq<char>, Range)>::empty()
    })
}

/// Represents a contextual region within a document.
#[derive(PartialEq, Eq, Clone, Debug)]
pub struct ChainRegion {
    pub kind: String,
    pub range: Range,
}

impl ChainRegion {
    /// Returns the region with the given `kind` and `range`.
    pub fn from(kind: &str, range: &Range) -> (r: ChainRegion)
        ensures
            r.kind@ == kind@,
            r.range == *range,
    {
        ChainRegion { kind: kind.to_owned(), range: *range }
    }
}

/// Represents a series of nested contextual regions within a document.
#[derive(PartialEq, Eq, Clone, Debug)]
pub struct Chain {
    pub regions: Vec<ChainRegion>,
}

/// The kinds and spans of a chain's regions, in order.
pub open spec fn chain_view(c: Chain) -> Seq<(Seq<char>, Range)> {
    Seq::new(c.regions@.len(), |i: int| (c.regions@[i].kind@, c.regions@[i].range))
}

impl Chain {
    /// Returns a new, empty chain.
    pub fn new() -> (r: Chain)
        ensures
            chain_view(r) == Seq::<(Seq<char>, Range)>::empty(),
    {
        let r = Chain { regions: Vec::new() };
        proof {
            assert(chain_view(r) =~= Seq::<(Seq<char>, Range)>::empty());
        }
        r
    }

    /// Pushes a new region onto the chain.
    pub fn push(&mut self, kind: &str, range: &Range)
        ensures
            chain_view(*final(self)) == chain_view(*old(self)).push((kind@, *range)),
    {
        self.regions.push(ChainRegion::from(kind, range));
        proof {
            assert(chain_view(*self) =~= chain_view(*old(self)).push((kind@, *range)));
        }
    }
}

/// Walks from `node` toward the leaves, always descending into the first
/// child whose span contains `p`, and appends each visited node's kind and
/// span to `chain`.
pub fn walk_chain(node: &SynNode, p: &Position, chain: &mut Chain)
    ensures
        chain_view(*final(chain)) == chain_view(*old(chain)) + chain_spec(*node, *p),
    decreases *node,
{
    chain.push(node.kind.as_str(), &node.range);
    let n = node.children.len();
    let mut i: usize = 0;
    proof {
        lemma_first_containing(node.children@, *p);
    }
    while i < n
        invariant
            0 <= i <= n,
            n == node.children@.len(),
            chain_view(*chain) == chain_view(*old(chain)).push((node.kind@, node.range)),
            forall|j: int| 0 <= j < i ==> !node_contains(#[trigger] node.children@[j], *p),
        decreases n - i,
    {
        let c = &node.children[i];
        if c.range.beginning.le(p) && p.le(&c.range.ending) {
            proof {
                lemma_first_containing(node.children@, *p);
                assert(first_containing_idx(node.children@, *p) == i);
            }
            walk_chain(c, p, chain);
            proof {
                assert(chain_view(*chain) =~= chain_view(*old(chain)) + chain_spec(*node, *p));
            }
            return ;
        }
        i = i + 1;
    }
    proof {
        lemma_first_containing(node.children@, *p);
        assert(first_containing_idx(node.children@, *p) == -1);
        assert(chain_view(*chain) =~= chain_view(*old(chain)) + chain_spec(*node, *p));
    }
}

/// A parse-tree node as a pure value: the node kind and the byte-addressed
/// coordinates the outside parser reported, and the children in order.
#[verifier::ext_equal]
pub struct RawView {
    pub kind: Seq<char>,
    pub start_row: usize,
    pub start_bcol: usize,
    pub end_row: usize,
    pub end_bcol: usize,
    pub children: Seq<RawView>,
}

/// A validated node as a pure value: the raw coordinates plus the converted
/// codepoint span.
#[verifier::ext_equal]
pub struct SynView {
    pub kind: Seq<char>,
    pub start_row: usize,
    pub start_bcol: usize,
    pub end_row: usize,
    pub end_bcol: usize,
    pub range: Range,
    pub children: Seq<SynView>,
}

/// The pure values of the parser-reported nodes `ns[i..]`.
pub(crate) open spec fn raw_views(ns: Seq<RawNode>, i: int) -> Seq<RawView>
    decreases ns, ns.len() - i,
{
    if i < 0 || i >= ns.len() {
        Seq::<RawView>::empty()
    } else {
        seq![
            RawView {
                kind: ns[i].kind@,
                start_row: ns[i].start_row,
                start_bcol: ns[i].start_bcol,
                end_row: ns[i].end_row,
                end_bcol: ns[i].end_bcol,
                children: raw_views(ns[i].children@, 0),
            },
        ] + raw_views(ns, i + 1)
    }
}

/// The pure value of one parser-reported node.
pub(crate) open spec fn raw_view(n: RawNode) -> RawView {
    RawView {
        kind: n.kind@,
        start_row: n.start_row,
        start_bcol: n.start_bcol,
        end_row: n.end_row,
        end_bcol: n.end_bcol,
        children: raw_views(n.children@, 0),
    }
}

/// The pure values of `ns[i..]` are the pure values of its nodes, in order.
pub(crate) proof fn lemma_raw_views_index(ns: Seq<RawNode>, i: int)
    requires
        0 <= i <= ns.len(),
    ensures
        raw_views(ns, i).len() == ns.len() - i,
        forall|j: int| 0 <= j < ns.len() - i ==> raw_views(ns, i)[j] == raw_view(ns[i + j]),
    decreases ns.len() - i,
{
    if i < ns.len() {
        lemma_raw_views_index(ns, i + 1);
        assert(raw_views(ns, i)[0] =~~= raw_view(ns[i]));
        assert(forall|j: int|
            1 <= j < ns.len() - i ==> raw_views(ns, i)[j] == raw_views(ns, i + 1)[j - 1]);
    }
}

/// Where a raw node's start lands in codepoint coordinates (rows are as
/// reported; a byte column off every boundary is mapped to 0, but such a
/// node never validates).
pub open spec fn raw_cp_beginning(v: RawView, lines: Seq<Seq<char>>) -> Position {
    match util::byte_to_cp_spec(lines[v.start_row as int], v.start_bcol as int) {
        Some(k) => Position { row: v.start_row, column: k as usize },
        None => Position { row: v.start_row, column: 0 },
    }
}

/// Where a raw node's end lands in codepoint coordinates.
pub open spec fn raw_cp_ending(v: RawView, lines: Seq<Seq<char>>) -> Position {
    match util::byte_to_cp_spec(lines[v.end_row as int], v.end_bcol as int) {
        Some(k) => Position { row: v.end_row, column: k as usize },
        None => Position { row: v.end_row, column: 0 },
    }
}

/// A raw node's codepoint span.
pub open spec fn raw_cp_range(v: RawView, lines: Seq<Seq<char>>) -> Range {
    Range { beginning: raw_cp_beginning(v, lines), ending: raw_cp_ending(v, lines) }
}

/// Whether one raw node's coordinates check out against `lines`: both rows
/// exist, both byte columns fall on codepoint boundaries, and the converted
/// span is not reversed.
pub open spec fn raw_head_ok(v: RawView, lines: Seq<Seq<char>>) -> bool {
    &&& v.start_row < lines.len()
    &&& v.end_row < lines.len()
    &&& util::byte_to_cp_spec(lines[v.start_row as int], v.start_bcol as int) is Some
    &&& util::byte_to_cp_spec(lines[v.end_row as int], v.end_bcol as int) is Some
    &&& pos_le(raw_cp_beginning(v, lines), raw_cp_ending(v, lines))
}

/// The validated views of the raw nodes `vs[i..]`: every node's span
/// converted to codepoints, or nothing as soon as any node, anywhere in any
/// subtree, fails validation.
pub open spec fn validate_views(vs: Seq<RawView>, i: int, lines: Seq<Seq<char>>) -> Option<
    Seq<SynView>,
>
    decreases vs, vs.len() - i,
{
    if i < 0 || i >= vs.len() {
        Some(Seq::<SynView>::empty())
    } else if !raw_head_ok(vs[i], lines) {
        None
    } else {
        match validate_views(vs[i].children, 0, lines) {
            None => None,
            Some(kids) => match validate_views(vs, i + 1, lines) {
                None => None,
                Some(rest) => Some(
                    seq![
                        SynView {
                            kind: vs[i].kind,
                            start_row: vs[i].start_row,
                            start_bcol: vs[i].start_bcol,
                            end_row: vs[i].end_row,
                            end_bcol: vs[i].end_bcol,
                            range: raw_cp_range(vs[i], lines),
                            children: kids,
                        },
                    ] + rest,
                ),
            },
        }
    }
}

/// The validated view of one raw node, or nothing if any node of its
/// subtree fails validation.
pub open spec fn validate_view(v: RawView, lines: Seq<Seq<char>>) -> Option<SynView> {
    match validate_views(seq![v], 0, lines) {
        Some(s) => Some(s[0]),
        None => None,
    }
}

/// Validating a run of nodes validates its head and its tail.
pub proof fn lemma_validate_views_step(vs: Seq<RawView>, i: int, lines: Seq<Seq<char>>)
    requires
        0 <= i < vs.len(),
    ensures
        validate_views(vs, i, lines) == (match validate_view(vs[i], lines) {
            None => None::<Seq<SynView>>,
            Some(v) => (match validate_views(vs, i + 1, lines) {
                None => None::<Seq<SynView>>,
                Some(rest) => Some(seq![v] + rest),
            }),
        }),
{
    let x = vs[i];
    assert(seq![x][0] == x);
    assert(seq![x].len() == 1);
    assert(validate_views(seq![x], 1, lines) == Some(Seq::<SynView>::empty()));
    if raw_head_ok(x, lines) {
        match validate_views(x.children, 0, lines) {
            None => {
                assert(validate_views(seq![x], 0, lines) is None);
                assert(validate_view(x, lines) is None);
            },
            Some(kids) => {
                let elem = SynView {
                    kind: x.kind,
                    start_row: x.start_row,
                    start_bcol: x.start_bcol,
                    end_row: x.end_row,
                    end_bcol: x.end_bcol,
                    range: raw_cp_range(x, lines),
                    children: kids,
                };
                assert(validate_views(seq![x], 0, lines) == Some(
                    seq![elem] + Seq::<SynView>::empty(),
                ));
                assert((seq![elem] + Seq::<SynView>::empty())[0] == elem);
                assert(validate_view(x, lines) == Some(elem));
            },
        }
    } else {
        assert(validate_views(seq![x], 0, lines) is None);
        assert(validate_view(x, lines) is None);
    }
}

/// A validated node mirrors a pure view, field by field and child by child.
pub open spec fn node_matches(n: SynNode, v: SynView) -> bool
    decreases n,
{
    &&& n.kind@ == v.kind
    &&& n.start_row == v.start_row
    &&& n.start_bcol == v.start_bcol
    &&& n.end_row == v.end_row
    &&& n.end_bcol == v.end_bcol
    &&& n.range == v.range
    &&& n.children@.len() == v.children.len()
    &&& forall|i: int|
        0 <= i < n.children@.len() ==> node_matches(#[trigger] n.children@[i], v.children[i])
}

/// Checks one parser-reported node, and its children, against the
/// document's lines: rows must exist, byte columns must sit on codepoint
/// boundaries, and spans must be ordered. Anything off discards the tree.
/// The result is exactly the validated view of the input.
pub(crate) fn validate_node(raw: &RawNode, lines: &Vec<crate::document::Line>) -> (r: Option<
    SynNode,
>)
    requires
        forall|i: int| 0 <= i < lines@.len() ==> (#[trigger] lines@[i]).wf(),
    ensures
        (match r {
            Some(t) => syn_wf(t, crate::document::lines_view(lines@)) && (
            match validate_view(raw_view(*raw), crate::document::lines_view(lines@)) {
                Some(v) => node_matches(t, v),
                None => false,
            }),
            None => validate_view(
                raw_view(*raw),
                crate::document::lines_view(lines@),
            ) is None,
        }),
    decreases *raw,
{
    let ghost lv = crate::document::lines_view(lines@);
    let ghost rv = raw_view(*raw);
    proof {
        assert(seq![rv][0] == rv);
        assert(seq![rv].len() == 1);
    }
    let lcount = lines.len();
    if raw.start_row >= lcount || raw.end_row >= lcount {
        proof {
            assert(!raw_head_ok(rv, lv));
            assert(validate_views(seq![rv], 0, lv) is None);
        }
        return None;
    }
    let sc = util::byte_index_to_cp(lines[raw.start_row].content.as_str(), raw.start_bcol);
    let ec = util::byte_index_to_cp(lines[raw.end_row].content.as_str(), raw.end_bcol);
    proof {
        assert(lines@[raw.start_row as int].content@ == lv[rv.start_row as int]);
        assert(lines@[raw.end_row as int].content@ == lv[rv.end_row as int]);
    }
    let scol: usize;
    let ecol: usize;
    match (sc, ec) {
        (Some(a), Some(b)) => {
            scol = a;
            ecol = b;
        },
        _ => {
            proof {
                assert(!raw_head_ok(rv, lv));
                assert(validate_views(seq![rv], 0, lv) is None);
            }
            return None;
        },
    }
    proof {
        util::lemma_b2c_bound(lines@[raw.start_row as int].content@, raw.start_bcol as int);
        util::lemma_b2c_bound(lines@[raw.end_row as int].content@, raw.end_bcol as int);
    }
    let beginning = Position { row: raw.start_row, column: scol };
    let ending = Position { row: raw.end_row, column: ecol };
    proof {
        assert(raw_cp_beginning(rv, lv) == beginning);
        assert(raw_cp_ending(rv, lv) == ending);
    }
    if !beginning.le(&ending) {
        proof {
            assert(!raw_head_ok(rv, lv));
            assert(validate_views(seq![rv], 0, lv) is None);
        }
        return None;
    }
    let range = Range { beginning, ending };
    proof {
        assert(raw_head_ok(rv, lv));
        assert(range == raw_cp_range(rv, lv));
        lemma_raw_views_index(raw.children@, 0);
    }
    let mut children: Vec<SynNode> = Vec::new();
    let ghost mut kid_views: Seq<SynView> = Seq::<SynView>::empty();
    let k = raw.children.len();
    let mut i: usize = 0;
    proof {
        match validate_views(rv.children, 0, lv) {
            None => {},
            Some(r0) => {
                assert(kid_views + r0 =~= r0);
            },
        }
    }
    while i < k
        invariant
            0 <= i <= k,
            k == raw.children@.len(),
            rv == raw_view(*raw),
            lv == crate::document::lines_view(lines@),
            forall|t: int| 0 <= t < lines@.len() ==> (#[trigger] lines@[t]).wf(),
            rv.children.len() == k,
            forall|j: int| 0 <= j < k ==> rv.children[j] == raw_view(raw.children@[j]),
            children@.len() == i,
            kid_views.len() == i,
            forall|t: int|
                0 <= t < i ==> syn_wf(
                    #[trigger] children@[t],
                    crate::document::lines_view(lines@),
                ),
            forall|t: int| 0 <= t < i ==> node_matches(#[trigger] children@[t], kid_views[t]),
            validate_views(rv.children, 0, lv) == (match validate_views(
                rv.children,
                i as int,
                lv,
            ) {
                None => None::<Seq<SynView>>,
                Some(rest) => Some(kid_views + rest),
            }),
        decreases k - i,
    {
        let ghost kv0 = kid_views;
        proof {
            lemma_validate_views_step(rv.children, i as int, lv);
        }
        match validate_node(&raw.children[i], lines) {
            None => {
                proof {
                    assert(validate_view(rv.children[i as int], lv) is None);
                    assert(validate_views(rv.children, i as int, lv) is None);
                    assert(validate_views(rv.children, 0, lv) is None);
                    assert(seq![rv][0] == rv);
                    assert(validate_views(seq![rv], 0, lv) is None);
                }
                return None;
            },
            Some(c) => {
                proof {
                    match validate_view(rv.children[i as int], lv) {
                        Some(vx) => {
                            kid_views = kid_views.push(vx);
                        },
                        None => {
                            assert(false);
                        },
                    }
                }
                children.push(c);
                proof {
                    let vx = kid_views.last();
                    assert(node_matches(c, vx));
                    match validate_views(rv.children, i + 1, lv) {
                        None => {
                            assert(validate_views(rv.children, i as int, lv) is None);
                            assert(validate_views(rv.children, 0, lv) is None);
                        },
                        Some(rest2) => {
                            assert(validate_views(rv.children, i as int, lv) == Some(
                                seq![vx] + rest2,
                            ));
                            assert(kv0 + (seq![vx] + rest2) =~= kid_views + rest2);
                        },
                    }
                }
            },
        }
        i = i + 1;
    }
    proof {
        assert(validate_views(rv.children, k as int, lv) == Some(Seq::<SynView>::empty()));
        assert(kid_views + Seq::<SynView>::empty() =~= kid_views);
        assert(validate_views(rv.children, 0, lv) == Some(kid_views));
    }
    let node = SynNode {
        kind: raw.kind.clone(),
        start_row: raw.start_row,
        start_bcol: raw.start_bcol,
        end_row: raw.end_row,
        end_bcol: raw.end_bcol,
        range,
        children,
    };
    proof {
        assert(syn_wf(node, crate::document::lines_view(lines@)));
        let elem = SynView {
            kind: rv.kind,
            start_row: rv.start_row,
            start_bcol: rv.start_bcol,
            end_row: rv.end_row,
            end_bcol: rv.end_bcol,
            range: raw_cp_range(rv, lv),
            children: kid_views,
        };
        assert(seq![rv][0] == rv);
        assert(validate_views(seq![rv], 1, lv) == Some(Seq::<SynView>::empty()));
        assert(validate_views(seq![rv], 0, lv) == Some(seq![elem] + Seq::<SynView>::empty()));
        assert((seq![elem] + Seq::<SynView>::empty())[0] == elem);
        assert(validate_view(rv, lv) == Some(elem));
        assert(node_matches(node, elem));
    }
    Some(node)
}

/// One rendered line of a chain listing: the region's kind and its span.
pub open spec fn region_line(kind: Seq<char>, range: Range) -> Seq<char> {
    kind + seq![' ', '('] + util::dec_spec(range.beginning.row as nat) + seq![',', ' ']
        + util::dec_spec(range.beginning.column as nat) + seq![')', '-', '('] + util::dec_spec(
        range.ending.row as nat,
    ) + seq![',', ' '] + util::dec_spec(range.ending.column as nat) + seq![')', '\n']
}

/// A chain rendered as one line per region, root first.
pub open spec fn render_spec(regions: Seq<(Seq<char>, Range)>) -> Seq<char>
    decreases regions.len(),
{
    if regions.len() == 0 {
        Seq::<char>::empty()
    } else {
        render_spec(regions.drop_last()) + region_line(regions.last().0, regions.last().1)
    }
}

impl Chain {
    /// Renders the chain for display, one region per line: the kind followed
    /// by the region's start and end, as `kind (row, col)-(row, col)`.
    pub fn render(&self) -> (r: String)
        ensures
            r@ == render_spec(chain_view(*self)),
    {
        let mut out = String::new();
        let n = self.regions.len();
        let mut i: usize = 0;
        proof {
            reveal_strlit(" (");
            reveal_strlit(", ");
            reveal_strlit(")-(");
            reveal_strlit(")\n");
            assert(" ("@ =~= seq![' ', '(']);
            assert(", "@ =~= seq![',', ' ']);
            assert(")-("@ =~= seq![')', '-', '(']);
            assert(")\n"@ =~= seq![')', '\n']);
            assert(out@ =~= render_spec(chain_view(*self).subrange(0, 0)));
        }
        while i < n
            invariant
                0 <= i <= n,
                n == self.regions@.len(),
                " ("@ == seq![' ', '('],
                ", "@ == seq![',', ' '],
                ")-("@ == seq![')', '-', '('],
                ")\n"@ == seq![')', '\n'],
                out@ == render_spec(chain_view(*self).subrange(0, i as int)),
            decreases n - i,
        {
            let rg = self.regions[i].range;
            out.append(self.regions[i].kind.as_str());
            out.append(" (");
            let t1 = util::usize_to_string(rg.beginning.row);
            out.append(t1.as_str());
            out.append(", ");
            let t2 = util::usize_to_string(rg.beginning.column);
            out.append(t2.as_str());
            out.append(")-(");
            let t3 = util::usize_to_string(rg.ending.row);
            out.append(t3.as_str());
            out.append(", ");
            let t4 = util::usize_to_string(rg.ending.column);
            out.append(t4.as_str());
            out.append(")\n");
            proof {
                let cv = chain_view(*self);
                assert(cv.subrange(0, i + 1).drop_last() =~= cv.subrange(0, i as int));
                assert(cv.subrange(0, i + 1).last() == cv[i as int]);
                assert(cv[i as int].0 == self.regions@[i as int].kind@);
                assert(cv[i as int].1 == rg);
                assert(out@ =~= render_spec(cv.subrange(0, i as int)) + region_line(
                    cv[i as int].0,
                    cv[i as int].1,
                ));
                assert(out@ =~= render_spec(cv.subrange(0, i + 1)));
            }
            i = i + 1;
        }
        proof {
            assert(chain_view(*self).subrange(0, n as int) =~= chain_view(*self));
        }
        out
    }
}

/// The header line of one node in a parse-tree listing: the indent, the
/// node's kind, its byte-addressed span, and, when the node sits on a single
/// row, the quoted text it spans.
pub open spec fn pp_header(n: SynNode, ind: Seq<char>, lines: Seq<Seq<char>>) -> Seq<char> {
    ind + n.kind@ + seq![' ', '('] + util::dec_spec(n.start_row as nat) + seq!['.']
        + util::dec_spec(n.start_bcol as nat) + seq![' ', '-', ' '] + util::dec_spec(
        n.end_row as nat,
    ) + seq!['.'] + util::dec_spec(n.end_bcol as nat) + seq![')'] + (if n.range.beginning.row
        == n.range.ending.row {
        seq![' ', '"'] + lines[n.range.beginning.row as int].subrange(
            n.range.beginning.column as int,
            n.range.ending.column as int,
        ) + seq!['"']
    } else {
        Seq::<char>::empty()
    }) + seq!['\n']
}

/// The listing of the nodes `ns[i..]` and their subtrees, children indented
/// three further spaces.
pub open spec fn pp_nodes(ns: Seq<SynNode>, i: int, ind: Seq<char>, lines: Seq<Seq<char>>) -> Seq<
    char,
>
    decreases ns, ns.len() - i,
{
    if i < 0 || i >= ns.len() {
        Seq::<char>::empty()
    } else {
        pp_header(ns[i], ind, lines) + pp_nodes(
            ns[i].children@,
            0,
            ind + seq![' ', ' ', ' '],
            lines,
        ) + pp_nodes(ns, i + 1, ind, lines)
    }
}

/// The full indented listing of a parse tree.
pub open spec fn pp_spec(n: SynNode, ind: Seq<char>, lines: Seq<Seq<char>>) -> Seq<char> {
    pp_header(n, ind, lines) + pp_nodes(n.children@, 0, ind + seq![' ', ' ', ' '], lines)
}

/// Appends the indented listing of `node`'s subtree to `out`.
#[verifier::rlimit(60)]
pub fn render_node(
    node: &SynNode,
    indent: &str,
    lines: &Vec<crate::document::Line>,
    out: &mut String,
)
    requires
        syn_wf(*node, crate::document::lines_view(lines@)),
        forall|i: int| 0 <= i < lines@.len() ==> (#[trigger] lines@[i]).wf(),
    ensures
        final(out)@ == old(out)@ + pp_spec(*node, indent@, crate::document::lines_view(lines@)),
    decreases *node,
{
    let ghost lv = crate::document::lines_view(lines@);
    proof {
        reveal_strlit(" (");
        reveal_strlit(".");
        reveal_strlit(" - ");
        reveal_strlit(")");
        reveal_strlit(" \"");
        reveal_strlit("\"");
        reveal_strlit("\n");
        reveal_strlit("   ");
        assert(" ("@ =~= seq![' ', '(']);
        assert("."@ =~= seq!['.']);
        assert(" - "@ =~= seq![' ', '-', ' ']);
        assert(")"@ =~= seq![')']);
        assert(" \""@ =~= seq![' ', '"']);
        assert("\""@ =~= seq!['"']);
        assert("\n"@ =~= seq!['\n']);
        assert("   "@ =~= seq![' ', ' ', ' ']);
    }
    out.append(indent);
    out.append(node.kind.as_str());
    out.append(" (");
    let t1 = util::usize_to_string(node.start_row);
    out.append(t1.as_str());
    out.append(".");
    let t2 = util::usize_to_string(node.start_bcol);
    out.append(t2.as_str());
    out.append(" - ");
    let t3 = util::usize_to_string(node.end_row);
    out.append(t3.as_str());
    out.append(".");
    let t4 = util::usize_to_string(node.end_bcol);
    out.append(t4.as_str());
    out.append(")");
    if node.range.beginning.row == node.range.ending.row {
        out.append(" \"");
        let row = node.range.beginning.row;
        let cb = node.range.beginning.column;
        let ce = node.range.ending.column;
        out.append(lines[row].content.as_str().substring_char(cb, ce));
        out.append("\"");
    }
    out.append("\n");
    proof {
        assert(out@ =~= old(out)@ + pp_header(*node, indent@, lv));
    }
    let mut deeper = indent.to_owned();
    deeper.append("   ");
    let k = node.children.len();
    let mut i: usize = 0;
    proof {
        assert(deeper@ =~= indent@ + seq![' ', ' ', ' ']);
    }
    while i < k
        invariant
            0 <= i <= k,
            k == node.children@.len(),
            lv == crate::document::lines_view(lines@),
            forall|t: int| 0 <= t < lines@.len() ==> (#[trigger] lines@[t]).wf(),
            deeper@ == indent@ + seq![' ', ' ', ' '],
            syn_wf(*node, lv),
            out@ + pp_nodes(node.children@, i as int, deeper@, lv) == old(out)@ + pp_spec(
                *node,
                indent@,
                lv,
            ),
        decreases k - i,
    {
        let ghost out0 = out@;
        render_node(&node.children[i], deeper.as_str(), lines, out);
        proof {
            let ns = node.children@;
            assert(out@ == out0 + pp_spec(ns[i as int], deeper@, lv));
            assert(pp_nodes(ns, i as int, deeper@, lv) == pp_header(ns[i as int], deeper@, lv)
                + pp_nodes(ns[i as int].children@, 0, deeper@ + seq![' ', ' ', ' '], lv)
                + pp_nodes(ns, i + 1, deeper@, lv));
            assert(pp_spec(ns[i as int], deeper@, lv) == pp_header(ns[i as int], deeper@, lv)
                + pp_nodes(ns[i as int].children@, 0, deeper@ + seq![' ', ' ', ' '], lv));
            assert(out@ + pp_nodes(ns, i + 1, deeper@, lv) =~= out0 + pp_nodes(
                ns,
                i as int,
                deeper@,
                lv,
            ));
        }
        i = i + 1;
    }
    proof {
        assert(pp_nodes(node.children@, k as int, deeper@, lv) =~= Seq::<char>::empty());
        assert(out@ =~= old(out)@ + pp_spec(*node, indent@, lv));
    }
}

} // verus!
