//! The sparse index: a set of enabled coordinates `(row, col)`, each linked to
//! its neighbours along its row (axis 0) and along its column (axis 1).
use vstd::prelude::*;

use crate::collections::{coord_members, id_members, node_entries, CoordSet, IdSet, NodeMap};

verus! {

// ---------------------------------------------------------------------------
// Coordinates and lines
// ---------------------------------------------------------------------------

/// The index of `c` on axis `d`: its row on axis 0, its column on axis 1. All
/// coordinates with the same index on an axis form one line of that axis.
pub open spec fn fixed(d: int, c: (usize, usize)) -> usize {
    if d == 0 {
        c.0
    } else {
        c.1
    }
}

/// The place of `c` along its line of axis `d`: its index on the other axis.
pub open spec fn pos(d: int, c: (usize, usize)) -> usize {
    if d == 0 {
        c.1
    } else {
        c.0
    }
}

/// The coordinate at place `p` of line `f` of axis `d`.
pub open spec fn at(d: int, f: usize, p: usize) -> (usize, usize) {
    if d == 0 {
        (f, p)
    } else {
        (p, f)
    }
}

/// The places taken on line `f` of axis `d`.
pub open spec fn line(dom: Set<(usize, usize)>, d: int, f: usize) -> Set<usize> {
    Set::new(|p: usize| dom.contains(at(d, f, p)))
}

/// `f` is the next place after `a` in `s`, or `None` when there is none.
pub open spec fn succ_ok(s: Set<usize>, a: usize, f: Option<usize>) -> bool {
    match f {
        Some(p) => a < p && s.contains(p) && forall|q: usize| a < q < p ==> !#[trigger] s.contains(q),
        None => forall|q: usize| a < q ==> !#[trigger] s.contains(q),
    }
}

/// `b` is the last place before `a` in `s`, or `None` when there is none.
pub open spec fn pred_ok(s: Set<usize>, a: usize, b: Option<usize>) -> bool {
    match b {
        Some(p) => p < a && s.contains(p) && forall|q: usize| p < q < a ==> !#[trigger] s.contains(q),
        None => forall|q: usize| q < a ==> !#[trigger] s.contains(q),
    }
}

/// `c` is the first place of `s` at or above `lo`, or `None` when there is none.
pub open spec fn first_from(s: Set<usize>, lo: int, c: Option<usize>) -> bool {
    match c {
        Some(p) => lo <= p && s.contains(p) && forall|q: usize| lo <= q < p ==> !#[trigger] s.contains(q),
        None => forall|q: usize| lo <= q ==> !#[trigger] s.contains(q),
    }
}

/// Whether `c` lies on line `index` of axis `dim`.
pub fn lies_on(c: &(usize, usize), dim: usize, index: usize) -> (r: bool)
    requires
        dim < 2,
    ensures
        r == (fixed(dim as int, *c) == index),
{
    if dim == 0 {
        c.0 == index
    } else {
        c.1 == index
    }
}

fn fixed_of(dim: usize, c: (usize, usize)) -> (r: usize)
    requires
        dim < 2,
    ensures
        r == fixed(dim as int, c),
{
    if dim == 0 {
        c.0
    } else {
        c.1
    }
}

fn pos_of(dim: usize, c: (usize, usize)) -> (r: usize)
    requires
        dim < 2,
    ensures
        r == pos(dim as int, c),
{
    if dim == 0 {
        c.1
    } else {
        c.0
    }
}

fn at_of(dim: usize, f: usize, p: usize) -> (r: (usize, usize))
    requires
        dim < 2,
    ensures
        r == at(dim as int, f, p),
{
    if dim == 0 {
        (f, p)
    } else {
        (p, f)
    }
}

// ---------------------------------------------------------------------------
// Nodes and identifiers
// ---------------------------------------------------------------------------

/// The links of an enabled coordinate. On each axis it records its forward
/// and backward neighbour on its line, each by the neighbour's place on that
/// line (its index on the other axis).
#[derive(Debug, Clone, Copy, PartialEq, Eq, Structural)]
pub struct Node {
    pub forward_in_row: Option<usize>,
    pub backward_in_row: Option<usize>,
    pub forward_in_col: Option<usize>,
    pub backward_in_col: Option<usize>,
}

impl Node {
    pub open spec fn forward(self, d: int) -> Option<usize> {
        if d == 0 {
            self.forward_in_row
        } else {
            self.forward_in_col
        }
    }

    pub open spec fn backward(self, d: int) -> Option<usize> {
        if d == 0 {
            self.backward_in_row
        } else {
            self.backward_in_col
        }
    }

    pub open spec fn with_forward(self, d: int, v: Option<usize>) -> Node {
        if d == 0 {
            Node { forward_in_row: v, ..self }
        } else {
            Node { forward_in_col: v, ..self }
        }
    }

    pub open spec fn with_backward(self, d: int, v: Option<usize>) -> Node {
        if d == 0 {
            Node { backward_in_row: v, ..self }
        } else {
            Node { backward_in_col: v, ..self }
        }
    }

    fn forward_neighbor(&self, dim: usize) -> (r: Option<usize>)
        requires
            dim < 2,
        ensures
            r == self.forward(dim as int),
    {
        if dim == 0 {
            self.forward_in_row
        } else {
            self.forward_in_col
        }
    }

    fn backward_neighbor(&self, dim: usize) -> (r: Option<usize>)
        requires
            dim < 2,
        ensures
            r == self.backward(dim as int),
    {
        if dim == 0 {
            self.backward_in_row
        } else {
            self.backward_in_col
        }
    }

    fn set_forward(&mut self, dim: usize, v: Option<usize>)
        requires
            dim < 2,
        ensures
            *final(self) == old(self).with_forward(dim as int, v),
    {
        if dim == 0 {
            self.forward_in_row = v;
        } else {
            self.forward_in_col = v;
        }
    }

    fn set_backward(&mut self, dim: usize, v: Option<usize>)
        requires
            dim < 2,
        ensures
            *final(self) == old(self).with_backward(dim as int, v),
    {
        if dim == 0 {
            self.backward_in_row = v;
        } else {
            self.backward_in_col = v;
        }
    }
}

/// An enabled coordinate: an entity (the row) and a component type (the column).
#[derive(Debug, Clone, Copy, PartialEq, Eq, PartialOrd, Ord, Hash, Structural)]
pub struct NodeId(pub usize, pub usize);

impl View for NodeId {
    type V = (usize, usize);

    open spec fn view(&self) -> (usize, usize) {
        (self.0, self.1)
    }
}

impl NodeId {
    pub fn new(row: usize, col: usize) -> (r: NodeId)
        ensures
            r@ == (row, col),
    {
        NodeId(row, col)
    }

    pub fn row(&self) -> (r: usize)
        ensures
            r == self@.0,
    {
        self.0
    }

    pub fn col(&self) -> (r: usize)
        ensures
            r == self@.1,
    {
        self.1
    }
}

#[derive(Debug, Clone, Copy, PartialEq, Eq, Structural)]
pub enum TableError {
    DimensionOutOfBounds(usize),
    NoEnabledNodeForId(NodeId),
}

// ---------------------------------------------------------------------------
// Lemmas on places along a line
// ---------------------------------------------------------------------------

proof fn lemma_at_parts(d: int, c: (usize, usize))
    requires
        0 <= d < 2,
    ensures
        at(d, fixed(d, c), pos(d, c)) == c,
{
}

/// A coordinate added elsewhere does not change the next place after `a`.
proof fn lemma_succ_insert_other(s: Set<usize>, a: usize, f: Option<usize>, x: usize, b: Option<usize>)
    requires
        s.contains(a),
        !s.contains(x),
        succ_ok(s, a, f),
        pred_ok(s, x, b),
        b != Some(a),
    ensures
        succ_ok(s.insert(x), a, f),
{
    if x > a {
        match b {
            Some(p) => {
                assert(a <= p);
                match f {
                    Some(q) => {
                        if p < q {
                            assert(!s.contains(p));
                        }
                    },
                    None => {},
                }
            },
            None => {
                assert(!s.contains(a));
            },
        }
    }
}

/// A coordinate added elsewhere does not change the last place before `a`.
proof fn lemma_pred_insert_other(s: Set<usize>, a: usize, b: Option<usize>, x: usize, f: Option<usize>)
    requires
        s.contains(a),
        !s.contains(x),
        pred_ok(s, a, b),
        succ_ok(s, x, f),
        f != Some(a),
    ensures
        pred_ok(s.insert(x), a, b),
{
    if x < a {
        match f {
            Some(p) => {
                assert(p <= a);
                match b {
                    Some(q) => {
                        if q < p {
                            assert(!s.contains(p));
                        }
                    },
                    None => {},
                }
            },
            None => {
                assert(!s.contains(a));
            },
        }
    }
}

/// Taking out a place that is not next after `a` does not change what is.
proof fn lemma_succ_remove_other(s: Set<usize>, a: usize, f: Option<usize>, x: usize)
    requires
        succ_ok(s, a, f),
        f != Some(x),
    ensures
        succ_ok(s.remove(x), a, f),
{
}

proof fn lemma_pred_remove_other(s: Set<usize>, a: usize, b: Option<usize>, x: usize)
    requires
        pred_ok(s, a, b),
        b != Some(x),
    ensures
        pred_ok(s.remove(x), a, b),
{
}

/// Taking out the next place after `a` makes the one after it next.
proof fn lemma_succ_remove_next(s: Set<usize>, a: usize, x: usize, fx: Option<usize>)
    requires
        succ_ok(s, a, Some(x)),
        succ_ok(s, x, fx),
    ensures
        succ_ok(s.remove(x), a, fx),
{
}

proof fn lemma_pred_remove_prev(s: Set<usize>, a: usize, x: usize, bx: Option<usize>)
    requires
        pred_ok(s, a, Some(x)),
        pred_ok(s, x, bx),
    ensures
        pred_ok(s.remove(x), a, bx),
{
}

proof fn lemma_line_insert(dom: Set<(usize, usize)>, d: int, k: (usize, usize), f: usize)
    requires
        0 <= d < 2,
    ensures
        line(dom.insert(k), d, f) == if f == fixed(d, k) {
            line(dom, d, f).insert(pos(d, k))
        } else {
            line(dom, d, f)
        },
{
    if f == fixed(d, k) {
        assert(line(dom.insert(k), d, f) =~= line(dom, d, f).insert(pos(d, k)));
    } else {
        assert(line(dom.insert(k), d, f) =~= line(dom, d, f));
    }
}

proof fn lemma_line_remove(dom: Set<(usize, usize)>, d: int, k: (usize, usize), f: usize)
    requires
        0 <= d < 2,
    ensures
        line(dom.remove(k), d, f) == if f == fixed(d, k) {
            line(dom, d, f).remove(pos(d, k))
        } else {
            line(dom, d, f)
        },
{
    if f == fixed(d, k) {
        assert(line(dom.remove(k), d, f) =~= line(dom, d, f).remove(pos(d, k)));
    } else {
        assert(line(dom.remove(k), d, f) =~= line(dom, d, f));
    }
}

// ---------------------------------------------------------------------------
// The table
// ---------------------------------------------------------------------------

/// The links of node `n` at `k` along its line of axis `d` are exactly its
/// neighbours among the enabled coordinates `dom`.
#[verifier::opaque]
pub open spec fn links_ok(dom: Set<(usize, usize)>, k: (usize, usize), n: Node, d: int) -> bool {
    &&& succ_ok(line(dom, d, fixed(d, k)), pos(d, k), n.forward(d))
    &&& pred_ok(line(dom, d, fixed(d, k)), pos(d, k), n.backward(d))
}

/// `h` holds exactly the nodes of `m` without a backward neighbour on axis `d`.
pub open spec fn heads_ok(m: Map<(usize, usize), Node>, h: Set<(usize, usize)>, d: int) -> bool {
    forall|k: (usize, usize)| #[trigger]
        h.contains(k) <==> (m.contains_key(k) && m[k].backward(d) is None)
}

pub open spec fn table_wf(
    m: Map<(usize, usize), Node>,
    h0: Set<(usize, usize)>,
    h1: Set<(usize, usize)>,
) -> bool {
    &&& m.dom().finite()
    &&& forall|k: (usize, usize)| #[trigger]
        m.contains_key(k) ==> links_ok(m.dom(), k, m[k], 0) && links_ok(m.dom(), k, m[k], 1)
    &&& heads_ok(m, h0, 0)
    &&& heads_ok(m, h1, 1)
}

/// The index of enabled coordinates. Each enabled coordinate has a node that
/// links it to its neighbours on its row and on its column; for each axis a
/// head set holds the first coordinate of every line.
#[derive(Debug)]
pub struct Table {
    nodes: NodeMap,
    row_heads: CoordSet,
    col_heads: CoordSet,
}

impl Table {
    /// The node of each enabled coordinate.
    pub closed spec fn nodes_view(&self) -> Map<(usize, usize), Node> {
        node_entries(self.nodes)
    }

    /// The head set of axis `d`.
    pub closed spec fn heads_view(&self, d: int) -> Set<(usize, usize)> {
        if d == 0 {
            coord_members(self.row_heads)
        } else {
            coord_members(self.col_heads)
        }
    }

    /// The enabled coordinates.
    pub open spec fn enabled(&self) -> Set<(usize, usize)> {
        self.nodes_view().dom()
    }

    pub open spec fn wf(&self) -> bool {
        table_wf(self.nodes_view(), self.heads_view(0), self.heads_view(1))
    }

    /// An empty table.
    pub fn new() -> (r: Table)
        ensures
            r.wf(),
            r.enabled() == Set::<(usize, usize)>::empty(),
    {
        let r = Table { nodes: NodeMap::new(), row_heads: CoordSet::new(), col_heads: CoordSet::new() };
        assert(r.nodes_view().dom() =~= Set::<(usize, usize)>::empty());
        r
    }

    /// The number of enabled coordinates.
    pub fn size(&self) -> (r: usize)
        ensures
            r == self.enabled().len(),
    {
        self.nodes.len()
    }

    /// Whether `c` is enabled.
    pub fn is_enabled(&self, c: &NodeId) -> (r: bool)
        ensures
            r == self.enabled().contains(c@),
    {
        self.nodes.contains_key((c.0, c.1))
    }

    fn find_head(&self, dim: usize, index: usize) -> (r: Option<(usize, usize)>)
        requires
            dim < 2,
        ensures
            match r {
                Some(c) => self.heads_view(dim as int).contains(c) && fixed(dim as int, c) == index,
                None => forall|c: (usize, usize)| #[trigger]
                    self.heads_view(dim as int).contains(c) ==> fixed(dim as int, c) != index,
            },
    {
        if dim == 0 {
            self.row_heads.find_on_line(dim, index)
        } else {
            self.col_heads.find_on_line(dim, index)
        }
    }

    fn insert_head(&mut self, dim: usize, c: (usize, usize))
        requires
            dim < 2,
        ensures
            final(self).nodes_view() == old(self).nodes_view(),
            final(self).heads_view(dim as int) == old(self).heads_view(dim as int).insert(c),
            final(self).heads_view(1 - dim) == old(self).heads_view(1 - dim),
    {
        if dim == 0 {
            self.row_heads.insert(c);
        } else {
            self.col_heads.insert(c);
        }
    }

    fn remove_head(&mut self, dim: usize, c: (usize, usize))
        requires
            dim < 2,
        ensures
            final(self).nodes_view() == old(self).nodes_view(),
            final(self).heads_view(dim as int) == old(self).heads_view(dim as int).remove(c),
            final(self).heads_view(1 - dim) == old(self).heads_view(1 - dim),
    {
        if dim == 0 {
            self.row_heads.remove(c);
        } else {
            self.col_heads.remove(c);
        }
    }

    /// Points the forward (or backward) link of the node at `k` on axis `dim` at `v`.
    fn set_link(&mut self, k: (usize, usize), dim: usize, forward: bool, v: Option<usize>)
        requires
            dim < 2,
            old(self).nodes_view().contains_key(k),
        ensures
            final(self).nodes_view() == old(self).nodes_view().insert(
                k,
                if forward {
                    old(self).nodes_view()[k].with_forward(dim as int, v)
                } else {
                    old(self).nodes_view()[k].with_backward(dim as int, v)
                },
            ),
            final(self).heads_view(0) == old(self).heads_view(0),
            final(self).heads_view(1) == old(self).heads_view(1),
    {
        match self.nodes.get(k) {
            Some(node) => {
                let mut node = node;
                if forward {
                    node.set_forward(dim, v);
                } else {
                    node.set_backward(dim, v);
                }
                self.nodes.insert(k, node);
            },
            None => {},
        }
    }

    /// The place of the first enabled coordinate on line `index` of axis
    /// `dim`, found through the head set of that axis.
    fn first_position(&self, dim: usize, index: usize) -> (r: Option<usize>)
        requires
            self.wf(),
            dim < 2,
        ensures
            first_from(line(self.enabled(), dim as int, index), 0, r),
    {
        let ghost m = self.nodes_view();
        let ghost s = line(self.enabled(), dim as int, index);
        let head = self.find_head(dim, index);
        proof {
            match head {
                Some(h) => {
                    lemma_at_parts(dim as int, h);
                    assert(m.contains_key(h));
                    assert(links_ok(m.dom(), h, m[h], dim as int));
                    assert(pred_ok(s, pos(dim as int, h), m[h].backward(dim as int))) by {
                        reveal(links_ok);
                    }
                },
                None => {
                    assert forall|q: usize| 0 <= q implies !#[trigger] s.contains(q) by {
                        if s.contains(q) {
                            lemma_line_has_head(m, self.heads_view(0), self.heads_view(1), dim as int, index, q);
                        }
                    }
                },
            }
        }
        match head {
            Some(h) => Some(pos_of(dim, h)),
            None => None,
        }
    }

    /// The places of the last enabled coordinate before `key` and of the first
    /// one after it on its line of axis `dim`, found by walking the line from
    /// its head.
    fn find_neighbors(&self, dim: usize, key: (usize, usize)) -> (r: Result<
        (Option<usize>, Option<usize>),
        TableError,
    >)
        requires
            self.wf(),
            dim < 2,
            !self.enabled().contains(key),
        ensures
            match r {
                Ok((b, f)) => {
                    &&& pred_ok(line(self.enabled(), dim as int, fixed(dim as int, key)), pos(dim as int, key), b)
                    &&& succ_ok(line(self.enabled(), dim as int, fixed(dim as int, key)), pos(dim as int, key), f)
                },
                Err(_) => false,
            },
    {
        let index = fixed_of(dim, key);
        let p = pos_of(dim, key);
        let ghost m = self.nodes_view();
        let ghost s = line(self.enabled(), dim as int, index);
        assert(!s.contains(p)) by {
            lemma_at_parts(dim as int, key);
        }
        let mut current = self.first_position(dim, index);
        let mut backward: Option<usize> = None;
        while before(current, p)
            invariant
                self.wf(),
                dim < 2,
                m == self.nodes_view(),
                s == line(self.enabled(), dim as int, index),
                !s.contains(p),
                first_from(
                    s,
                    match backward {
                        Some(b) => b + 1,
                        None => 0,
                    },
                    current,
                ),
                match backward {
                    Some(b) => b < p && s.contains(b),
                    None => true,
                },
            decreases
                match current {
                    Some(c) => usize::MAX - c + 1,
                    None => 0,
                },
        {
            let c = current.unwrap();
            let k = at_of(dim, index, c);
            match self.nodes.get(k) {
                Some(node) => {
                    proof {
                        assert(m.contains_key(k));
                        assert(links_ok(m.dom(), k, m[k], dim as int));
                        assert(succ_ok(s, c, m[k].forward(dim as int))) by {
                            reveal(links_ok);
                        }
                    }
                    backward = Some(c);
                    current = node.forward_neighbor(dim);
                },
                None => {
                    return Err(TableError::NoEnabledNodeForId(NodeId(k.0, k.1)));
                },
            }
        }
        Ok((backward, current))
    }

    /// Enables the coordinate `position` (row, then column) and links it into
    /// its row and its column. Enabling an enabled coordinate changes nothing.
    pub fn enable_node(&mut self, position: [usize; 2]) -> (r: Result<NodeId, TableError>)
        requires
            old(self).wf(),
        ensures
            final(self).wf(),
            r == Ok::<NodeId, TableError>(NodeId(position[0], position[1])),
            final(self).enabled() == old(self).enabled().insert((position[0], position[1])),
            old(self).enabled().contains((position[0], position[1])) ==> *final(self) == *old(self),
    {
        let row = position[0];
        let col = position[1];
        let key = (row, col);
        if self.nodes.contains_key(key) {
            assert(self.enabled().insert(key) =~= self.enabled());
            return Ok(NodeId(row, col));
        }
        let (b0, f0) = match self.find_neighbors(0, key) {
            Ok(found) => found,
            Err(e) => return Err(e),
        };
        let (b1, f1) = match self.find_neighbors(1, key) {
            Ok(found) => found,
            Err(e) => return Err(e),
        };
        let ghost m = self.nodes_view();
        let ghost h0 = self.heads_view(0);
        let ghost h1 = self.heads_view(1);
        proof {
            if let Some(p) = b0 {
                assert(line(m.dom(), 0, row).contains(p));
            }
            if let Some(p) = f0 {
                assert(line(m.dom(), 0, row).contains(p));
            }
            if let Some(p) = b1 {
                assert(line(m.dom(), 1, col).contains(p));
            }
            if let Some(p) = f1 {
                assert(line(m.dom(), 1, col).contains(p));
            }
        }
        match b0 {
            Some(p) => self.set_link((row, p), 0, true, Some(col)),
            None => self.insert_head(0, key),
        }
        match f0 {
            Some(p) => {
                self.remove_head(0, (row, p));
                self.set_link((row, p), 0, false, Some(col));
            },
            None => {},
        }
        match b1 {
            Some(p) => self.set_link((p, col), 1, true, Some(row)),
            None => self.insert_head(1, key),
        }
        match f1 {
            Some(p) => {
                self.remove_head(1, (p, col));
                self.set_link((p, col), 1, false, Some(row));
            },
            None => {},
        }
        let node = Node { forward_in_row: f0, backward_in_row: b0, forward_in_col: f1, backward_in_col: b1 };
        self.nodes.insert(key, node);
        proof {
            let m2 = self.nodes_view();
            assert(m2.dom() =~= m.dom().insert(key));
            assert forall|k: (usize, usize)| m.contains_key(k) implies #[trigger] m2[k] == relinked(
                m[k], k, key, b0, f0, b1, f1) by {}
            lemma_enable_axis(m, m2, key, 0, b0, f0, b1, f1);
            lemma_enable_axis(m, m2, key, 1, b0, f0, b1, f1);
            lemma_enable_heads(m, m2, h0, self.heads_view(0), key, 0, b0, f0, b1, f1);
            lemma_enable_heads(m, m2, h1, self.heads_view(1), key, 1, b0, f0, b1, f1);
        }
        Ok(NodeId(row, col))
    }

    /// Splices the node `n` at `key` out of its line of axis `dim`: its
    /// neighbours on that line are linked to each other, and when it was the
    /// head of the line its forward neighbour becomes the head.
    fn unlink_on_axis(&mut self, dim: usize, key: (usize, usize), n: Node)
        requires
            dim < 2,
            match n.forward(dim as int) {
                Some(p) => old(self).nodes_view().contains_key(at(dim as int, fixed(dim as int, key), p)),
                None => true,
            },
            match n.backward(dim as int) {
                Some(p) => old(self).nodes_view().contains_key(at(dim as int, fixed(dim as int, key), p)),
                None => true,
            },
        ensures
            final(self).nodes_view() == ({
                let m = old(self).nodes_view();
                let d = dim as int;
                let m1 = match n.forward(d) {
                    Some(p) => m.insert(at(d, fixed(d, key), p), m[at(d, fixed(d, key), p)].with_backward(d, n.backward(d))),
                    None => m,
                };
                match n.backward(d) {
                    Some(p) => m1.insert(at(d, fixed(d, key), p), m1[at(d, fixed(d, key), p)].with_forward(d, n.forward(d))),
                    None => m1,
                }
            }),
            final(self).heads_view(dim as int) == ({
                let h = old(self).heads_view(dim as int);
                let d = dim as int;
                let h1 = match (n.forward(d), n.backward(d)) {
                    (Some(p), None) => h.insert(at(d, fixed(d, key), p)),
                    _ => h,
                };
                h1.remove(key)
            }),
            final(self).heads_view(1 - dim) == old(self).heads_view(1 - dim),
    {
        let index = fixed_of(dim, key);
        let forward = n.forward_neighbor(dim);
        let backward = n.backward_neighbor(dim);
        match forward {
            Some(p) => {
                let forward_key = at_of(dim, index, p);
                if backward.is_none() {
                    self.insert_head(dim, forward_key);
                }
                self.set_link(forward_key, dim, false, backward);
            },
            None => {},
        }
        match backward {
            Some(p) => {
                let backward_key = at_of(dim, index, p);
                self.set_link(backward_key, dim, true, forward);
            },
            None => {},
        }
        self.remove_head(dim, key);
    }

    /// Disables the coordinate `node_id`, splicing it out of its row and its
    /// column. Fails, changing nothing, when it is not enabled.
    pub fn disable_node(&mut self, node_id: &NodeId) -> (r: Result<NodeId, TableError>)
        requires
            old(self).wf(),
        ensures
            final(self).wf(),
            old(self).enabled().contains(node_id@) ==> {
                &&& r == Ok::<NodeId, TableError>(*node_id)
                &&& final(self).enabled() == old(self).enabled().remove(node_id@)
            },
            !old(self).enabled().contains(node_id@) ==> {
                &&& r == Err::<NodeId, TableError>(TableError::NoEnabledNodeForId(*node_id))
                &&& *final(self) == *old(self)
            },
    {
        let key = (node_id.0, node_id.1);
        let old_node = match self.nodes.get(key) {
            Some(node) => node,
            None => return Err(TableError::NoEnabledNodeForId(*node_id)),
        };
        let ghost m = self.nodes_view();
        let ghost h0 = self.heads_view(0);
        let ghost h1 = self.heads_view(1);
        proof {
            assert(m.contains_key(key));
            assert(links_ok(m.dom(), key, m[key], 0) && links_ok(m.dom(), key, m[key], 1));
            reveal(links_ok);
            if let Some(p) = old_node.forward_in_row {
                assert(line(m.dom(), 0, key.0).contains(p));
            }
            if let Some(p) = old_node.backward_in_row {
                assert(line(m.dom(), 0, key.0).contains(p));
            }
            if let Some(p) = old_node.forward_in_col {
                assert(line(m.dom(), 1, key.1).contains(p));
            }
            if let Some(p) = old_node.backward_in_col {
                assert(line(m.dom(), 1, key.1).contains(p));
            }
        }
        self.unlink_on_axis(0, key, old_node);
        proof {
            if let Some(p) = old_node.forward_in_col {
                assert(self.nodes_view().contains_key((p, key.1)));
            }
            if let Some(p) = old_node.backward_in_col {
                assert(self.nodes_view().contains_key((p, key.1)));
            }
        }
        self.unlink_on_axis(1, key, old_node);
        self.nodes.remove(key);
        proof {
            let m2 = self.nodes_view();
            assert(m2.dom() =~= m.dom().remove(key));
            assert forall|k: (usize, usize)| m.contains_key(k) && k != key implies #[trigger] m2[k] == unlinked(
                m[k], k, key, old_node) by {}
            lemma_disable_axis(m, m2, key, 0);
            lemma_disable_axis(m, m2, key, 1);
            lemma_disable_heads(m, m2, h0, self.heads_view(0), key, 0);
            lemma_disable_heads(m, m2, h1, self.heads_view(1), key, 1);
        }
        Ok(*node_id)
    }
}

/// The node `n2` at `k` once the node `n` at `key` is spliced out of its row
/// and its column.
pub open spec fn unlinked(n2: Node, k: (usize, usize), key: (usize, usize), n: Node) -> Node {
    Node {
        forward_in_row: if k.0 == key.0 && n.backward_in_row == Some(k.1) {
            n.forward_in_row
        } else {
            n2.forward_in_row
        },
        backward_in_row: if k.0 == key.0 && n.forward_in_row == Some(k.1) {
            n.backward_in_row
        } else {
            n2.backward_in_row
        },
        forward_in_col: if k.1 == key.1 && n.backward_in_col == Some(k.0) {
            n.forward_in_col
        } else {
            n2.forward_in_col
        },
        backward_in_col: if k.1 == key.1 && n.forward_in_col == Some(k.0) {
            n.backward_in_col
        } else {
            n2.backward_in_col
        },
    }
}

proof fn lemma_disable_axis(
    m: Map<(usize, usize), Node>,
    m2: Map<(usize, usize), Node>,
    key: (usize, usize),
    d: int,
)
    requires
        0 <= d < 2,
        forall|k: (usize, usize)| #[trigger] m.contains_key(k) ==> links_ok(m.dom(), k, m[k], d),
        m.contains_key(key),
        m2.dom() == m.dom().remove(key),
        forall|k: (usize, usize)| m.contains_key(k) && k != key ==> #[trigger] m2[k] == unlinked(m[k], k, key, m[key]),
    ensures
        forall|k: (usize, usize)| #[trigger] m2.contains_key(k) ==> links_ok(m2.dom(), k, m2[k], d),
{
    reveal(links_ok);
    let n = m[key];
    let x = pos(d, key);
    let s = line(m.dom(), d, fixed(d, key));
    assert(links_ok(m.dom(), key, n, d));
    assert forall|k: (usize, usize)| #[trigger] m2.contains_key(k) implies links_ok(m2.dom(), k, m2[k], d) by {
        lemma_line_remove(m.dom(), d, key, fixed(d, k));
        assert(m.contains_key(k));
        assert(links_ok(m.dom(), k, m[k], d));
        let nk = m[k];
        let a = pos(d, k);
        if fixed(d, k) == fixed(d, key) {
            lemma_at_parts(d, k);
            lemma_at_parts(d, key);
            assert(s.contains(a));
            assert(a != x);
            if n.backward(d) == Some(a) {
                assert(m2[k].forward(d) == n.forward(d));
                lemma_succ_remove_next(s, a, x, n.forward(d));
            } else {
                assert(m2[k].forward(d) == nk.forward(d));
                if nk.forward(d) == Some(x) {
                    lemma_pred_unique(s, x, a, n.backward(d));
                }
                lemma_succ_remove_other(s, a, nk.forward(d), x);
            }
            if n.forward(d) == Some(a) {
                assert(m2[k].backward(d) == n.backward(d));
                lemma_pred_remove_prev(s, a, x, n.backward(d));
            } else {
                assert(m2[k].backward(d) == nk.backward(d));
                if nk.backward(d) == Some(x) {
                    lemma_succ_unique(s, x, a, n.forward(d));
                }
                lemma_pred_remove_other(s, a, nk.backward(d), x);
            }
        } else {
            assert(m2[k].forward(d) == nk.forward(d));
            assert(m2[k].backward(d) == nk.backward(d));
        }
    }
}

/// When `a` comes right before `x`, it is the last place before `x`.
proof fn lemma_pred_unique(s: Set<usize>, x: usize, a: usize, b: Option<usize>)
    requires
        s.contains(a),
        succ_ok(s, a, Some(x)),
        pred_ok(s, x, b),
    ensures
        b == Some(a),
{
    match b {
        Some(p) => {
            if p < a {
                assert(!s.contains(a));
            } else if p > a {
                assert(!s.contains(p));
            }
        },
        None => {
            assert(!s.contains(a));
        },
    }
}

proof fn lemma_succ_unique(s: Set<usize>, x: usize, a: usize, f: Option<usize>)
    requires
        s.contains(a),
        pred_ok(s, a, Some(x)),
        succ_ok(s, x, f),
    ensures
        f == Some(a),
{
    match f {
        Some(p) => {
            if p > a {
                assert(!s.contains(a));
            } else if p < a {
                assert(!s.contains(p));
            }
        },
        None => {
            assert(!s.contains(a));
        },
    }
}

proof fn lemma_disable_heads(
    m: Map<(usize, usize), Node>,
    m2: Map<(usize, usize), Node>,
    h: Set<(usize, usize)>,
    h2: Set<(usize, usize)>,
    key: (usize, usize),
    d: int,
)
    requires
        0 <= d < 2,
        heads_ok(m, h, d),
        forall|k: (usize, usize)| #[trigger] m.contains_key(k) ==> links_ok(m.dom(), k, m[k], d),
        m.contains_key(key),
        m2.dom() == m.dom().remove(key),
        forall|k: (usize, usize)| m.contains_key(k) && k != key ==> #[trigger] m2[k] == unlinked(m[k], k, key, m[key]),
        h2 == ({
            let n = m[key];
            let h1 = match (n.forward(d), n.backward(d)) {
                (Some(p), None) => h.insert(at(d, fixed(d, key), p)),
                _ => h,
            };
            h1.remove(key)
        }),
        match m[key].forward(d) {
            Some(p) => p != pos(d, key) && m.contains_key(at(d, fixed(d, key), p)),
            None => true,
        },
    ensures
        heads_ok(m2, h2, d),
{
    reveal(links_ok);
    let n = m[key];
    let s = line(m.dom(), d, fixed(d, key));
    assert(links_ok(m.dom(), key, n, d));
    if let Some(p) = n.forward(d) {
        let fk = at(d, fixed(d, key), p);
        assert(links_ok(m.dom(), fk, m[fk], d));
        lemma_at_parts(d, key);
        assert(s.contains(pos(d, key)));
        lemma_pred_unique(s, p, pos(d, key), m[fk].backward(d));
    }
    assert forall|k: (usize, usize)| #[trigger] h2.contains(k) <==> (m2.contains_key(k) && m2[k].backward(d) is None) by {
        if k != key && m.contains_key(k) {
            assert(m2[k] == unlinked(m[k], k, key, m[key]));
        }
    }
}

fn before(current: Option<usize>, p: usize) -> (r: bool)
    ensures
        r == match current {
            Some(c) => c < p,
            None => false,
        },
{
    match current {
        Some(c) => c < p,
        None => false,
    }
}

/// The node `n` at `k` once `key` is linked in between the neighbours
/// `b0`/`f0` on its row and `b1`/`f1` on its column.
pub open spec fn relinked(
    n: Node,
    k: (usize, usize),
    key: (usize, usize),
    b0: Option<usize>,
    f0: Option<usize>,
    b1: Option<usize>,
    f1: Option<usize>,
) -> Node {
    Node {
        forward_in_row: if k.0 == key.0 && b0 == Some(k.1) {
            Some(key.1)
        } else {
            n.forward_in_row
        },
        backward_in_row: if k.0 == key.0 && f0 == Some(k.1) {
            Some(key.1)
        } else {
            n.backward_in_row
        },
        forward_in_col: if k.1 == key.1 && b1 == Some(k.0) {
            Some(key.0)
        } else {
            n.forward_in_col
        },
        backward_in_col: if k.1 == key.1 && f1 == Some(k.0) {
            Some(key.0)
        } else {
            n.backward_in_col
        },
    }
}

proof fn lemma_enable_axis(
    m: Map<(usize, usize), Node>,
    m2: Map<(usize, usize), Node>,
    key: (usize, usize),
    d: int,
    b0: Option<usize>,
    f0: Option<usize>,
    b1: Option<usize>,
    f1: Option<usize>,
)
    requires
        0 <= d < 2,
        forall|k: (usize, usize)| #[trigger] m.contains_key(k) ==> links_ok(m.dom(), k, m[k], d),
        !m.contains_key(key),
        pred_ok(line(m.dom(), d, fixed(d, key)), pos(d, key), if d == 0 { b0 } else { b1 }),
        succ_ok(line(m.dom(), d, fixed(d, key)), pos(d, key), if d == 0 { f0 } else { f1 }),
        m2.dom() == m.dom().insert(key),
        m2[key] == (Node { forward_in_row: f0, backward_in_row: b0, forward_in_col: f1, backward_in_col: b1 }),
        forall|k: (usize, usize)| m.contains_key(k) ==> #[trigger] m2[k] == relinked(m[k], k, key, b0, f0, b1, f1),
    ensures
        forall|k: (usize, usize)| #[trigger] m2.contains_key(k) ==> links_ok(m2.dom(), k, m2[k], d),
{
    reveal(links_ok);
    let bd = if d == 0 { b0 } else { b1 };
    let fd = if d == 0 { f0 } else { f1 };
    let x = pos(d, key);
    let s = line(m.dom(), d, fixed(d, key));
    lemma_line_insert(m.dom(), d, key, fixed(d, key));
    assert forall|k: (usize, usize)| #[trigger] m2.contains_key(k) implies links_ok(m2.dom(), k, m2[k], d) by {
        lemma_line_insert(m.dom(), d, key, fixed(d, k));
        if k == key {
        } else {
            assert(m.contains_key(k));
            assert(links_ok(m.dom(), k, m[k], d));
            let n = m[k];
            let a = pos(d, k);
            if fixed(d, k) == fixed(d, key) {
                lemma_at_parts(d, k);
                assert(s.contains(a));
                if bd == Some(a) {
                    assert(m2[k].forward(d) == Some(x));
                } else {
                    assert(m2[k].forward(d) == n.forward(d));
                    lemma_succ_insert_other(s, a, n.forward(d), x, bd);
                }
                if fd == Some(a) {
                    assert(m2[k].backward(d) == Some(x));
                } else {
                    assert(m2[k].backward(d) == n.backward(d));
                    lemma_pred_insert_other(s, a, n.backward(d), x, fd);
                }
            } else {
                assert(m2[k].forward(d) == n.forward(d));
                assert(m2[k].backward(d) == n.backward(d));
            }
        }
    }
}

proof fn lemma_enable_heads(
    m: Map<(usize, usize), Node>,
    m2: Map<(usize, usize), Node>,
    h: Set<(usize, usize)>,
    h2: Set<(usize, usize)>,
    key: (usize, usize),
    d: int,
    b0: Option<usize>,
    f0: Option<usize>,
    b1: Option<usize>,
    f1: Option<usize>,
)
    requires
        0 <= d < 2,
        heads_ok(m, h, d),
        !m.contains_key(key),
        m2.dom() == m.dom().insert(key),
        m2[key] == (Node { forward_in_row: f0, backward_in_row: b0, forward_in_col: f1, backward_in_col: b1 }),
        forall|k: (usize, usize)| m.contains_key(k) ==> #[trigger] m2[k] == relinked(m[k], k, key, b0, f0, b1, f1),
        h2 == ({
            let bd = if d == 0 { b0 } else { b1 };
            let fd = if d == 0 { f0 } else { f1 };
            let h1 = if bd is None { h.insert(key) } else { h };
            match fd {
                Some(p) => h1.remove(at(d, fixed(d, key), p)),
                None => h1,
            }
        }),
        match (if d == 0 { f0 } else { f1 }) {
            Some(p) => p != pos(d, key),
            None => true,
        },
    ensures
        heads_ok(m2, h2, d),
{
    assert forall|k: (usize, usize)| #[trigger] h2.contains(k) <==> (m2.contains_key(k) && m2[k].backward(d) is None) by {
        if k != key && m.contains_key(k) {
            assert(m2[k] == relinked(m[k], k, key, b0, f0, b1, f1));
        }
    }
}


// ---------------------------------------------------------------------------
// Queries
// ---------------------------------------------------------------------------

/// A query along one axis: the lines whose coordinates are returned (`get`),
/// those that must also be present (`with`), and those that must be absent
/// (`without`).
#[derive(Debug)]
pub struct NodeFilter {
    get: IdSet,
    with: IdSet,
    without: IdSet,
}

fn id_set_of(v: &Vec<usize>) -> (r: IdSet)
    ensures
        id_members(r) == v@.to_set(),
{
    let mut set = IdSet::new();
    let mut i: usize = 0;
    while i < v.len()
        invariant
            0 <= i <= v@.len(),
            id_members(set) == v@.subrange(0, i as int).to_set(),
        decreases v@.len() - i,
    {
        proof {
            assert(v@.subrange(0, i + 1) == v@.subrange(0, i as int).push(v@[i as int]));
            v@.subrange(0, i as int).lemma_push_to_set_commute(v@[i as int]);
        }
        set.insert(v[i]);
        i += 1;
    }
    assert(v@.subrange(0, v@.len() as int) == v@);
    set
}

impl NodeFilter {
    pub closed spec fn get_ids(&self) -> Set<usize> {
        id_members(self.get)
    }

    pub closed spec fn with_ids(&self) -> Set<usize> {
        id_members(self.with)
    }

    pub closed spec fn without_ids(&self) -> Set<usize> {
        id_members(self.without)
    }

    pub fn new(get: &Vec<usize>, with: &Vec<usize>, without: &Vec<usize>) -> (r: NodeFilter)
        ensures
            r.get_ids() == get@.to_set(),
            r.with_ids() == with@.to_set(),
            r.without_ids() == without@.to_set(),
    {
        NodeFilter { get: id_set_of(get), with: id_set_of(with), without: id_set_of(without) }
    }
}

/// One row of a query's answer: its place on the queried axis and the
/// enabled coordinates on it that the query returns.
#[derive(Debug)]
pub struct NodeBundle {
    id: usize,
    nodes: CoordSet,
}

impl NodeBundle {
    pub closed spec fn row(&self) -> usize {
        self.id
    }

    pub closed spec fn members(&self) -> Set<(usize, usize)> {
        coord_members(self.nodes)
    }

    pub fn id(&self) -> (r: usize)
        ensures
            r == self.row(),
    {
        self.id
    }

    pub fn contains(&self, node_id: &NodeId) -> (r: bool)
        ensures
            r == self.members().contains(node_id@),
    {
        self.nodes.contains((node_id.0, node_id.1))
    }

    pub fn len(&self) -> (r: usize)
        ensures
            r == self.members().len(),
    {
        self.nodes.len()
    }
}

/// Whether row `r` of a query along axis `dim` is in its answer: some line is
/// asked for, every line of `get` and `with` has a coordinate at `r`, and no
/// line of `without` has.
pub open spec fn accepts(
    dom: Set<(usize, usize)>,
    dim: int,
    get: Set<usize>,
    with: Set<usize>,
    without: Set<usize>,
    r: usize,
) -> bool {
    &&& exists|id: usize| #![auto] get.contains(id) || with.contains(id)
    &&& forall|id: usize| (get.contains(id) || with.contains(id)) ==> #[trigger] dom.contains(at(dim, id, r))
    &&& forall|id: usize| without.contains(id) ==> !#[trigger] dom.contains(at(dim, id, r))
}

/// The enabled coordinates at place `r` on the lines of `get`.
pub open spec fn bundle_of(dom: Set<(usize, usize)>, dim: int, get: Set<usize>, r: usize) -> Set<(usize, usize)> {
    Set::new(|c: (usize, usize)| dom.contains(c) && pos(dim, c) == r && get.contains(fixed(dim, c)))
}

/// `v` is the answer to a query: one bundle for each accepted row, in
/// increasing order of row, each with the returned coordinates on that row.
pub open spec fn query_result(
    dom: Set<(usize, usize)>,
    dim: int,
    get: Set<usize>,
    with: Set<usize>,
    without: Set<usize>,
    v: Seq<NodeBundle>,
) -> bool {
    &&& forall|i: int, j: int| 0 <= i < j < v.len() ==> #[trigger] v[i].row() < #[trigger] v[j].row()
    &&& forall|i: int| 0 <= i < v.len() ==> {
        &&& accepts(dom, dim, get, with, without, #[trigger] v[i].row())
        &&& v[i].members() == bundle_of(dom, dim, get, v[i].row())
    }
    &&& forall|r: usize| accepts(dom, dim, get, with, without, r) ==> exists|i: int| 0 <= i < v.len() && #[trigger] v[i].row() == r
}

fn append_all(v: &mut Vec<usize>, src: &Vec<usize>)
    ensures
        final(v)@ == old(v)@ + src@,
{
    let mut i: usize = 0;
    while i < src.len()
        invariant
            0 <= i <= src@.len(),
            v@ == old(v)@ + src@.subrange(0, i as int),
        decreases src@.len() - i,
    {
        v.push(src[i]);
        i += 1;
        assert(v@ =~= old(v)@ + src@.subrange(0, i as int));
    }
    assert(src@.subrange(0, src@.len() as int) =~= src@);
}

/// The smallest place among the cursors that have one.
fn nearest_position(cursors: &Vec<Option<usize>>) -> (r: Option<usize>)
    ensures
        match r {
            Some(p) => (exists|i: int| 0 <= i < cursors@.len() && cursors@[i] == Some(p)) && forall|i: int|
                0 <= i < cursors@.len() ==> match #[trigger] cursors@[i] {
                    Some(q) => p <= q,
                    None => true,
                },
            None => forall|i: int| 0 <= i < cursors@.len() ==> #[trigger] cursors@[i] is None,
        },
{
    let mut best: Option<usize> = None;
    let mut i: usize = 0;
    while i < cursors.len()
        invariant
            0 <= i <= cursors@.len(),
            match best {
                Some(p) => (exists|j: int| 0 <= j < i && cursors@[j] == Some(p)) && forall|j: int|
                    0 <= j < i ==> match #[trigger] cursors@[j] {
                        Some(q) => p <= q,
                        None => true,
                    },
                None => forall|j: int| 0 <= j < i ==> #[trigger] cursors@[j] is None,
            },
        decreases cursors@.len() - i,
    {
        match cursors[i] {
            Some(q) => {
                match best {
                    Some(p) => {
                        if q < p {
                            best = Some(q);
                        }
                    },
                    None => {
                        best = Some(q);
                    },
                }
            },
            None => {},
        }
        i += 1;
    }
    best
}

/// The lines of a query, `get` first, then `with`, then `without`, accept row
/// `r` exactly when the first `n_required` of them have a coordinate at `r`
/// and the others have none.
proof fn lemma_accepts_entries(
    dom: Set<(usize, usize)>,
    dim: int,
    g: Seq<usize>,
    w: Seq<usize>,
    x: Seq<usize>,
    r: usize,
)
    ensures
        accepts(dom, dim, g.to_set(), w.to_set(), x.to_set(), r) == (g.len() + w.len() > 0 && forall|i: int|
            0 <= i < g.len() + w.len() + x.len() ==> (i < g.len() + w.len()) == dom.contains(
                at(dim, #[trigger] (g + w + x)[i], r),
            )),
{
    let ids = g + w + x;
    let nr = g.len() + w.len();
    let entries = nr > 0 && forall|i: int|
        0 <= i < ids.len() ==> (i < nr) == dom.contains(at(dim, #[trigger] ids[i], r));
    if accepts(dom, dim, g.to_set(), w.to_set(), x.to_set(), r) {
        let id = choose|id: usize| #![auto] g.to_set().contains(id) || w.to_set().contains(id);
        if g.to_set().contains(id) {
            assert(g.contains(id));
        } else {
            assert(w.contains(id));
        }
        assert forall|i: int| 0 <= i < ids.len() implies (i < nr) == dom.contains(at(dim, #[trigger] ids[i], r)) by {
            if i < g.len() {
                assert(ids[i] == g[i]);
                assert(g.to_set().contains(g[i]));
            } else if i < nr {
                assert(ids[i] == w[i - g.len()]);
                assert(w.to_set().contains(w[i - g.len()]));
            } else {
                assert(ids[i] == x[i - nr]);
                assert(x.to_set().contains(x[i - nr]));
            }
        }
    }
    if entries {
        if g.len() > 0 {
            assert(g.to_set().contains(g[0]));
        } else {
            assert(w.to_set().contains(w[0]));
        }
        assert forall|id: usize| (g.to_set().contains(id) || w.to_set().contains(id)) implies #[trigger] dom.contains(
            at(dim, id, r)) by {
            if g.to_set().contains(id) {
                let i = choose|i: int| 0 <= i < g.len() && g[i] == id;
                assert(ids[i] == g[i]);
            } else {
                let i = choose|i: int| 0 <= i < w.len() && w[i] == id;
                assert(ids[g.len() + i] == w[i]);
            }
        }
        assert forall|id: usize| x.to_set().contains(id) implies !#[trigger] dom.contains(at(dim, id, r)) by {
            let i = choose|i: int| 0 <= i < x.len() && x[i] == id;
            assert(ids[nr + i] == x[i]);
        }
    }
}

impl Table {
    /// Answers a query along axis `dim`: walks the lines of every index of
    /// the filter together, in increasing order of place, and keeps each row
    /// at which the lines of `get` and `with` all have a coordinate and those
    /// of `without` have none.
    pub fn get_dimension_at_indices(&self, dim: usize, filter: NodeFilter) -> (r: Result<Vec<NodeBundle>, TableError>)
        requires
            self.wf(),
        ensures
            dim > 1 ==> r == Err::<Vec<NodeBundle>, TableError>(TableError::DimensionOutOfBounds(dim)),
            dim <= 1 ==> match r {
                Ok(v) => query_result(
                    self.enabled(),
                    dim as int,
                    filter.get_ids(),
                    filter.with_ids(),
                    filter.without_ids(),
                    v@,
                ),
                Err(_) => false,
            },
    {
        if dim > 1 {
            return Err(TableError::DimensionOutOfBounds(dim));
        }
        let ghost dom = self.enabled();
        let get_ids = filter.get.to_vec();
        let with_ids = filter.with.to_vec();
        let without_ids = filter.without.to_vec();
        let mut ids: Vec<usize> = Vec::new();
        append_all(&mut ids, &get_ids);
        append_all(&mut ids, &with_ids);
        append_all(&mut ids, &without_ids);
        assert(ids@ =~= get_ids@ + with_ids@ + without_ids@);
        let n_get = get_ids.len();
        let n_required = ids.len() - without_ids.len();
        let ghost g = get_ids@;
        let ghost w = with_ids@;
        let ghost x = without_ids@;
        assert(ids@.subrange(0, n_get as int) =~= g);

        let mut cursors: Vec<Option<usize>> = Vec::new();
        let mut i: usize = 0;
        while i < ids.len()
            invariant
                self.wf(),
                dim < 2,
                dom == self.enabled(),
                0 <= i <= ids@.len(),
                cursors@.len() == i,
                forall|j: int| 0 <= j < i ==> first_from(line(dom, dim as int, ids@[j]), 0, #[trigger] cursors@[j]),
            decreases ids@.len() - i,
        {
            let c = self.first_position(dim, ids[i]);
            cursors.push(c);
            i += 1;
        }

        let mut node_bundles: Vec<NodeBundle> = Vec::new();
        let ghost mut lo: int = 0;
        loop
            invariant
                self.wf(),
                dim < 2,
                dom == self.enabled(),
                ids@ == g + w + x,
                n_get == g.len(),
                n_required == g.len() + w.len(),
                ids@.subrange(0, n_get as int) == g,
                0 <= lo <= usize::MAX + 1,
                cursors@.len() == ids@.len(),
                forall|j: int| 0 <= j < ids@.len() ==> first_from(line(dom, dim as int, ids@[j]), lo, #[trigger] cursors@[j]),
                forall|a: int, b: int| 0 <= a < b < node_bundles@.len() ==> #[trigger] node_bundles@[a].row() < #[trigger] node_bundles@[b].row(),
                forall|a: int| 0 <= a < node_bundles@.len() ==> {
                    &&& #[trigger] node_bundles@[a].row() < lo
                    &&& accepts(dom, dim as int, g.to_set(), w.to_set(), x.to_set(), node_bundles@[a].row())
                    &&& node_bundles@[a].members() == bundle_of(dom, dim as int, g.to_set(), node_bundles@[a].row())
                },
                forall|row: usize| row < lo && accepts(dom, dim as int, g.to_set(), w.to_set(), x.to_set(), row) ==> exists|a: int|
                    0 <= a < node_bundles@.len() && #[trigger] node_bundles@[a].row() == row,
            ensures
                forall|row: usize| accepts(dom, dim as int, g.to_set(), w.to_set(), x.to_set(), row) ==> exists|a: int|
                    0 <= a < node_bundles@.len() && #[trigger] node_bundles@[a].row() == row,
            decreases usize::MAX + 1 - lo,
        {
            let nearest = nearest_position(&cursors);
            let r = match nearest {
                Some(r) => r,
                None => {
                    proof {
                        assert forall|row: usize| accepts(dom, dim as int, g.to_set(), w.to_set(), x.to_set(), row) implies exists|a: int|
                            0 <= a < node_bundles@.len() && #[trigger] node_bundles@[a].row() == row by {
                            if row >= lo {
                                lemma_accepts_entries(dom, dim as int, g, w, x, row);
                                let j: int = 0;
                                assert(first_from(line(dom, dim as int, ids@[j]), lo, cursors@[j]));
                                assert(line(dom, dim as int, ids@[j]).contains(row));
                            }
                        }
                    }
                    break;
                },
            };
            proof {
                let j = choose|j: int| 0 <= j < cursors@.len() && cursors@[j] == Some(r);
                assert(first_from(line(dom, dim as int, ids@[j]), lo, cursors@[j]));
            }
            let ghost before_cursors = cursors@;
            let mut accept: bool = n_required > 0;
            let mut bundle_nodes = CoordSet::new();
            let mut i: usize = 0;
            while i < ids.len()
                invariant
                    self.wf(),
                    dim < 2,
                    dom == self.enabled(),
                    ids@ == g + w + x,
                    n_get == g.len(),
                    n_required == g.len() + w.len(),
                    lo <= r,
                    0 <= i <= ids@.len(),
                    cursors@.len() == ids@.len(),
                    before_cursors.len() == ids@.len(),
                    forall|j: int| 0 <= j < ids@.len() ==> first_from(line(dom, dim as int, ids@[j]), lo, #[trigger] before_cursors[j]),
                    forall|j: int| 0 <= j < ids@.len() ==> match #[trigger] before_cursors[j] {
                        Some(q) => r <= q,
                        None => true,
                    },
                    forall|j: int| i <= j < ids@.len() ==> #[trigger] cursors@[j] == before_cursors[j],
                    forall|j: int| 0 <= j < i ==> first_from(line(dom, dim as int, ids@[j]), r + 1, #[trigger] cursors@[j]),
                    accept == (n_required > 0 && forall|j: int| 0 <= j < i ==> (j < n_required) == dom.contains(at(dim as int, #[trigger] ids@[j], r))),
                    coord_members(bundle_nodes) == bundle_of(dom, dim as int, ids@.subrange(0, if i < n_get { i as int } else { n_get as int }).to_set(), r),
                decreases ids@.len() - i,
            {
                let ghost s = line(dom, dim as int, ids@[i as int]);
                let here = match cursors[i] {
                    Some(p) => p == r,
                    None => false,
                };
                proof {
                    lemma_at_parts(dim as int, at(dim as int, ids@[i as int], r));
                    assert(here == s.contains(r));
                    assert(s.contains(r) == dom.contains(at(dim as int, ids@[i as int], r)));
                }
                if (i < n_required) != here {
                    accept = false;
                }
                let ghost prefix = ids@.subrange(0, if i < n_get { i as int } else { n_get as int });
                if here {
                    let k = at_of(dim, ids[i], r);
                    if i < n_get {
                        bundle_nodes.insert(k);
                    }
                    match self.nodes.get(k) {
                        Some(node) => {
                            proof {
                                assert(self.nodes_view().contains_key(k));
                                assert(links_ok(dom, k, self.nodes_view()[k], dim as int));
                                lemma_at_parts(dim as int, k);
                                assert(succ_ok(s, r, node.forward(dim as int))) by {
                                    reveal(links_ok);
                                }
                            }
                            cursors.set(i, node.forward_neighbor(dim));
                        },
                        None => {
                            return Err(TableError::NoEnabledNodeForId(NodeId(k.0, k.1)));
                        },
                    }
                }
                proof {
                    let next = ids@.subrange(0, if i + 1 < n_get { i + 1 } else { n_get as int });
                    if i < n_get {
                        assert(next == prefix.push(ids@[i as int]));
                        prefix.lemma_push_to_set_commute(ids@[i as int]);
                        assert(coord_members(bundle_nodes) =~= bundle_of(dom, dim as int, next.to_set(), r));
                    } else {
                        assert(next == prefix);
                    }
                }
                i += 1;
            }
            proof {
                lemma_accepts_entries(dom, dim as int, g, w, x, r);
                assert(ids@.subrange(0, n_get as int) == g);
            }
            let ghost old_bundles = node_bundles@;
            if accept {
                node_bundles.push(NodeBundle { id: r, nodes: bundle_nodes });
            }
            proof {
                assert forall|row: usize| row < r + 1 && accepts(dom, dim as int, g.to_set(), w.to_set(), x.to_set(), row) implies exists|a: int|
                    0 <= a < node_bundles@.len() && #[trigger] node_bundles@[a].row() == row by {
                    if row < lo {
                        let a = choose|a: int| 0 <= a < old_bundles.len() && #[trigger] old_bundles[a].row() == row;
                        assert(node_bundles@[a] == old_bundles[a]);
                    } else if row < r {
                        lemma_accepts_entries(dom, dim as int, g, w, x, row);
                        let j: int = 0;
                        assert(first_from(line(dom, dim as int, ids@[j]), lo, before_cursors[j]));
                        assert(line(dom, dim as int, ids@[j]).contains(row));
                    } else {
                        assert(node_bundles@[old_bundles.len() as int].row() == r);
                    }
                }
                lo = r + 1;
            }
        }
        Ok(node_bundles)
    }
}

impl Default for Table {
    fn default() -> (r: Table)
        ensures
            r.wf(),
            r.enabled() == Set::<(usize, usize)>::empty(),
    {
        Table::new()
    }
}

/// Every line that holds an enabled coordinate has a head.
proof fn lemma_line_has_head(
    m: Map<(usize, usize), Node>,
    h0: Set<(usize, usize)>,
    h1: Set<(usize, usize)>,
    d: int,
    f: usize,
    q: usize,
)
    requires
        table_wf(m, h0, h1),
        0 <= d < 2,
        m.contains_key(at(d, f, q)),
    ensures
        exists|c: (usize, usize)| (if d == 0 { h0 } else { h1 }).contains(c) && fixed(d, c) == f,
    decreases q,
{
    reveal(links_ok);
    let k = at(d, f, q);
    assert(links_ok(m.dom(), k, m[k], d));
    match m[k].backward(d) {
        Some(b) => {
            assert(line(m.dom(), d, f).contains(b));
            lemma_line_has_head(m, h0, h1, d, f, b);
        },
        None => {
            if d == 0 {
                assert(h0.contains(k));
            } else {
                assert(h1.contains(k));
            }
        },
    }
}

// ---------------------------------------------------------------------------
// Laws
// ---------------------------------------------------------------------------

proof fn lemma_succ_same(s: Set<usize>, a: usize, f1: Option<usize>, f2: Option<usize>)
    requires
        succ_ok(s, a, f1),
        succ_ok(s, a, f2),
    ensures
        f1 == f2,
{
    match (f1, f2) {
        (Some(p), Some(q)) => {
            if p < q {
                assert(!s.contains(p));
            } else if q < p {
                assert(!s.contains(q));
            }
        },
        (Some(p), None) => {
            assert(!s.contains(p));
        },
        (None, Some(q)) => {
            assert(!s.contains(q));
        },
        (None, None) => {},
    }
}

proof fn lemma_pred_same(s: Set<usize>, a: usize, b1: Option<usize>, b2: Option<usize>)
    requires
        pred_ok(s, a, b1),
        pred_ok(s, a, b2),
    ensures
        b1 == b2,
{
    match (b1, b2) {
        (Some(p), Some(q)) => {
            if p < q {
                assert(!s.contains(q));
            } else if q < p {
                assert(!s.contains(p));
            }
        },
        (Some(p), None) => {
            assert(!s.contains(p));
        },
        (None, Some(q)) => {
            assert(!s.contains(q));
        },
        (None, None) => {},
    }
}

/// The structure of a table is fixed by the set of enabled coordinates: two
/// well-formed tables that enable the same coordinates have the same nodes,
/// with the same links, and the same head sets.
pub proof fn lemma_table_canonical(t1: Table, t2: Table)
    requires
        t1.wf(),
        t2.wf(),
        t1.enabled() == t2.enabled(),
    ensures
        t1.nodes_view() == t2.nodes_view(),
        t1.heads_view(0) == t2.heads_view(0),
        t1.heads_view(1) == t2.heads_view(1),
{
    reveal(links_ok);
    let m1 = t1.nodes_view();
    let m2 = t2.nodes_view();
    assert forall|k: (usize, usize)| m1.contains_key(k) implies #[trigger] m1[k] == m2[k] by {
        assert(m2.contains_key(k));
        assert(links_ok(m1.dom(), k, m1[k], 0) && links_ok(m1.dom(), k, m1[k], 1));
        assert(links_ok(m2.dom(), k, m2[k], 0) && links_ok(m2.dom(), k, m2[k], 1));
        lemma_succ_same(line(m1.dom(), 0, k.0), k.1, m1[k].forward(0), m2[k].forward(0));
        lemma_pred_same(line(m1.dom(), 0, k.0), k.1, m1[k].backward(0), m2[k].backward(0));
        lemma_succ_same(line(m1.dom(), 1, k.1), k.0, m1[k].forward(1), m2[k].forward(1));
        lemma_pred_same(line(m1.dom(), 1, k.1), k.0, m1[k].backward(1), m2[k].backward(1));
    }
    assert(m1 =~= m2);
    assert(t1.heads_view(0) =~= t2.heads_view(0));
    assert(t1.heads_view(1) =~= t2.heads_view(1));
}

/// Enabling a coordinate that is already enabled leaves the table as it was:
/// a second `enable_node` of the same coordinate has the table of the first.
pub proof fn lemma_enable_idempotent(once: Table, twice: Table, c: (usize, usize))
    requires
        once.wf(),
        twice.wf(),
        once.enabled().contains(c),
        twice.enabled() == once.enabled().insert(c),
    ensures
        twice.nodes_view() == once.nodes_view(),
        twice.heads_view(0) == once.heads_view(0),
        twice.heads_view(1) == once.heads_view(1),
{
    assert(once.enabled().insert(c) =~= once.enabled());
    lemma_table_canonical(once, twice);
}

/// In a well-formed table every link leads to an enabled coordinate further
/// along the same line (so no chain has a cycle), and following a link and
/// then the opposite link of the coordinate reached leads back.
pub proof fn lemma_links_round_trip(t: Table, k: (usize, usize), d: int)
    requires
        t.wf(),
        0 <= d < 2,
        t.enabled().contains(k),
    ensures
        match t.nodes_view()[k].forward(d) {
            Some(p) => {
                &&& pos(d, k) < p
                &&& t.enabled().contains(at(d, fixed(d, k), p))
                &&& t.nodes_view()[at(d, fixed(d, k), p)].backward(d) == Some(pos(d, k))
            },
            None => true,
        },
        match t.nodes_view()[k].backward(d) {
            Some(p) => {
                &&& p < pos(d, k)
                &&& t.enabled().contains(at(d, fixed(d, k), p))
                &&& t.nodes_view()[at(d, fixed(d, k), p)].forward(d) == Some(pos(d, k))
            },
            None => true,
        },
{
    let m = t.nodes_view();
    let s = line(m.dom(), d, fixed(d, k));
    assert(m.contains_key(k));
    assert(links_ok(m.dom(), k, m[k], d));
    assert(succ_ok(s, pos(d, k), m[k].forward(d)) && pred_ok(s, pos(d, k), m[k].backward(d))) by {
        reveal(links_ok);
    }
    lemma_at_parts(d, k);
    assert(s.contains(pos(d, k)));
    if let Some(p) = m[k].forward(d) {
        let f = at(d, fixed(d, k), p);
        assert(m.contains_key(f));
        assert(links_ok(m.dom(), f, m[f], d));
        lemma_at_parts(d, f);
        assert(pred_ok(s, p, m[f].backward(d))) by {
            reveal(links_ok);
        }
        lemma_pred_unique(s, p, pos(d, k), m[f].backward(d));
    }
    if let Some(p) = m[k].backward(d) {
        let b = at(d, fixed(d, k), p);
        assert(m.contains_key(b));
        assert(links_ok(m.dom(), b, m[b], d));
        lemma_at_parts(d, b);
        assert(succ_ok(s, p, m[b].forward(d))) by {
            reveal(links_ok);
        }
        lemma_succ_unique(s, p, pos(d, k), m[b].forward(d));
    }
}

/// `k` is reached from `h` by following `n` forward links on axis `d`.
pub open spec fn walks_to(m: Map<(usize, usize), Node>, d: int, h: (usize, usize), k: (usize, usize), n: nat) -> bool
    decreases n,
{
    if n == 0 {
        h == k
    } else {
        &&& m.contains_key(h)
        &&& match m[h].forward(d) {
            Some(p) => walks_to(m, d, at(d, fixed(d, h), p), k, (n - 1) as nat),
            None => false,
        }
    }
}

proof fn lemma_walk_stays_enabled(m: Map<(usize, usize), Node>, d: int, h: (usize, usize), k: (usize, usize), n: nat)
    requires
        0 <= d < 2,
        forall|c: (usize, usize)| #[trigger] m.contains_key(c) ==> links_ok(m.dom(), c, m[c], d),
        m.contains_key(h),
        walks_to(m, d, h, k, n),
    ensures
        m.contains_key(k),
    decreases n,
{
    if n > 0 {
        reveal(links_ok);
        assert(links_ok(m.dom(), h, m[h], d));
        let p = m[h].forward(d)->0;
        assert(line(m.dom(), d, fixed(d, h)).contains(p));
        lemma_walk_stays_enabled(m, d, at(d, fixed(d, h), p), k, (n - 1) as nat);
    }
}

proof fn lemma_walk_extend(
    m: Map<(usize, usize), Node>,
    d: int,
    h: (usize, usize),
    kb: (usize, usize),
    k: (usize, usize),
    n: nat,
)
    requires
        0 <= d < 2,
        walks_to(m, d, h, kb, n),
        m.contains_key(kb),
        m[kb].forward(d) == Some(pos(d, k)),
        fixed(d, k) == fixed(d, kb),
    ensures
        walks_to(m, d, h, k, n + 1),
    decreases n,
{
    if n == 0 {
        lemma_at_parts(d, k);
        assert(walks_to(m, d, at(d, fixed(d, kb), pos(d, k)), k, 0));
    } else {
        let p = m[h].forward(d)->0;
        lemma_walk_extend(m, d, at(d, fixed(d, h), p), kb, k, (n - 1) as nat);
    }
}

proof fn lemma_reached_from_head(t: Table, d: int, k: (usize, usize))
    requires
        t.wf(),
        0 <= d < 2,
        t.enabled().contains(k),
    ensures
        exists|h: (usize, usize), n: nat| t.heads_view(d).contains(h) && walks_to(t.nodes_view(), d, h, k, n),
    decreases pos(d, k),
{
    let m = t.nodes_view();
    lemma_links_round_trip(t, k, d);
    match m[k].backward(d) {
        None => {
            assert(t.heads_view(d).contains(k));
            assert(walks_to(m, d, k, k, 0));
        },
        Some(b) => {
            let kb = at(d, fixed(d, k), b);
            lemma_reached_from_head(t, d, kb);
            let (h, n) = choose|h: (usize, usize), n: nat| t.heads_view(d).contains(h) && walks_to(m, d, h, kb, n);
            lemma_walk_extend(m, d, h, kb, k, n);
        },
    }
}

/// Walking forward from the heads of an axis visits exactly the enabled
/// coordinates.
pub proof fn lemma_head_walks_cover(t: Table, d: int, k: (usize, usize))
    requires
        t.wf(),
        0 <= d < 2,
    ensures
        t.enabled().contains(k) <==> exists|h: (usize, usize), n: nat|
            t.heads_view(d).contains(h) && walks_to(t.nodes_view(), d, h, k, n),
{
    if t.enabled().contains(k) {
        lemma_reached_from_head(t, d, k);
    }
    if exists|h: (usize, usize), n: nat| t.heads_view(d).contains(h) && walks_to(t.nodes_view(), d, h, k, n) {
        let (h, n) = choose|h: (usize, usize), n: nat| t.heads_view(d).contains(h) && walks_to(t.nodes_view(), d, h, k, n);
        lemma_walk_stays_enabled(t.nodes_view(), d, h, k, n);
    }
}

} // verus!
