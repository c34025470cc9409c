//! A graph of weighted connections between nodes.
//!
//! Each node carries a payload and a list of outgoing edges, each with
//! the probability of moving along it.  The graph compiles itself into
//! a square transition matrix whose column for a node is that node's
//! outgoing distribution, and ranks its nodes by the steady state of
//! the damped walk over that matrix.

use crate::matrix::{
    basis_vector_exact, candidate_accepted, col_seq, free_cols, gauss_jordan, is_col_stochastic,
    is_fixed_point, shifted_fits, shifted_grid, Matrix,
};
use crate::rational::{
    add_d, add_n, lemma_frac_to_frac, lemma_pos_prod, lemma_rat_eq_trans, lemma_rat_order_trans,
    lemma_rat_ext, mul_d, mul_n, norm_fits, norm_rat, rat_eq, rat_eq_frac, rat_lt, Rat,
};
use crate::vector::{is_prob_dist, sum_d, sum_fits, sum_n, vec_wf, Probability, Vector};
use crate::RankError;
use vstd::prelude::*;

verus! {

/// A stable handle to a node of a connection graph: its insertion
/// index.
#[derive(Clone, Copy, Debug, PartialEq, Eq, Structural)]
pub struct GraphKey {
    idx: usize,
}

impl GraphKey {
    /// The insertion index the handle names.
    pub closed spec fn spec_idx(self) -> int {
        self.idx as int
    }

    /// The insertion index the handle names.
    pub fn index(&self) -> (r: usize)
        ensures
            r == self.spec_idx(),
    {
        self.idx
    }
}

/// A node of the graph: a payload and the weighted outgoing edges.
pub struct Node<ITEM> {
    item: ITEM,
    connections: Vec<(GraphKey, Rat)>,
}

/// The weight of the last recorded edge towards `t`, if any; a later
/// edge to the same target overrides an earlier one.
pub open spec fn last_edge(es: Seq<(GraphKey, Rat)>, t: int) -> Option<Rat>
    decreases es.len(),
{
    if es.len() == 0 {
        None
    } else if es.last().0.spec_idx() == t {
        Some(es.last().1)
    } else {
        last_edge(es.drop_last(), t)
    }
}

/// A graph holding connected nodes, addressed by stable handles.
pub struct ConnectionGraph<ITEM> {
    nodes: Vec<Node<ITEM>>,
}

impl<ITEM: core::default::Default> ConnectionGraph<ITEM> {
    /// Registers a new empty node and returns its stable handle.
    pub fn register(&mut self) -> (r: GraphKey)
        ensures
            final(self).spec_len() == old(self).spec_len() + 1,
            r.spec_idx() == old(self).spec_len(),
            final(self).spec_edges(r.spec_idx()).len() == 0,
            forall|i: int|
                0 <= i < old(self).spec_len() ==> #[trigger] final(self).spec_edges(i) == old(self).spec_edges(i),
            forall|i: int|
                0 <= i < old(self).spec_len() ==> #[trigger] final(self).spec_item(i) == old(self).spec_item(i),
            old(self).wf() ==> final(self).wf(),
    {
        let idx = self.nodes.len();
        self.nodes.push(Node { item: ITEM::default(), connections: Vec::new() });
        proof {
            if old(self).wf() {
                assert forall|i: int, e: int|
                    0 <= i < self.spec_len() && 0 <= e < self.spec_edges(i).len() implies {
                    &&& (#[trigger] self.spec_edges(i)[e]).0.spec_idx() < self.spec_len()
                    &&& self.spec_edges(i)[e].1.wf()
                } by {
                    if i < old(self).spec_len() {
                        assert(self.spec_edges(i) == old(self).spec_edges(i));
                    }
                }
            }
        }
        GraphKey { idx }
    }
}

impl<ITEM> ConnectionGraph<ITEM> {
    /// The number of registered nodes.
    pub closed spec fn spec_len(self) -> int {
        self.nodes@.len() as int
    }

    /// The payload of node `i`.
    pub closed spec fn spec_item(self, i: int) -> ITEM {
        self.nodes@[i].item
    }

    /// The outgoing edges of node `i`, in insertion order.
    pub closed spec fn spec_edges(self, i: int) -> Seq<(GraphKey, Rat)> {
        self.nodes@[i].connections@
    }

    /// Every edge aims at a registered node and has a well-formed
    /// weight.
    pub open spec fn wf(self) -> bool {
        forall|i: int, e: int|
            0 <= i < self.spec_len() && 0 <= e < self.spec_edges(i).len() ==> {
                &&& (#[trigger] self.spec_edges(i)[e]).0.spec_idx() < self.spec_len()
                &&& self.spec_edges(i)[e].1.wf()
            }
    }

    /// An empty graph.
    pub fn new() -> (r: ConnectionGraph<ITEM>)
        ensures
            r.spec_len() == 0,
            r.wf(),
    {
        ConnectionGraph { nodes: Vec::new() }
    }

    /// The number of registered nodes.
    pub fn len(&self) -> (r: usize)
        ensures
            r == self.spec_len(),
    {
        self.nodes.len()
    }

    /// The handle of the node registered at position `i`.
    pub fn key_for(&self, i: usize) -> (r: GraphKey)
        requires
            i < self.spec_len(),
        ensures
            r.spec_idx() == i,
    {
        GraphKey { idx: i }
    }

    /// Assigns a payload to a registered node.
    pub fn set_val(&mut self, node: GraphKey, val: ITEM)
        requires
            0 <= node.spec_idx() < old(self).spec_len(),
        ensures
            final(self).spec_len() == old(self).spec_len(),
            final(self).spec_item(node.spec_idx()) == val,
            forall|i: int|
                0 <= i < old(self).spec_len() ==> #[trigger] final(self).spec_edges(i) == old(self).spec_edges(i),
            forall|i: int|
                0 <= i < old(self).spec_len() && i != node.spec_idx()
                    ==> #[trigger] final(self).spec_item(i) == old(self).spec_item(i),
            old(self).wf() ==> final(self).wf(),
    {
        self.nodes[node.idx].item = val;
        proof {
            if old(self).wf() {
                assert forall|i: int, e: int|
                    0 <= i < self.spec_len() && 0 <= e < self.spec_edges(i).len() implies {
                    &&& (#[trigger] self.spec_edges(i)[e]).0.spec_idx() < self.spec_len()
                    &&& self.spec_edges(i)[e].1.wf()
                } by {
                    assert(self.spec_edges(i) == old(self).spec_edges(i));
                }
            }
        }
    }

    /// Reads the payload of a registered node.
    pub fn get_val(&self, node: GraphKey) -> (r: &ITEM)
        requires
            0 <= node.spec_idx() < self.spec_len(),
        ensures
            *r == self.spec_item(node.spec_idx()),
    {
        &self.nodes[node.idx].item
    }

    /// Appends an edge from one registered node to another with the
    /// given probability weight.  No validation happens here; the
    /// weights are checked when the graph becomes a stochastic matrix.
    pub fn connect(&mut self, from: GraphKey, to: GraphKey, prob: Rat)
        requires
            0 <= from.spec_idx() < old(self).spec_len(),
            0 <= to.spec_idx() < old(self).spec_len(),
            prob.wf(),
        ensures
            final(self).spec_len() == old(self).spec_len(),
            final(self).spec_edges(from.spec_idx())
                == old(self).spec_edges(from.spec_idx()).push((to, prob)),
            forall|i: int|
                0 <= i < old(self).spec_len() && i != from.spec_idx()
                    ==> #[trigger] final(self).spec_edges(i) == old(self).spec_edges(i),
            forall|i: int|
                0 <= i < old(self).spec_len()
                    ==> #[trigger] final(self).spec_item(i) == old(self).spec_item(i),
            old(self).wf() ==> final(self).wf(),
    {
        self.nodes[from.idx].connections.push((to, prob));
        proof {
            if old(self).wf() {
                assert forall|i: int, e: int|
                    0 <= i < self.spec_len() && 0 <= e < self.spec_edges(i).len() implies {
                    &&& (#[trigger] self.spec_edges(i)[e]).0.spec_idx() < self.spec_len()
                    &&& self.spec_edges(i)[e].1.wf()
                } by {
                    if i != from.spec_idx() {
                        assert(self.spec_edges(i) == old(self).spec_edges(i));
                    } else {
                        assert(self.spec_edges(i)
                            == old(self).spec_edges(from.spec_idx()).push((to, prob)));
                        if e < old(self).spec_edges(from.spec_idx()).len() {
                            assert(self.spec_edges(i)[e]
                                == old(self).spec_edges(from.spec_idx())[e]);
                        } else {
                            assert(self.spec_edges(i)[e] == (to, prob));
                        }
                    }
                }
            }
        }
    }

    /// The raw transition grid of the graph, entry by entry: entry
    /// (target, source) holds the last recorded edge weight from
    /// source to target, the reduced zero elsewhere.
    pub open spec fn raw_grid(self, size: int) -> Seq<Seq<Rat>> {
        Seq::new(
            size as nat,
            |t: int|
                Seq::new(
                    size as nat,
                    |s: int|
                        if 0 <= s < self.spec_len() {
                            match last_edge(self.spec_edges(s), t) {
                                Some(p) => p,
                                None => norm_rat(0, 1),
                            }
                        } else {
                            norm_rat(0, 1)
                        },
                ),
        )
    }

    /// Does `raw` hold, in entry (target, source), the weight of the
    /// last recorded edge from `source` to `target`, with zeros for
    /// absent edges and for slots beyond the registered nodes?
    pub open spec fn is_matrix_rep(self, size: int, raw: Seq<Seq<Rat>>) -> bool {
        &&& raw.len() == size
        &&& forall|t: int| 0 <= t < size ==> (#[trigger] raw[t]).len() == size
        &&& forall|t: int, s: int|
            0 <= t < size && 0 <= s < size ==> {
                if 0 <= s < self.spec_len() {
                    match last_edge(self.spec_edges(s), t) {
                        Some(p) => (#[trigger] raw[t][s]) == p,
                        None => raw[t][s].n() == 0 && raw[t][s].d() == 1,
                    }
                } else {
                    (#[trigger] raw[t][s]).n() == 0 && raw[t][s].d() == 1
                }
            }
    }

    /// Compiles the graph into its `size` by `size` transition matrix:
    /// the column of a node holds its outgoing weights.  Fails with
    /// `CapacityExceeded` exactly when more nodes are registered than
    /// the requested size can hold.
    pub fn matrix_representation(&self, size: usize) -> (r: Result<Matrix, RankError>)
        requires
            self.wf(),
        ensures
            r is Err <==> self.spec_len() > size,
            r is Err ==> r == Err::<Matrix, RankError>(RankError::CapacityExceeded),
            r matches Ok(m) ==> {
                &&& m@.len() == size
                &&& m.spec_cols() == size
                &&& m.wf()
                &&& self.is_matrix_rep(size as int, m@)
                &&& m@ == self.raw_grid(size as int)
            },
    {
        if self.nodes.len() > size {
            return Err(RankError::CapacityExceeded);
        }
        let mut cols: Vec<Vector> = Vec::new();
        let mut s: usize = 0;
        while s < size
            invariant
                0 <= s <= size,
                self.wf(),
                self.spec_len() <= size,
                cols@.len() == s,
                forall|c: int| 0 <= c < s ==> (#[trigger] cols@[c])@.len() == size,
                forall|c: int| 0 <= c < s ==> vec_wf((#[trigger] cols@[c])@),
                forall|c: int, t: int|
                    0 <= c < s && 0 <= t < size ==> {
                        if c < self.spec_len() {
                            match last_edge(self.spec_edges(c), t) {
                                Some(p) => (#[trigger] cols@[c]@[t]) == p,
                                None => cols@[c]@[t].n() == 0 && cols@[c]@[t].d() == 1,
                            }
                        } else {
                            (#[trigger] cols@[c]@[t]).n() == 0 && cols@[c]@[t].d() == 1
                        }
                    },
            decreases size - s,
        {
            let mut col = Vector::zero_vector(size);
            if s < self.nodes.len() {
                let es = &self.nodes[s].connections;
                let ghost esv = es@;
                let mut e: usize = 0;
                while e < es.len()
                    invariant
                        0 <= e <= esv.len(),
                        esv == self.spec_edges(s as int),
                        self.wf(),
                        0 <= (s as int) < self.spec_len(),
                        self.spec_len() <= size,
                        es@ == esv,
                        col@.len() == size,
                        vec_wf(col@),
                        forall|t: int|
                            0 <= t < size ==> {
                                match last_edge(esv.take(e as int), t) {
                                    Some(p) => (#[trigger] col@[t]) == p,
                                    None => col@[t].n() == 0 && col@[t].d() == 1,
                                }
                            },
                    decreases esv.len() - e,
                {
                    let (tk, p) = es[e];
                    proof {
                        assert(esv[e as int] == (tk, p));
                        assert(esv.take(e + 1).drop_last() =~= esv.take(e as int));
                        assert(esv.take(e + 1).last() == (tk, p));
                    }
                    col.set(tk.idx, p);
                    e = e + 1;
                }
                proof {
                    assert(esv.take(esv.len() as int) =~= esv);
                }
            }
            cols.push(col);
            s = s + 1;
        }
        match Matrix::from_vectors(cols) {
            Ok(m) => {
                proof {
                    if size > 0 {
                        assert(cols@[0]@.len() == size);
                    }
                    assert forall|i: int, j: int|
                        0 <= i < m@.len() && 0 <= j < m.spec_cols() implies (
                    #[trigger] m@[i][j]).wf() by {
                        assert(m@[i][j] == cols@[j]@[i]);
                        assert(vec_wf(cols@[j]@));
                        assert(cols@[j]@[i].wf());
                    }
                    assert forall|t: int, s: int|
                        0 <= t < size && 0 <= s < size implies (#[trigger] m@[t][s]) == cols@[s]@[t]
                        by {}
                    crate::rational::lemma_norm_unit_forms();
                    assert forall|t: int| 0 <= t < size implies (#[trigger] m@[t]) =~= self.raw_grid(
                        size as int,
                    )[t] by {
                        assert forall|s: int|
                            0 <= s < size implies (#[trigger] m@[t][s]) == self.raw_grid(
                            size as int,
                        )[t][s] by {
                            if 0 <= s < self.spec_len() {
                                if last_edge(self.spec_edges(s), t) is None {
                                    lemma_rat_ext(m@[t][s], norm_rat(0, 1));
                                }
                            } else {
                                lemma_rat_ext(m@[t][s], norm_rat(0, 1));
                            }
                        }
                    }
                    assert(m@ =~= self.raw_grid(size as int));
                }
                Ok(m)
            },
            Err(_) => {
                proof {
                    assert(false);
                }
                Err(RankError::CapacityExceeded)
            },
        }
    }
}

/// The value equation of one damped entry: seventeen twentieths of the
/// raw weight plus three twentieths spread uniformly over `size` nodes.
pub open spec fn damped_entry(e: Rat, w: Rat, size: int) -> bool {
    e.n() * (20 * w.d() * size) == (17 * w.n() * size + 3 * w.d()) * e.d()
}

/// Every entry of `dm` is the damped combination of the matching entry
/// of `raw`.
pub open spec fn is_damped_of(dm: Seq<Seq<Rat>>, raw: Seq<Seq<Rat>>, size: int) -> bool {
    &&& dm.len() == size
    &&& forall|t: int| 0 <= t < size ==> (#[trigger] dm[t]).len() == size
    &&& forall|t: int, s: int|
        0 <= t < size && 0 <= s < size ==> damped_entry(#[trigger] dm[t][s], raw[t][s], size)
}

/// A rank vector for a graph: the stationary distribution of the
/// column-stochastic damped transition matrix built from the graph's
/// raw transition matrix.
pub open spec fn is_rank_vector<ITEM>(g: ConnectionGraph<ITEM>, size: int, p: Seq<Rat>) -> bool {
    exists|raw: Seq<Seq<Rat>>, dm: Seq<Seq<Rat>>|
        {
            &&& #[trigger] g.is_matrix_rep(size, raw)
            &&& #[trigger] is_damped_of(dm, raw, size)
            &&& is_col_stochastic(dm, size)
            &&& is_fixed_point(dm, p)
        }
}

/// The damped transition grid, entry by entry in reduced form:
/// seventeen twentieths of the raw entry plus a reduced uniform share
/// of three parts in twenty times the size.
pub open spec fn damped_grid(raw: Seq<Seq<Rat>>, size: int) -> Seq<Seq<Rat>> {
    Seq::new(
        size as nat,
        |t: int|
            Seq::new(
                size as nat,
                |s: int|
                    {
                        let walk = norm_rat(17, 20);
                        let u = norm_rat(3, 20 * size);
                        let e2 = norm_rat(mul_n(raw[t][s], walk), mul_d(raw[t][s], walk));
                        norm_rat(add_n(e2, u), add_d(e2, u))
                    },
            ),
    )
}

/// Does every reduced entry of the damped grid fit the machine word?
pub open spec fn damped_fits(raw: Seq<Seq<Rat>>, size: int) -> bool {
    let walk = norm_rat(17, 20);
    let u = norm_rat(3, 20 * size);
    &&& (forall|t: int, s: int|
        0 <= t < size && 0 <= s < size ==> norm_fits(
            mul_n(#[trigger] raw[t][s], walk),
            mul_d(raw[t][s], walk),
        ))
    &&& (forall|t: int, s: int|
        0 <= t < size && 0 <= s < size ==> ({
            let e2 = norm_rat(mul_n(#[trigger] raw[t][s], walk), mul_d(raw[t][s], walk));
            norm_fits(add_n(e2, u), add_d(e2, u))
        }))
}

/// The ways the rank computation can fail for this graph and size:
/// too many nodes, an overflowing damped entry, an overflowing or
/// failing column validation, an overflowing shifted matrix or
/// reduction, or no exact kernel-basis candidate that the acceptance
/// pipeline admits.
pub open spec fn rank_failure<ITEM>(g: ConnectionGraph<ITEM>, size: int) -> bool {
    let raw = g.raw_grid(size);
    let dm = damped_grid(raw, size);
    let sh = shifted_grid(dm, size);
    ||| g.spec_len() > size
    ||| !damped_fits(raw, size)
    ||| (exists|c: int| 0 <= c < size && !sum_fits(#[trigger] col_seq(dm, c)))
    ||| !is_col_stochastic(dm, size)
    ||| !shifted_fits(dm, size)
    ||| gauss_jordan(sh) is None
    ||| (forall|k: int, bv: Seq<Rat>|
        0 <= k < free_cols(gauss_jordan(sh)->Some_0, size).len() && #[trigger] basis_vector_exact(
            gauss_jordan(sh)->Some_0,
            size,
            free_cols(gauss_jordan(sh)->Some_0, size)[k],
            bv,
        ) ==> !candidate_accepted(dm, bv))
}

/// Each damped grid entry is well formed, names the damped value, and
/// is strictly positive when the raw entry is non-negative.
proof fn lemma_damped_grid_entry(raw: Seq<Seq<Rat>>, size: int, t: int, c: int)
    requires
        size >= 1,
        20 * size <= i64::MAX as int,
        0 <= t < size,
        0 <= c < size,
        raw.len() == size,
        forall|i: int| 0 <= i < size ==> (#[trigger] raw[i]).len() == size,
        forall|i: int, j: int| 0 <= i < size && 0 <= j < size ==> (#[trigger] raw[i][j]).wf(),
        damped_fits(raw, size),
    ensures
        damped_grid(raw, size)[t][c].wf(),
        damped_entry(damped_grid(raw, size)[t][c], raw[t][c], size),
        raw[t][c].n() >= 0 ==> damped_grid(raw, size)[t][c].n() > 0,
{
    let w = raw[t][c];
    let walk = norm_rat(17, 20);
    let u = norm_rat(3, 20 * size);
    crate::rational::lemma_norm_fits_small(17, 20);
    crate::rational::lemma_norm_rat(17, 20);
    crate::rational::lemma_norm_fits_small(3, 20 * size);
    crate::rational::lemma_norm_rat(3, 20 * size);
    let e2 = norm_rat(mul_n(w, walk), mul_d(w, walk));
    lemma_pos_prod(w.d(), walk.d());
    crate::rational::lemma_norm_rat(mul_n(w, walk), mul_d(w, walk));
    let e = norm_rat(add_n(e2, u), add_d(e2, u));
    lemma_pos_prod(e2.d(), u.d());
    crate::rational::lemma_norm_rat(add_n(e2, u), add_d(e2, u));
    assert(damped_grid(raw, size)[t][c] == e);
    lemma_damped_entry(w, walk, u, e2, e, size);
    if w.n() >= 0 {
        assert(17 * w.n() * size + 3 * w.d() > 0) by (nonlinear_arith)
            requires
                w.n() >= 0,
                size >= 1,
                w.d() > 0,
        {
        }
        assert(e.n() > 0) by (nonlinear_arith)
            requires
                e.n() * (20 * w.d() * size) == (17 * w.n() * size + 3 * w.d()) * e.d(),
                17 * w.n() * size + 3 * w.d() > 0,
                e.d() > 0,
                w.d() > 0,
                size >= 1,
        {
        }
    }
}

/// Scaling by seventeen twentieths and adding three twentieths of a
/// uniform share produces exactly the damped entry value.
proof fn lemma_damped_entry(w: Rat, k: Rat, u: Rat, e2: Rat, e3: Rat, size: int)
    requires
        w.wf(),
        k.wf(),
        u.wf(),
        e2.wf(),
        e3.wf(),
        size > 0,
        k.n() * 20 == 17 * k.d(),
        u.n() * (20 * size) == 3 * u.d(),
        rat_eq_frac(e2, mul_n(w, k), mul_d(w, k)),
        rat_eq_frac(e3, add_n(e2, u), add_d(e2, u)),
    ensures
        damped_entry(e3, w, size),
{
    let wn = w.n();
    let wd = w.d();
    let kn = k.n();
    let kd = k.d();
    let un = u.n();
    let ud = u.d();
    let e2n = e2.n();
    let e2d = e2.d();
    // e2 names seventeen twentieths of w
    assert((e2n * (wd * kd)) * 20 == ((wn * kn) * e2d) * 20);
    assert((e2n * (wd * kd)) * 20 == kd * (e2n * (20 * wd))) by (nonlinear_arith) {
    }
    assert(((wn * kn) * e2d) * 20 == (kn * 20) * (wn * e2d)) by (nonlinear_arith) {
    }
    assert((kn * 20) * (wn * e2d) == (17 * kd) * (wn * e2d));
    assert((17 * kd) * (wn * e2d) == kd * ((17 * wn) * e2d)) by (nonlinear_arith) {
    }
    assert(kd * (e2n * (20 * wd)) == kd * ((17 * wn) * e2d));
    assert(e2n * (20 * wd) == (17 * wn) * e2d) by (nonlinear_arith)
        requires
            kd * (e2n * (20 * wd)) == kd * ((17 * wn) * e2d),
            kd > 0,
    {
    }
    // the sum of the scaled entry and the uniform share names the
    // damped value
    assert((e2n * ud + un * e2d) * (20 * wd * size) == (e2n * ud) * (20 * wd * size) + (un * e2d)
        * (20 * wd * size)) by (nonlinear_arith) {
    }
    assert((e2n * ud) * (20 * wd * size) == (e2n * (20 * wd)) * (ud * size)) by (nonlinear_arith) {
    }
    assert((un * e2d) * (20 * wd * size) == (un * (20 * size)) * (e2d * wd)) by (nonlinear_arith) {
    }
    assert((e2n * (20 * wd)) * (ud * size) == ((17 * wn) * e2d) * (ud * size));
    assert((un * (20 * size)) * (e2d * wd) == (3 * ud) * (e2d * wd));
    assert((17 * wn * size + 3 * wd) * (e2d * ud) == (17 * wn * size) * (e2d * ud) + (3 * wd) * (
    e2d * ud)) by (nonlinear_arith) {
    }
    assert((17 * wn * size) * (e2d * ud) == ((17 * wn) * e2d) * (ud * size)) by (nonlinear_arith) {
    }
    assert((3 * wd) * (e2d * ud) == (3 * ud) * (e2d * wd)) by (nonlinear_arith) {
    }
    assert((e2n * ud + un * e2d) * (20 * wd * size) == (17 * wn * size + 3 * wd) * (e2d * ud));
    lemma_pos_prod(e2d, ud);
    lemma_frac_to_frac(e3, add_n(e2, u), add_d(e2, u), 17 * wn * size + 3 * wd, 20 * wd * size);
}

/// Should `x` stand before `y` in the rankings: strictly larger rank,
/// or equal rank and earlier registration.
pub open spec fn ranked_before(x: (GraphKey, Rat), y: (GraphKey, Rat)) -> bool {
    ||| rat_lt(y.1, x.1)
    ||| (rat_eq(x.1, y.1) && x.0.spec_idx() < y.0.spec_idx())
}

/// The ranking order is transitive.
proof fn lemma_ranked_before_trans(x: (GraphKey, Rat), y: (GraphKey, Rat), z: (GraphKey, Rat))
    requires
        x.1.wf(),
        y.1.wf(),
        z.1.wf(),
        ranked_before(x, y),
        ranked_before(y, z),
    ensures
        ranked_before(x, z),
{
    if rat_lt(y.1, x.1) || rat_lt(z.1, y.1) {
        lemma_rat_order_trans(z.1, y.1, x.1);
    } else {
        lemma_rat_eq_trans(x.1, y.1, z.1);
    }
}

/// The ranking order is total over pairs with distinct handles.
proof fn lemma_ranked_before_total(x: (GraphKey, Rat), y: (GraphKey, Rat))
    requires
        x.1.wf(),
        y.1.wf(),
        x.0.spec_idx() != y.0.spec_idx(),
        !ranked_before(x, y),
    ensures
        ranked_before(y, x),
{
}

/// Decides the ranking order between two keyed ranks.
fn before_pairs(x: &(GraphKey, Rat), y: &(GraphKey, Rat)) -> (r: bool)
    requires
        x.1.wf(),
        y.1.wf(),
    ensures
        r == ranked_before(*x, *y),
{
    if y.1.lt(&x.1) {
        true
    } else if x.1.same_value(&y.1) {
        x.0.index() < y.0.index()
    } else {
        false
    }
}

impl<ITEM> ConnectionGraph<ITEM> {
    /// Ranks all registered nodes from highest to lowest steady-state
    /// rank; nodes of equal rank keep their registration order.
    pub fn get_rankings(&self, size: usize) -> (r: Result<Vec<GraphKey>, RankError>)
        requires
            self.wf(),
            1 <= size,
            20 * (size as int) <= i64::MAX as int,
        ensures
            r == Err::<Vec<GraphKey>, RankError>(RankError::CapacityExceeded) <==> self.spec_len()
                > size,
            r matches Ok(ks) ==> {
                &&& ks@.len() == self.spec_len()
                &&& forall|a: int|
                    0 <= a < ks@.len() ==> 0 <= (#[trigger] ks@[a]).spec_idx() < self.spec_len()
                &&& forall|a: int, b: int|
                    0 <= a < b < ks@.len() ==> ks@[a].spec_idx() != ks@[b].spec_idx()
                &&& exists|p: Seq<Rat>|
                    {
                        &&& p.len() == size
                        &&& vec_wf(p)
                        &&& is_prob_dist(p)
                        &&& #[trigger] is_rank_vector(*self, size as int, p)
                        &&& forall|a: int, b: int|
                            0 <= a < b < ks@.len() ==> rat_lt(
                                p[ks@[b].spec_idx()],
                                p[ks@[a].spec_idx()],
                            ) || (rat_eq(p[ks@[a].spec_idx()], p[ks@[b].spec_idx()])
                                && ks@[a].spec_idx() < ks@[b].spec_idx())
                    }
            },
            r is Err ==> {
                ||| r == Err::<Vec<GraphKey>, RankError>(RankError::CapacityExceeded)
                ||| r == Err::<Vec<GraphKey>, RankError>(RankError::NotColumnStochastic)
                ||| r == Err::<Vec<GraphKey>, RankError>(RankError::NumericOverflow)
                ||| r == Err::<Vec<GraphKey>, RankError>(RankError::ConvergenceFailure)
            },
            r is Err ==> rank_failure(*self, size as int),
            r == Err::<Vec<GraphKey>, RankError>(RankError::NotColumnStochastic)
                ==> !is_col_stochastic(
                damped_grid(self.raw_grid(size as int), size as int),
                size as int,
            ),
            is_col_stochastic(self.raw_grid(size as int), size as int) && damped_fits(
                self.raw_grid(size as int),
                size as int,
            ) ==> r != Err::<Vec<GraphKey>, RankError>(RankError::NotColumnStochastic),
    {
        let rank = match self.get_rank_vector(size) {
            Ok(p) => p,
            Err(e) => {
                return Err(e);
            },
        };
        let n = self.nodes.len();
        let mut pairs: Vec<(GraphKey, Rat)> = Vec::new();
        let mut i: usize = 0;
        while i < n
            invariant
                0 <= i <= n,
                n == self.spec_len(),
                n <= size,
                rank@.len() == size,
                vec_wf(rank@),
                pairs@.len() == i,
                forall|a: int| 0 <= a < i ==> (#[trigger] pairs@[a]).0.spec_idx() == a,
                forall|a: int|
                    0 <= a < i ==> (#[trigger] pairs@[a]).1 == rank@[pairs@[a].0.spec_idx()],
                forall|a: int| 0 <= a < i ==> (#[trigger] pairs@[a]).1.wf(),
            decreases n - i,
        {
            pairs.push((GraphKey { idx: i }, rank.get(i)));
            i = i + 1;
        }
        let mut si: usize = 1;
        while si < pairs.len()
            invariant
                si >= 1,
                n == self.spec_len(),
                n <= size,
                rank@.len() == size,
                vec_wf(rank@),
                pairs@.len() == n,
                forall|a: int|
                    0 <= a < n ==> 0 <= (#[trigger] pairs@[a]).0.spec_idx() < n && pairs@[a].1
                        == rank@[pairs@[a].0.spec_idx()] && pairs@[a].1.wf(),
                forall|a: int, b: int|
                    0 <= a < b < n ==> (#[trigger] pairs@[a]).0.spec_idx() != (
                    #[trigger] pairs@[b]).0.spec_idx(),
                forall|a: int, b: int| 0 <= a < b < si ==> ranked_before(pairs@[a], pairs@[b]),
            decreases pairs@.len() - si,
        {
            let mut j: usize = si;
            while j > 0
                invariant_except_break
                    0 <= j <= si,
                    si < n,
                    n == self.spec_len(),
                    rank@.len() == size,
                    n <= size,
                    vec_wf(rank@),
                    pairs@.len() == n,
                    forall|a: int|
                        0 <= a < n ==> 0 <= (#[trigger] pairs@[a]).0.spec_idx() < n && pairs@[a].1
                            == rank@[pairs@[a].0.spec_idx()] && pairs@[a].1.wf(),
                    forall|a: int, b: int|
                        0 <= a < b < n ==> (#[trigger] pairs@[a]).0.spec_idx() != (
                        #[trigger] pairs@[b]).0.spec_idx(),
                    forall|a: int, b: int|
                        0 <= a < b <= si && b != j ==> ranked_before(pairs@[a], pairs@[b]),
                    forall|b: int| j < b <= si ==> ranked_before(pairs@[j as int], pairs@[b]),
                ensures
                    n == self.spec_len(),
                    rank@.len() == size,
                    n <= size,
                    vec_wf(rank@),
                    pairs@.len() == n,
                    si < n,
                    forall|a: int|
                        0 <= a < n ==> 0 <= (#[trigger] pairs@[a]).0.spec_idx() < n && pairs@[a].1
                            == rank@[pairs@[a].0.spec_idx()] && pairs@[a].1.wf(),
                    forall|a: int, b: int|
                        0 <= a < b < n ==> (#[trigger] pairs@[a]).0.spec_idx() != (
                        #[trigger] pairs@[b]).0.spec_idx(),
                    forall|a: int, b: int|
                        0 <= a < b <= si ==> ranked_before(pairs@[a], pairs@[b]),
                decreases j,
            {
                let go = before_pairs(&pairs[j], &pairs[j - 1]);
                if !go {
                    proof {
                        lemma_ranked_before_total(pairs@[j as int], pairs@[j - 1]);
                        assert forall|a: int, b: int|
                            0 <= a < b <= si implies ranked_before(pairs@[a], pairs@[b]) by {
                            if b == j {
                                if a < j - 1 {
                                    lemma_ranked_before_trans(
                                        pairs@[a],
                                        pairs@[j - 1],
                                        pairs@[j as int],
                                    );
                                }
                            }
                        }
                    }
                    break ;
                }
                let x = pairs[j - 1];
                let y = pairs[j];
                pairs.set(j - 1, y);
                pairs.set(j, x);
                j = j - 1;
                proof {
                    assert forall|a: int, b: int|
                        0 <= a < b <= si && b != j implies ranked_before(pairs@[a], pairs@[b]) by {
                        if b == j + 1 {
                            if a == j {
                            } else {
                            }
                        }
                    }
                    assert forall|b: int|
                        j < b <= si implies ranked_before(pairs@[j as int], pairs@[b]) by {
                    }
                }
            }
            si = si + 1;
        }
        let mut out: Vec<GraphKey> = Vec::new();
        let mut t: usize = 0;
        while t < pairs.len()
            invariant
                0 <= t <= pairs@.len(),
                pairs@.len() == n,
                n == self.spec_len(),
                out@.len() == t,
                forall|a: int| 0 <= a < t ==> (#[trigger] out@[a]) == pairs@[a].0,
            decreases pairs@.len() - t,
        {
            out.push(pairs[t].0);
            t = t + 1;
        }
        proof {
            assert(is_rank_vector(*self, size as int, rank@));
            assert forall|a: int, b: int|
                0 <= a < b < out@.len() implies rat_lt(
                rank@[out@[b].spec_idx()],
                rank@[out@[a].spec_idx()],
            ) || (rat_eq(rank@[out@[a].spec_idx()], rank@[out@[b].spec_idx()])
                && out@[a].spec_idx() < out@[b].spec_idx()) by {
                if pairs@.len() > 1 {
                    assert(ranked_before(pairs@[a], pairs@[b]));
                }
            }
        }
        Ok(out)
    }
}

/// A recorded last edge carries a well-formed weight.
proof fn lemma_last_edge_wf<ITEM>(g: ConnectionGraph<ITEM>, s: int, t: int)
    requires
        g.wf(),
        0 <= s < g.spec_len(),
    ensures
        last_edge(g.spec_edges(s), t) matches Some(p) ==> p.wf(),
{
    lemma_last_edge_wf_rec(g.spec_edges(s), t);
}

/// A weight found among well-formed pairs is well formed.
proof fn lemma_last_edge_wf_rec(es: Seq<(GraphKey, Rat)>, t: int)
    ensures
        (forall|e: int| 0 <= e < es.len() ==> (#[trigger] es[e]).1.wf()) ==> (match last_edge(
            es,
            t,
        ) {
            Some(p) => p.wf(),
            None => true,
        }),
    decreases es.len(),
{
    if es.len() > 0 {
        lemma_last_edge_wf_rec(es.drop_last(), t);
    }
}

/// Regrouping a two-term product of products.
proof fn lemma_regroup(a: int, b: int, wd: int, rd: int, dd: int, ed: int)
    ensures
        (a * wd + b * rd) * (dd * ed) == (a * dd) * (ed * wd) + (b * ed) * (dd * rd),
{
    assert((a * wd + b * rd) * (dd * ed) == (a * wd) * (dd * ed) + (b * rd) * (dd * ed))
        by (nonlinear_arith) {
    }
    assert((a * wd) * (dd * ed) == (a * dd) * (ed * wd)) by (nonlinear_arith) {
    }
    assert((b * rd) * (dd * ed) == (b * ed) * (dd * rd)) by (nonlinear_arith) {
    }
}

/// The running sums of a damped column name seventeen twentieths of
/// the raw column's running sums plus the accumulated uniform share.
proof fn lemma_damped_col_sum(raw: Seq<Seq<Rat>>, size: int, c: int, t: int)
    requires
        size >= 1,
        20 * size <= i64::MAX as int,
        0 <= c < size,
        0 <= t <= size,
        raw.len() == size,
        forall|i: int| 0 <= i < size ==> (#[trigger] raw[i]).len() == size,
        forall|i: int, j: int| 0 <= i < size && 0 <= j < size ==> (#[trigger] raw[i][j]).wf(),
        damped_fits(raw, size),
    ensures
        sum_d(col_seq(raw, c).take(t)) > 0,
        sum_d(col_seq(damped_grid(raw, size), c).take(t)) > 0,
        sum_n(col_seq(damped_grid(raw, size), c).take(t)) * (20 * sum_d(col_seq(raw, c).take(t))
            * size) == (17 * sum_n(col_seq(raw, c).take(t)) * size + 3 * t * sum_d(
            col_seq(raw, c).take(t),
        )) * sum_d(col_seq(damped_grid(raw, size), c).take(t)),
    decreases t,
{
    let dcol = col_seq(damped_grid(raw, size), c);
    let rcol = col_seq(raw, c);
    if t == 0 {
        assert(rcol.take(0) =~= Seq::<Rat>::empty());
        assert(dcol.take(0) =~= Seq::<Rat>::empty());
        assert(sum_n(dcol.take(t)) * (20 * sum_d(rcol.take(t)) * size) == 0) by (nonlinear_arith)
            requires
                sum_n(dcol.take(t)) == 0,
        {
        }
        assert((17 * sum_n(rcol.take(t)) * size + 3 * t * sum_d(rcol.take(t))) * sum_d(
            dcol.take(t),
        ) == 0) by (nonlinear_arith)
            requires
                sum_n(rcol.take(t)) == 0,
                t == 0,
                sum_d(dcol.take(t)) == 1,
        {
        }
    } else {
        lemma_damped_col_sum(raw, size, c, t - 1);
        lemma_damped_grid_entry(raw, size, t - 1, c);
        let w = raw[t - 1][c];
        let e = damped_grid(raw, size)[t - 1][c];
        assert(rcol.take(t).drop_last() =~= rcol.take(t - 1));
        assert(dcol.take(t).drop_last() =~= dcol.take(t - 1));
        assert(rcol.take(t).last() == w);
        assert(dcol.take(t).last() == e);
        let rn = sum_n(rcol.take(t - 1));
        let rd = sum_d(rcol.take(t - 1));
        let dn = sum_n(dcol.take(t - 1));
        let dd = sum_d(dcol.take(t - 1));
        let wn = w.n();
        let wd = w.d();
        let en = e.n();
        let ed = e.d();
        let s = size;
        assert(sum_n(rcol.take(t)) == rn * wd + wn * rd);
        assert(sum_d(rcol.take(t)) == rd * wd);
        assert(sum_n(dcol.take(t)) == dn * ed + en * dd);
        assert(sum_d(dcol.take(t)) == dd * ed);
        lemma_pos_prod(rd, wd);
        lemma_pos_prod(dd, ed);
        // the left side regrouped into the two certified products
        assert((dn * ed + en * dd) * (20 * (rd * wd) * s) == (dn * ed) * (20 * (rd * wd) * s) + (en
            * dd) * (20 * (rd * wd) * s)) by (nonlinear_arith) {
        }
        assert((dn * ed) * (20 * (rd * wd) * s) == (dn * (20 * rd * s)) * (ed * wd))
            by (nonlinear_arith) {
        }
        assert((en * dd) * (20 * (rd * wd) * s) == (en * (20 * wd * s)) * (dd * rd))
            by (nonlinear_arith) {
        }
        assert((dn * (20 * rd * s)) * (ed * wd) == ((17 * rn * s + 3 * (t - 1) * rd) * dd) * (ed
            * wd));
        assert((en * (20 * wd * s)) * (dd * rd) == ((17 * wn * s + 3 * wd) * ed) * (dd * rd));
        // the right side regrouped the same way
        assert(17 * (rn * wd + wn * rd) * s == (17 * rn * s) * wd + (17 * wn * s) * rd)
            by (nonlinear_arith) {
        }
        assert(3 * t * (rd * wd) == (3 * (t - 1) * rd) * wd + (3 * wd) * rd) by (nonlinear_arith) {
        }
        assert((17 * rn * s + 3 * (t - 1) * rd) * wd == (17 * rn * s) * wd + (3 * (t - 1) * rd)
            * wd) by (nonlinear_arith) {
        }
        assert((17 * wn * s + 3 * wd) * rd == (17 * wn * s) * rd + (3 * wd) * rd)
            by (nonlinear_arith) {
        }
        assert(17 * (rn * wd + wn * rd) * s + 3 * t * (rd * wd) == (17 * rn * s + 3 * (t - 1) * rd)
            * wd + (17 * wn * s + 3 * wd) * rd);
        lemma_regroup(17 * rn * s + 3 * (t - 1) * rd, 17 * wn * s + 3 * wd, wd, rd, dd, ed);
        let aa = 17 * rn * s + 3 * (t - 1) * rd;
        let bb = 17 * wn * s + 3 * wd;
        assert((dn * ed + en * dd) * (20 * (rd * wd) * s) == (aa * dd) * (ed * wd) + (bb * ed) * (
        dd * rd));
        assert((aa * wd + bb * rd) * (dd * ed) == (aa * dd) * (ed * wd) + (bb * ed) * (dd * rd));
        assert(17 * (rn * wd + wn * rd) * s + 3 * t * (rd * wd) == aa * wd + bb * rd);
        assert((dn * ed + en * dd) * (20 * (rd * wd) * s) == (17 * (rn * wd + wn * rd) * s + 3 * t
            * (rd * wd)) * (dd * ed));
        assert(sum_n(dcol.take(t)) * (20 * sum_d(rcol.take(t)) * size) == (17 * sum_n(
            rcol.take(t),
        ) * size + 3 * t * sum_d(rcol.take(t))) * sum_d(dcol.take(t)));
    }
}

/// Damping keeps a transition grid column-stochastic: seventeen
/// twentieths of each probability column plus the uniform teleport
/// share is again a probability column.
pub proof fn lemma_damping_preserves_stochastic(raw: Seq<Seq<Rat>>, size: int)
    requires
        size >= 1,
        20 * size <= i64::MAX as int,
        raw.len() == size,
        forall|i: int| 0 <= i < size ==> (#[trigger] raw[i]).len() == size,
        forall|i: int, j: int| 0 <= i < size && 0 <= j < size ==> (#[trigger] raw[i][j]).wf(),
        damped_fits(raw, size),
        is_col_stochastic(raw, size),
    ensures
        is_col_stochastic(damped_grid(raw, size), size),
{
    assert forall|c: int|
        0 <= c < size implies is_prob_dist(#[trigger] col_seq(damped_grid(raw, size), c)) by {
        let dcol = col_seq(damped_grid(raw, size), c);
        let rcol = col_seq(raw, c);
        assert(is_prob_dist(rcol));
        assert forall|t: int| 0 <= t < size implies (#[trigger] dcol[t]).n() >= 0 by {
            lemma_damped_grid_entry(raw, size, t, c);
            assert(rcol[t] == raw[t][c]);
            assert(raw[t][c].n() >= 0);
        }
        lemma_damped_col_sum(raw, size, c, size);
        assert(rcol.take(size as int) =~= rcol);
        assert(dcol.take(size as int) =~= dcol);
        let rn = sum_n(rcol);
        let rd = sum_d(rcol);
        let dn = sum_n(dcol);
        let dd = sum_d(dcol);
        assert(17 * rn * size + 3 * size * rd == 20 * rd * size) by (nonlinear_arith)
            requires
                rn == rd,
        {
        }
        lemma_pos_prod(20 * rd, size);
        assert(dn == dd) by (nonlinear_arith)
            requires
                dn * (20 * rd * size) == (20 * rd * size) * dd,
                20 * rd * size > 0,
        {
        }
    }
}

impl<ITEM> ConnectionGraph<ITEM> {
    /// The steady-state rank vector of the damped walk over this
    /// graph: the raw transition matrix is scaled by the walk
    /// continuation chance of seventeen twentieths, a uniform teleport
    /// share of three twentieths is added, the result is validated as
    /// column-stochastic, and its stationary distribution is solved
    /// for exactly.
    pub fn get_rank_vector(&self, size: usize) -> (r: Result<Probability, RankError>)
        requires
            self.wf(),
            1 <= size,
            20 * (size as int) <= i64::MAX as int,
        ensures
            r == Err::<Probability, RankError>(RankError::CapacityExceeded) <==> self.spec_len()
                > size,
            r matches Ok(p) ==> {
                &&& p@.len() == size
                &&& vec_wf(p@)
                &&& is_prob_dist(p@)
                &&& is_rank_vector(*self, size as int, p@)
            },
            r is Err ==> {
                ||| r == Err::<Probability, RankError>(RankError::CapacityExceeded)
                ||| r == Err::<Probability, RankError>(RankError::NotColumnStochastic)
                ||| r == Err::<Probability, RankError>(RankError::NumericOverflow)
                ||| r == Err::<Probability, RankError>(RankError::ConvergenceFailure)
            },
            r is Err ==> rank_failure(*self, size as int),
            r == Err::<Probability, RankError>(RankError::NotColumnStochastic)
                ==> !is_col_stochastic(
                damped_grid(self.raw_grid(size as int), size as int),
                size as int,
            ),
            is_col_stochastic(self.raw_grid(size as int), size as int) && damped_fits(
                self.raw_grid(size as int),
                size as int,
            ) ==> r != Err::<Probability, RankError>(RankError::NotColumnStochastic),
    {
        let ghost rg = self.raw_grid(size as int);
        proof {
            if is_col_stochastic(rg, size as int) && damped_fits(rg, size as int) {
                crate::rational::lemma_norm_unit_forms();
                assert forall|i: int, j: int|
                    0 <= i < size && 0 <= j < size implies (#[trigger] rg[i][j]).wf() by {
                    if 0 <= j < self.spec_len() {
                        if last_edge(self.spec_edges(j), i) is Some {
                            lemma_last_edge_wf(*self, j, i);
                        }
                    }
                }
                lemma_damping_preserves_stochastic(rg, size as int);
            }
        }
        let ghost dg = damped_grid(rg, size as int);
        let raw = match self.matrix_representation(size) {
            Ok(m) => m,
            Err(_) => {
                return Err(RankError::CapacityExceeded);
            },
        };
        let walk = match Rat::new(17, 20) {
            Some(k) => k,
            None => {
                proof {
                    assert(false);
                }
                return Err(RankError::NumericOverflow);
            },
        };
        proof {
            assert(walk == norm_rat(17, 20));
        }
        let m2 = match raw.scalar_multiply(&walk) {
            Ok(m) => m,
            Err(_) => {
                proof {
                    assert(!damped_fits(rg, size as int));
                }
                return Err(RankError::NumericOverflow);
            },
        };
        let den: i64 = 20 * (size as i64);
        let u = match Rat::new(3, den) {
            Some(u) => u,
            None => {
                proof {
                    assert(false);
                }
                return Err(RankError::NumericOverflow);
            },
        };
        proof {
            assert(u == norm_rat(3, 20 * (size as int)));
        }
        let uniform = Matrix::filled(size, size, u);
        let m3 = match m2.matrix_addition(&uniform) {
            Ok(m) => m,
            Err(_) => {
                proof {
                    assert(!damped_fits(rg, size as int)) by {
                        if damped_fits(rg, size as int) {
                            assert forall|t: int, s: int|
                                0 <= t < size && 0 <= s < size implies norm_fits(
                                add_n(#[trigger] m2@[t][s], uniform@[t][s]),
                                add_d(m2@[t][s], uniform@[t][s]),
                            ) by {
                                assert(m2@[t][s] == norm_rat(
                                    mul_n(rg[t][s], walk),
                                    mul_d(rg[t][s], walk),
                                ));
                                assert(uniform@[t][s] == u);
                            }
                            assert(false);
                        }
                    }
                }
                return Err(RankError::NumericOverflow);
            },
        };
        proof {
            assert forall|t: int| 0 <= t < size implies (#[trigger] m3@[t]) =~= dg[t] by {
                assert forall|s: int| 0 <= s < size implies (#[trigger] m3@[t][s]) == dg[t][s] by {
                    assert(m2@[t][s] == norm_rat(mul_n(rg[t][s], walk), mul_d(rg[t][s], walk)));
                    assert(uniform@[t][s] == u);
                    assert(m3@[t][s] == norm_rat(
                        add_n(m2@[t][s], uniform@[t][s]),
                        add_d(m2@[t][s], uniform@[t][s]),
                    ));
                }
            }
            assert(m3@ =~= dg);
        }
        let st = match m3.stochastic_matrix() {
            Ok(s) => s,
            Err(RankError::NotColumnStochastic) => {
                return Err(RankError::NotColumnStochastic);
            },
            Err(_) => {
                return Err(RankError::NumericOverflow);
            },
        };
        let p = match st.steady_state_solution() {
            Ok(p) => p,
            Err(RankError::ConvergenceFailure) => {
                return Err(RankError::ConvergenceFailure);
            },
            Err(_) => {
                return Err(RankError::NumericOverflow);
            },
        };
        proof {
            assert forall|t: int, s: int|
                0 <= t < size && 0 <= s < size implies damped_entry(
                #[trigger] m3@[t][s],
                raw@[t][s],
                size as int,
            ) by {
                lemma_damped_entry(raw@[t][s], walk, u, m2@[t][s], m3@[t][s], size as int);
            }
            assert(is_damped_of(m3@, raw@, size as int));
            assert(self.is_matrix_rep(size as int, raw@));
            assert(is_col_stochastic(m3@, size as int));
            assert(is_fixed_point(m3@, p@));
            assert(is_rank_vector(*self, size as int, p@));
        }
        Ok(p)
    }
}

} // verus!
