//! The combinatorial structure of a cellular sheaf on a directed graph:
//! stalk dimensions at the nodes, and edges carrying restriction maps whose
//! shapes are fixed by the stalks at their ends.
use vstd::prelude::*;

use crate::matrix::Matrix;

verus! {

/// Sum of a sequence of dimensions.
pub open spec fn dims_sum(dims: Seq<usize>) -> nat
    decreases dims.len(),
{
    if dims.len() == 0 {
        0
    } else {
        dims_sum(dims.drop_last()) + dims.last() as nat
    }
}

/// Sum of the first `i` dimensions: where block `i` starts when the blocks
/// are laid out one after another.
pub open spec fn prefix_sum(dims: Seq<usize>, i: int) -> nat {
    dims_sum(dims.take(i))
}

/// The prefix sum grows by the next dimension.
pub proof fn lemma_prefix_step(dims: Seq<usize>, i: int)
    requires
        0 <= i < dims.len(),
    ensures
        prefix_sum(dims, i + 1) == prefix_sum(dims, i) + dims[i],
{
    assert(dims.take(i + 1).drop_last() =~= dims.take(i));
}

/// The prefix over the whole sequence is its sum.
pub proof fn lemma_prefix_full(dims: Seq<usize>)
    ensures
        prefix_sum(dims, dims.len() as int) == dims_sum(dims),
{
    assert(dims.take(dims.len() as int) =~= dims);
}

/// Prefix sums are monotone.
pub proof fn lemma_prefix_mono(dims: Seq<usize>, i: int, j: int)
    requires
        0 <= i <= j <= dims.len(),
    ensures
        prefix_sum(dims, i) <= prefix_sum(dims, j),
    decreases j - i,
{
    if i < j {
        lemma_prefix_step(dims, j - 1);
        lemma_prefix_mono(dims, i, j - 1);
    }
}

/// Block `i` of consecutive blocks lies inside the total: it starts at
/// `prefix_sum(dims, i)`, ends where block `i + 1` starts, and that end is
/// at most the sum of all dimensions.
pub proof fn lemma_block_within(dims: Seq<usize>, i: int)
    requires
        0 <= i < dims.len(),
    ensures
        prefix_sum(dims, i) + dims[i] == prefix_sum(dims, i + 1),
        prefix_sum(dims, i + 1) <= dims_sum(dims),
{
    lemma_prefix_step(dims, i);
    lemma_prefix_mono(dims, i + 1, dims.len() as int);
    lemma_prefix_full(dims);
}

/// Offsets at which consecutive blocks of the given dimensions start.
fn block_offsets(dims: &Vec<usize>) -> (offsets: Vec<usize>)
    requires
        dims_sum(dims@) <= usize::MAX,
    ensures
        offsets@.len() == dims@.len(),
        forall|i: int| 0 <= i < dims@.len() ==> offsets@[i] == prefix_sum(dims@, i),
{
    let n = dims.len();
    let mut offsets: Vec<usize> = Vec::new();
    let mut acc: usize = 0;
    let mut i: usize = 0;
    proof {
        assert(dims@.take(0) =~= Seq::<usize>::empty());
    }
    while i < n
        invariant
            n == dims@.len(),
            dims_sum(dims@) <= usize::MAX,
            i <= n,
            acc == prefix_sum(dims@, i as int),
            offsets@.len() == i,
            forall|k: int| 0 <= k < i ==> offsets@[k] == prefix_sum(dims@, k),
        decreases n - i,
    {
        offsets.push(acc);
        proof {
            lemma_block_within(dims@, i as int);
        }
        acc = acc + dims[i];
        i = i + 1;
    }
    offsets
}

/// Sum of the given dimensions.
fn total_dim(dims: &Vec<usize>) -> (total: usize)
    requires
        dims_sum(dims@) <= usize::MAX,
    ensures
        total == dims_sum(dims@),
{
    let n = dims.len();
    let mut acc: usize = 0;
    let mut i: usize = 0;
    proof {
        assert(dims@.take(0) =~= Seq::<usize>::empty());
    }
    while i < n
        invariant
            n == dims@.len(),
            dims_sum(dims@) <= usize::MAX,
            i <= n,
            acc == prefix_sum(dims@, i as int),
        decreases n - i,
    {
        proof {
            lemma_block_within(dims@, i as int);
        }
        acc = acc + dims[i];
        i = i + 1;
    }
    proof {
        lemma_prefix_full(dims@);
    }
    acc
}

/// A directed edge with source, target, and a restriction map (matrix).
pub struct SheafEdge<T> {
    pub source: usize,
    pub target: usize,
    /// Restriction map from source stalk to target stalk.
    pub restriction: Matrix<T>,
}

/// A cellular sheaf on a graph.
///
/// Assigns a vector space (stalk) of dimension `stalk_dims[v]` to each node
/// `v`, and a linear restriction map to each directed edge.
pub struct Sheaf<T> {
    /// Dimension of the stalk at each node.
    pub stalk_dims: Vec<usize>,
    /// Directed edges with restriction maps.
    pub edges: Vec<SheafEdge<T>>,
}

impl<T> Sheaf<T> {
    /// Every edge joins two nodes of the sheaf.
    pub open spec fn edges_in_range(&self) -> bool {
        forall|e: int|
            #![trigger self.edges@[e]]
            0 <= e < self.edges@.len() ==> {
                &&& self.edges@[e].source < self.stalk_dims@.len()
                &&& self.edges@[e].target < self.stalk_dims@.len()
            }
    }

    /// The edge list is a real vector (its length fits a `usize`), every
    /// edge joins two nodes, and its restriction map goes from the
    /// source stalk to the target stalk: it has as many rows as the target
    /// stalk's dimension and as many columns as the source stalk's.
    pub open spec fn wf(&self) -> bool {
        &&& self.edges@.len() <= usize::MAX
        &&& self.edges_in_range()
        &&& forall|e: int|
            #![trigger self.edges@[e]]
            0 <= e < self.edges@.len() ==> {
                &&& self.edges@[e].restriction.rows
                    == self.stalk_dims@[self.edges@[e].target as int]
                &&& self.edges@[e].restriction.cols
                    == self.stalk_dims@[self.edges@[e].source as int]
            }
    }

    /// Dimension of the target stalk of each edge, in edge order.
    pub open spec fn target_dims(&self) -> Seq<usize> {
        Seq::new(
            self.edges@.len(),
            |e: int| self.stalk_dims@[self.edges@[e].target as int],
        )
    }

    /// Dimension of C⁰, the direct sum of all stalks.
    pub open spec fn c0_dim(&self) -> nat {
        dims_sum(self.stalk_dims@)
    }

    /// Dimension of C¹, the sum of the target stalks over all edges.
    pub open spec fn c1_dim(&self) -> nat {
        dims_sum(self.target_dims())
    }

    /// Where the block of node `v` starts in C⁰.
    pub open spec fn node_offset(&self, v: int) -> nat {
        prefix_sum(self.stalk_dims@, v)
    }

    /// Where the block of edge `e` starts in C¹.
    pub open spec fn edge_offset(&self, e: int) -> nat {
        prefix_sum(self.target_dims(), e)
    }

    /// The number of edges among the first `n` whose target is node `v`.
    pub open spec fn in_degree(&self, v: int, n: int) -> nat
        decreases n,
    {
        if n <= 0 {
            0
        } else {
            self.in_degree(v, n - 1) + if self.edges@[n - 1].target == v {
                1nat
            } else {
                0nat
            }
        }
    }

    /// Both cochain dimensions fit in a `usize`.
    pub open spec fn dims_fit(&self) -> bool {
        &&& self.c0_dim() <= usize::MAX
        &&& self.c1_dim() <= usize::MAX
    }

    /// Create a new sheaf with given stalk dimensions and no edges.
    pub fn new(stalk_dims: Vec<usize>) -> (s: Self)
        ensures
            s.stalk_dims@ == stalk_dims@,
            s.edges@.len() == 0,
            s.wf(),
    {
        Sheaf { stalk_dims, edges: Vec::new() }
    }

    /// Add an edge with a restriction map, which must map the source stalk
    /// to the target stalk.
    pub fn add_edge(&mut self, source: usize, target: usize, restriction: Matrix<T>)
        requires
            source < old(self).stalk_dims@.len(),
            target < old(self).stalk_dims@.len(),
            restriction.rows == old(self).stalk_dims@[target as int],
            restriction.cols == old(self).stalk_dims@[source as int],
        ensures
            final(self).stalk_dims@ == old(self).stalk_dims@,
            final(self).edges@ == old(self).edges@.push(
                (SheafEdge { source, target, restriction }),
            ),
            old(self).wf() ==> final(self).wf(),
            final(self).target_dims() == old(self).target_dims().push(
                old(self).stalk_dims@[target as int],
            ),
            final(self).c0_dim() == old(self).c0_dim(),
            final(self).c1_dim() == old(self).c1_dim() + old(self).stalk_dims@[target as int],
    {
        self.edges.push(SheafEdge { source, target, restriction });
        let _count = self.edges.len();
        assert(self.target_dims() =~= old(self).target_dims().push(
            old(self).stalk_dims@[target as int],
        ));
        assert(self.target_dims().drop_last() =~= old(self).target_dims());
    }

    /// Whether every edge joins two nodes of the sheaf and its restriction
    /// map has the shape the stalks at its ends call for.
    pub fn check_wf(&self) -> (b: bool)
        ensures
            b == self.wf(),
    {
        let n = self.edges.len();
        let mut e: usize = 0;
        while e < n
            invariant
                n == self.edges@.len(),
                e <= n,
                forall|k: int|
                    #![trigger self.edges@[k]]
                    0 <= k < e ==> {
                        &&& self.edges@[k].source < self.stalk_dims@.len()
                        &&& self.edges@[k].target < self.stalk_dims@.len()
                        &&& self.edges@[k].restriction.rows
                            == self.stalk_dims@[self.edges@[k].target as int]
                        &&& self.edges@[k].restriction.cols
                            == self.stalk_dims@[self.edges@[k].source as int]
                    },
            decreases n - e,
        {
            let edge = &self.edges[e];
            if edge.source >= self.stalk_dims.len() || edge.target >= self.stalk_dims.len() {
                return false;
            }
            if edge.restriction.rows != self.stalk_dims[edge.target]
                || edge.restriction.cols != self.stalk_dims[edge.source] {
                return false;
            }
            e = e + 1;
        }
        true
    }

    /// Total dimension of C⁰ (direct sum of all stalks).
    pub fn total_c0_dim(&self) -> (n: usize)
        requires
            self.c0_dim() <= usize::MAX,
        ensures
            n == self.c0_dim(),
    {
        total_dim(&self.stalk_dims)
    }

    /// The dimension of the target stalk of each edge, in edge order.
    fn target_dims_vec(&self) -> (dims: Vec<usize>)
        requires
            self.edges_in_range(),
        ensures
            dims@ == self.target_dims(),
    {
        let mut dims: Vec<usize> = Vec::new();
        let mut e: usize = 0;
        while e < self.edges.len()
            invariant
                self.edges_in_range(),
                e <= self.edges@.len(),
                dims@ =~= self.target_dims().take(e as int),
            decreases self.edges@.len() - e,
        {
            let t = self.edges[e].target;
            dims.push(self.stalk_dims[t]);
            e = e + 1;
        }
        assert(self.target_dims().take(self.edges@.len() as int) =~= self.target_dims());
        dims
    }

    /// Total dimension of C¹ (sum of target stalk dims over all edges).
    pub fn total_c1_dim(&self) -> (m: usize)
        requires
            self.edges_in_range(),
            self.c1_dim() <= usize::MAX,
        ensures
            m == self.c1_dim(),
    {
        let dims = self.target_dims_vec();
        total_dim(&dims)
    }

    /// Offsets of the node blocks in C⁰.
    pub(crate) fn node_offsets(&self) -> (offsets: Vec<usize>)
        requires
            self.c0_dim() <= usize::MAX,
        ensures
            offsets@.len() == self.stalk_dims@.len(),
            forall|v: int| 0 <= v < self.stalk_dims@.len() ==> offsets@[v] == self.node_offset(v),
    {
        block_offsets(&self.stalk_dims)
    }

    /// Offsets of the edge blocks in C¹.
    pub(crate) fn edge_offsets(&self) -> (offsets: Vec<usize>)
        requires
            self.edges_in_range(),
            self.c1_dim() <= usize::MAX,
        ensures
            offsets@.len() == self.edges@.len(),
            forall|e: int| 0 <= e < self.edges@.len() ==> offsets@[e] == self.edge_offset(e),
    {
        let dims = self.target_dims_vec();
        block_offsets(&dims)
    }
}

impl<T: Copy> Sheaf<T> {
    /// Add an identity-restriction edge between two nodes whose stalks have
    /// the same dimension; `zero` and `one` are the entries of the identity.
    pub fn add_identity_edge(&mut self, source: usize, target: usize, zero: T, one: T)
        requires
            source < old(self).stalk_dims@.len(),
            target < old(self).stalk_dims@.len(),
            old(self).stalk_dims@[source as int] == old(self).stalk_dims@[target as int],
            old(self).stalk_dims@[source as int] * old(self).stalk_dims@[source as int]
                <= usize::MAX,
        ensures
            final(self).stalk_dims@ == old(self).stalk_dims@,
            final(self).edges@.len() == old(self).edges@.len() + 1,
            forall|e: int|
                0 <= e < old(self).edges@.len() ==> #[trigger] final(self).edges@[e]
                    == old(self).edges@[e],
            final(self).edges@.last().source == source,
            final(self).edges@.last().target == target,
            ({
                let r = final(self).edges@.last().restriction;
                let d = old(self).stalk_dims@[source as int];
                &&& r.rows == d
                &&& r.cols == d
                &&& r.wf()
                &&& forall|i: int, j: int|
                    0 <= i < d && 0 <= j < d ==> #[trigger] r.entry(i, j) == if i == j {
                        one
                    } else {
                        zero
                    }
            }),
            old(self).wf() ==> final(self).wf(),
            final(self).target_dims() == old(self).target_dims().push(
                old(self).stalk_dims@[target as int],
            ),
            final(self).c0_dim() == old(self).c0_dim(),
            final(self).c1_dim() == old(self).c1_dim() + old(self).stalk_dims@[target as int],
    {
        let d = self.stalk_dims[source];
        self.add_edge(source, target, Matrix::identity(d, zero, one));
    }
}

} // verus!
