//! Sparse descriptions of the matrices built from a sheaf: the coboundary
//! operator δ: C⁰ → C¹ and the connection Laplacian. An assembly names, cell
//! by cell and in order, what each edge contributes; the values themselves
//! come from the restriction maps.
use vstd::prelude::*;

use crate::sheaf::{Sheaf, lemma_block_within, lemma_prefix_mono, prefix_sum};

verus! {

/// The shape of a block of contributions taken from one edge's restriction
/// map `F`.
#[derive(Clone, Copy, Debug, PartialEq, Eq, Structural)]
pub enum BlockKind {
    /// Cell `(i, j)` of the block is `-F(i, j)`.
    NegRestriction,
    /// Cell `(i, j)` of the block is `-Fᵀ(i, j)`, that is `-F(j, i)`.
    NegRestrictionTransposed,
    /// Cell `(i, j)` of the block is `(FᵀF)(i, j)`.
    Gram,
}

/// The value one assembly entry contributes.
#[derive(Clone, Copy, Debug, PartialEq, Eq, Structural)]
pub enum Term {
    /// `-F(i, j)` for the restriction map `F` of edge `edge`.
    NegRestriction { edge: usize, i: usize, j: usize },
    /// `-Fᵀ(i, j)`, that is `-F(j, i)`, for the restriction map `F` of
    /// edge `edge`.
    NegRestrictionTransposed { edge: usize, i: usize, j: usize },
    /// `(FᵀF)(i, j)` for the restriction map `F` of edge `edge`.
    Gram { edge: usize, i: usize, j: usize },
    /// The constant one.
    One,
}

/// One contribution to a cell of the assembled matrix.
#[derive(Clone, Copy, Debug, PartialEq, Eq, Structural)]
pub struct Entry {
    pub row: usize,
    pub col: usize,
    pub term: Term,
    /// Whether the term's value is added to the cell (`true`) or written
    /// over it (`false`).
    pub accumulate: bool,
}

/// A `rows x cols` matrix described by its contributions: start from the
/// zero matrix and apply `entries` in order.
pub struct Assembly {
    pub rows: usize,
    pub cols: usize,
    pub entries: Vec<Entry>,
}

/// The term of a block cell.
pub open spec fn block_term(kind: BlockKind, edge: usize, i: int, j: int) -> Term {
    match kind {
        BlockKind::NegRestriction => Term::NegRestriction { edge, i: i as usize, j: j as usize },
        BlockKind::NegRestrictionTransposed => Term::NegRestrictionTransposed {
            edge,
            i: i as usize,
            j: j as usize,
        },
        BlockKind::Gram => Term::Gram { edge, i: i as usize, j: j as usize },
    }
}

/// Cell `(i, j)` of a block placed with its corner at `(row_off, col_off)`.
pub open spec fn block_entry(
    kind: BlockKind,
    edge: usize,
    row_off: int,
    col_off: int,
    accumulate: bool,
    i: int,
    j: int,
) -> Entry {
    Entry {
        row: (row_off + i) as usize,
        col: (col_off + j) as usize,
        term: block_term(kind, edge, i, j),
        accumulate,
    }
}

/// Row `i` of a block with `c` columns.
pub open spec fn block_row(
    kind: BlockKind,
    edge: usize,
    row_off: int,
    col_off: int,
    accumulate: bool,
    i: int,
    c: nat,
) -> Seq<Entry> {
    Seq::new(c, |j: int| block_entry(kind, edge, row_off, col_off, accumulate, i, j))
}

/// The first `r` rows of a block with `c` columns, row by row.
pub open spec fn block_rows(
    kind: BlockKind,
    edge: usize,
    row_off: int,
    col_off: int,
    accumulate: bool,
    r: nat,
    c: nat,
) -> Seq<Entry>
    decreases r,
{
    if r == 0 {
        Seq::empty()
    } else {
        block_rows(kind, edge, row_off, col_off, accumulate, (r - 1) as nat, c) + block_row(
            kind,
            edge,
            row_off,
            col_off,
            accumulate,
            r - 1,
            c,
        )
    }
}

/// Entry `i` of a diagonal of ones with its corner at `(row_off, col_off)`.
pub open spec fn diag_entry(row_off: int, col_off: int, i: int) -> Entry {
    Entry { row: (row_off + i) as usize, col: (col_off + i) as usize, term: Term::One, accumulate: true }
}

/// A diagonal of `d` ones with its corner at `(row_off, col_off)`, each
/// added to its cell.
pub open spec fn diag_entries(row_off: int, col_off: int, d: nat) -> Seq<Entry> {
    Seq::new(d, |i: int| diag_entry(row_off, col_off, i))
}

/// An element of a concatenation comes from one of its two parts.
proof fn lemma_concat_member<A>(a: Seq<A>, b: Seq<A>, x: A)
    requires
        (a + b).contains(x),
    ensures
        a.contains(x) || b.contains(x),
{
    let k = choose|k: int| 0 <= k < (a + b).len() && (a + b)[k] == x;
    if k < a.len() {
        assert(a[k] == x);
    } else {
        assert(b[k - a.len()] == x);
    }
}

/// Both parts of a concatenation are contained in it.
proof fn lemma_concat_keeps<A>(a: Seq<A>, b: Seq<A>, x: A)
    requires
        a.contains(x) || b.contains(x),
    ensures
        (a + b).contains(x),
{
    if a.contains(x) {
        let k = choose|k: int| 0 <= k < a.len() && a[k] == x;
        assert((a + b)[k] == x);
    } else {
        let k = choose|k: int| 0 <= k < b.len() && b[k] == x;
        assert((a + b)[a.len() + k] == x);
    }
}

/// Every entry of a block is one of its cells.
proof fn lemma_block_rows_member(
    kind: BlockKind,
    edge: usize,
    row_off: int,
    col_off: int,
    accumulate: bool,
    r: nat,
    c: nat,
    x: Entry,
) -> (ij: (int, int))
    requires
        block_rows(kind, edge, row_off, col_off, accumulate, r, c).contains(x),
    ensures
        0 <= ij.0 < r,
        0 <= ij.1 < c,
        x == block_entry(kind, edge, row_off, col_off, accumulate, ij.0, ij.1),
    decreases r,
{
    if r == 0 {
        assert(false);
        (0, 0)
    } else {
        let prev = block_rows(kind, edge, row_off, col_off, accumulate, (r - 1) as nat, c);
        let last = block_row(kind, edge, row_off, col_off, accumulate, r - 1, c);
        lemma_concat_member(prev, last, x);
        if prev.contains(x) {
            lemma_block_rows_member(kind, edge, row_off, col_off, accumulate, (r - 1) as nat, c, x)
        } else {
            let j = choose|j: int| 0 <= j < last.len() && last[j] == x;
            (r - 1, j)
        }
    }
}

/// Every cell of a block is one of its entries.
proof fn lemma_block_rows_has(
    kind: BlockKind,
    edge: usize,
    row_off: int,
    col_off: int,
    accumulate: bool,
    r: nat,
    c: nat,
    i: int,
    j: int,
)
    requires
        0 <= i < r,
        0 <= j < c,
    ensures
        block_rows(kind, edge, row_off, col_off, accumulate, r, c).contains(
            block_entry(kind, edge, row_off, col_off, accumulate, i, j),
        ),
    decreases r,
{
    let prev = block_rows(kind, edge, row_off, col_off, accumulate, (r - 1) as nat, c);
    let last = block_row(kind, edge, row_off, col_off, accumulate, r - 1, c);
    let x = block_entry(kind, edge, row_off, col_off, accumulate, i, j);
    if i < r - 1 {
        lemma_block_rows_has(kind, edge, row_off, col_off, accumulate, (r - 1) as nat, c, i, j);
    } else {
        assert(last[j] == x);
    }
    lemma_concat_keeps(prev, last, x);
}

fn make_term(kind: BlockKind, edge: usize, i: usize, j: usize) -> (t: Term)
    ensures
        t == block_term(kind, edge, i as int, j as int),
{
    match kind {
        BlockKind::NegRestriction => Term::NegRestriction { edge, i, j },
        BlockKind::NegRestrictionTransposed => Term::NegRestrictionTransposed { edge, i, j },
        BlockKind::Gram => Term::Gram { edge, i, j },
    }
}

/// Append the cells of an `r x c` block, row by row.
fn push_block(
    out: &mut Vec<Entry>,
    kind: BlockKind,
    edge: usize,
    row_off: usize,
    col_off: usize,
    accumulate: bool,
    r: usize,
    c: usize,
)
    requires
        row_off + r <= usize::MAX,
        col_off + c <= usize::MAX,
    ensures
        final(out)@ == old(out)@ + block_rows(
            kind,
            edge,
            row_off as int,
            col_off as int,
            accumulate,
            r as nat,
            c as nat,
        ),
{
    let ghost start = out@;
    let mut i: usize = 0;
    assert(out@ =~= start + block_rows(kind, edge, row_off as int, col_off as int, accumulate, 0, c as nat));
    while i < r
        invariant
            row_off + r <= usize::MAX,
            col_off + c <= usize::MAX,
            i <= r,
            out@ == start + block_rows(
                kind,
                edge,
                row_off as int,
                col_off as int,
                accumulate,
                i as nat,
                c as nat,
            ),
        decreases r - i,
    {
        let ghost before = out@;
        let mut j: usize = 0;
        while j < c
            invariant
                row_off + r <= usize::MAX,
                col_off + c <= usize::MAX,
                i < r,
                j <= c,
                out@ == before + block_row(
                    kind,
                    edge,
                    row_off as int,
                    col_off as int,
                    accumulate,
                    i as int,
                    c as nat,
                ).take(j as int),
            decreases c - j,
        {
            let term = make_term(kind, edge, i, j);
            out.push(Entry { row: row_off + i, col: col_off + j, term, accumulate });
            assert(out@ =~= before + block_row(
                kind,
                edge,
                row_off as int,
                col_off as int,
                accumulate,
                i as int,
                c as nat,
            ).take(j + 1));
            j = j + 1;
        }
        assert(out@ =~= start + block_rows(
            kind,
            edge,
            row_off as int,
            col_off as int,
            accumulate,
            (i + 1) as nat,
            c as nat,
        ));
        i = i + 1;
    }
}

/// Append a diagonal of `d` ones with its corner at `(row_off, col_off)`.
fn push_diag(out: &mut Vec<Entry>, row_off: usize, col_off: usize, d: usize)
    requires
        row_off + d <= usize::MAX,
        col_off + d <= usize::MAX,
    ensures
        final(out)@ == old(out)@ + diag_entries(row_off as int, col_off as int, d as nat),
{
    let ghost start = out@;
    let mut i: usize = 0;
    while i < d
        invariant
            row_off + d <= usize::MAX,
            col_off + d <= usize::MAX,
            i <= d,
            out@ == start + diag_entries(row_off as int, col_off as int, d as nat).take(i as int),
        decreases d - i,
    {
        out.push(Entry { row: row_off + i, col: col_off + i, term: Term::One, accumulate: true });
        assert(out@ =~= start + diag_entries(row_off as int, col_off as int, d as nat).take(i + 1));
        i = i + 1;
    }
    assert(diag_entries(row_off as int, col_off as int, d as nat).take(d as int) =~= diag_entries(
        row_off as int,
        col_off as int,
        d as nat,
    ));
}

impl<T> Sheaf<T> {
    /// The contributions of edge `e` to the coboundary: `-F` placed (by
    /// assignment) in the edge's row block and the source's column block,
    /// then the identity added in the edge's row block and the target's
    /// column block.
    pub open spec fn coboundary_block(&self, e: int) -> Seq<Entry> {
        let edge = self.edges@[e];
        let row_off = self.edge_offset(e) as int;
        block_rows(
            BlockKind::NegRestriction,
            e as usize,
            row_off,
            self.node_offset(edge.source as int) as int,
            false,
            edge.restriction.rows as nat,
            edge.restriction.cols as nat,
        ) + diag_entries(
            row_off,
            self.node_offset(edge.target as int) as int,
            self.stalk_dims@[edge.target as int] as nat,
        )
    }

    /// The coboundary contributions of the first `n` edges, edge by edge.
    pub open spec fn coboundary_entries(&self, n: int) -> Seq<Entry>
        decreases n,
    {
        if n <= 0 {
            Seq::empty()
        } else {
            self.coboundary_entries(n - 1) + self.coboundary_block(n - 1)
        }
    }

    /// Build the coboundary operator δ: C⁰ → C¹ as an assembly of shape
    /// `total_c1_dim x total_c0_dim`.
    ///
    /// For each edge e = (s → t), the row block of e gets `-F_e` in the
    /// s-block and the identity added in the t-block.
    pub fn coboundary(&self) -> (a: Assembly)
        requires
            self.wf(),
            self.dims_fit(),
        ensures
            a.rows == self.c1_dim(),
            a.cols == self.c0_dim(),
            a.entries@ == self.coboundary_entries(self.edges@.len() as int),
            forall|x: Entry| #[trigger] a.entries@.contains(x) ==> coboundary_placed(*self, x),
            forall|e: int, i: int, j: int|
                0 <= e < self.edges@.len() && 0 <= i < self.edges@[e].restriction.rows && 0 <= j
                    < self.edges@[e].restriction.cols ==> #[trigger] a.entries@.to_multiset().count(
                    (Entry {
                        row: (self.edge_offset(e) + i) as usize,
                        col: (self.node_offset(self.edges@[e].source as int) + j) as usize,
                        term: Term::NegRestriction { edge: e as usize, i: i as usize, j: j as usize },
                        accumulate: false,
                    }),
                ) == 1,
            forall|e: int, k: int|
                0 <= e < self.edges@.len() && 0 <= k < self.stalk_dims@[self.edges@[e].target as int]
                    ==> #[trigger] a.entries@.to_multiset().count(
                    (Entry {
                        row: (self.edge_offset(e) + k) as usize,
                        col: (self.node_offset(self.edges@[e].target as int) + k) as usize,
                        term: Term::One,
                        accumulate: true,
                    }),
                ) == 1,
    {
        let n = self.total_c0_dim();
        let m = self.total_c1_dim();
        let node_offsets = self.node_offsets();
        let edge_offsets = self.edge_offsets();
        let mut entries: Vec<Entry> = Vec::new();
        let mut e: usize = 0;
        while e < self.edges.len()
            invariant
                self.wf(),
                self.dims_fit(),
                e <= self.edges@.len(),
                node_offsets@.len() == self.stalk_dims@.len(),
                forall|v: int|
                    0 <= v < self.stalk_dims@.len() ==> node_offsets@[v] == self.node_offset(v),
                edge_offsets@.len() == self.edges@.len(),
                forall|k: int| 0 <= k < self.edges@.len() ==> edge_offsets@[k] == self.edge_offset(k),
                entries@ == self.coboundary_entries(e as int),
            decreases self.edges@.len() - e,
        {
            let edge = &self.edges[e];
            let row_off = edge_offsets[e];
            let s = edge.source;
            let t = edge.target;
            proof {
                assert(self.edges@[e as int] == *edge);
                lemma_block_within(self.target_dims(), e as int);
                lemma_block_within(self.stalk_dims@, s as int);
                lemma_block_within(self.stalk_dims@, t as int);
            }
            push_block(
                &mut entries,
                BlockKind::NegRestriction,
                e,
                row_off,
                node_offsets[s],
                false,
                edge.restriction.rows,
                edge.restriction.cols,
            );
            push_diag(&mut entries, row_off, node_offsets[t], self.stalk_dims[t]);
            proof {
                assert(entries@ =~= self.coboundary_entries(e + 1));
            }
            e = e + 1;
        }
        assert forall|x: Entry| #[trigger] entries@.contains(x) implies coboundary_placed(*self, x) by {
            law_coboundary_placement(*self, x);
        }
        assert forall|e: int, i: int, j: int|
            0 <= e < self.edges@.len() && 0 <= i < self.edges@[e].restriction.rows && 0 <= j
                < self.edges@[e].restriction.cols implies #[trigger] entries@.to_multiset().count(
                (Entry {
                    row: (self.edge_offset(e) + i) as usize,
                    col: (self.node_offset(self.edges@[e].source as int) + j) as usize,
                    term: Term::NegRestriction { edge: e as usize, i: i as usize, j: j as usize },
                    accumulate: false,
                }),
            ) == 1 by {
            law_coboundary_restriction_cells(*self, e, i, j);
        }
        assert forall|e: int, k: int|
            0 <= e < self.edges@.len() && 0 <= k < self.stalk_dims@[self.edges@[e].target as int]
                implies #[trigger] entries@.to_multiset().count(
                (Entry {
                    row: (self.edge_offset(e) + k) as usize,
                    col: (self.node_offset(self.edges@[e].target as int) + k) as usize,
                    term: Term::One,
                    accumulate: true,
                }),
            ) == 1 by {
            law_coboundary_identity_cells(*self, e, k);
        }
        Assembly { rows: m, cols: n, entries }
    }

    /// The contributions of edge e = (s → t) with restriction `F` to the
    /// connection Laplacian, each added to its cell: `FᵀF` on block (s, s),
    /// the identity on block (t, t), `-Fᵀ` on block (s, t) and `-F` on
    /// block (t, s).
    pub open spec fn connection_block(&self, e: int) -> Seq<Entry> {
        let edge = self.edges@[e];
        let os = self.node_offset(edge.source as int) as int;
        let ot = self.node_offset(edge.target as int) as int;
        let ds = edge.restriction.cols as nat;
        let dt = edge.restriction.rows as nat;
        block_rows(BlockKind::Gram, e as usize, os, os, true, ds, ds) + diag_entries(ot, ot, dt)
            + block_rows(BlockKind::NegRestrictionTransposed, e as usize, os, ot, true, ds, dt)
            + block_rows(BlockKind::NegRestriction, e as usize, ot, os, true, dt, ds)
    }

    /// The connection Laplacian contributions of the first `n` edges, edge by
    /// edge.
    pub open spec fn connection_entries(&self, n: int) -> Seq<Entry>
        decreases n,
    {
        if n <= 0 {
            Seq::empty()
        } else {
            self.connection_entries(n - 1) + self.connection_block(n - 1)
        }
    }

    /// Build the connection Laplacian as an assembly of shape
    /// `total_c0_dim x total_c0_dim`: for edge (i, j) with restriction F,
    /// L += [[FᵀF, -Fᵀ], [-F, I]] on blocks (i, j).
    pub fn connection_laplacian(&self) -> (a: Assembly)
        requires
            self.wf(),
            self.c0_dim() <= usize::MAX,
        ensures
            a.rows == self.c0_dim(),
            a.cols == self.c0_dim(),
            a.entries@ == self.connection_entries(self.edges@.len() as int),
            forall|x: Entry| #[trigger] a.entries@.contains(x) ==> connection_placed(*self, x),
            forall|e: int, i: int, j: int|
                0 <= e < self.edges@.len() && 0 <= i < self.edges@[e].restriction.cols && 0 <= j
                    < self.edges@[e].restriction.cols ==> #[trigger] a.entries@.to_multiset().count(
                    (Entry {
                        row: (self.node_offset(self.edges@[e].source as int) + i) as usize,
                        col: (self.node_offset(self.edges@[e].source as int) + j) as usize,
                        term: Term::Gram { edge: e as usize, i: i as usize, j: j as usize },
                        accumulate: true,
                    }),
                ) == 1,
            forall|e: int, i: int, j: int|
                0 <= e < self.edges@.len() && 0 <= i < self.edges@[e].restriction.cols && 0 <= j
                    < self.edges@[e].restriction.rows ==> #[trigger] a.entries@.to_multiset().count(
                    (Entry {
                        row: (self.node_offset(self.edges@[e].source as int) + i) as usize,
                        col: (self.node_offset(self.edges@[e].target as int) + j) as usize,
                        term: Term::NegRestrictionTransposed {
                            edge: e as usize,
                            i: i as usize,
                            j: j as usize,
                        },
                        accumulate: true,
                    }),
                ) == 1 && a.entries@.to_multiset().count(
                    (Entry {
                        row: (self.node_offset(self.edges@[e].target as int) + j) as usize,
                        col: (self.node_offset(self.edges@[e].source as int) + i) as usize,
                        term: Term::NegRestriction { edge: e as usize, i: j as usize, j: i as usize },
                        accumulate: true,
                    }),
                ) == 1,
            forall|v: int, k: int|
                0 <= v < self.stalk_dims@.len() && 0 <= k < self.stalk_dims@[v]
                    ==> #[trigger] a.entries@.to_multiset().count(
                    (Entry {
                        row: (self.node_offset(v) + k) as usize,
                        col: (self.node_offset(v) + k) as usize,
                        term: Term::One,
                        accumulate: true,
                    }),
                ) == self.in_degree(v, self.edges@.len() as int),
    {
        let n = self.total_c0_dim();
        let node_offsets = self.node_offsets();
        let mut entries: Vec<Entry> = Vec::new();
        let mut e: usize = 0;
        while e < self.edges.len()
            invariant
                self.wf(),
                self.c0_dim() <= usize::MAX,
                e <= self.edges@.len(),
                node_offsets@.len() == self.stalk_dims@.len(),
                forall|v: int|
                    0 <= v < self.stalk_dims@.len() ==> node_offsets@[v] == self.node_offset(v),
                entries@ == self.connection_entries(e as int),
            decreases self.edges@.len() - e,
        {
            let edge = &self.edges[e];
            let s = edge.source;
            let t = edge.target;
            let off_s = node_offsets[s];
            let off_t = node_offsets[t];
            let d_s = edge.restriction.cols;
            let d_t = edge.restriction.rows;
            proof {
                assert(self.edges@[e as int] == *edge);
                lemma_block_within(self.stalk_dims@, s as int);
                lemma_block_within(self.stalk_dims@, t as int);
            }
            let ghost before = entries@;
            push_block(&mut entries, BlockKind::Gram, e, off_s, off_s, true, d_s, d_s);
            push_diag(&mut entries, off_t, off_t, d_t);
            push_block(&mut entries, BlockKind::NegRestrictionTransposed, e, off_s, off_t, true, d_s, d_t);
            push_block(&mut entries, BlockKind::NegRestriction, e, off_t, off_s, true, d_t, d_s);
            proof {
                assert(entries@ =~= self.connection_entries(e + 1));
            }
            e = e + 1;
        }
        assert forall|x: Entry| #[trigger] entries@.contains(x) implies connection_placed(*self, x) by {
            law_connection_placement(*self, x);
        }
        assert forall|e: int, i: int, j: int|
            0 <= e < self.edges@.len() && 0 <= i < self.edges@[e].restriction.cols && 0 <= j
                < self.edges@[e].restriction.cols implies #[trigger] entries@.to_multiset().count(
                (Entry {
                    row: (self.node_offset(self.edges@[e].source as int) + i) as usize,
                    col: (self.node_offset(self.edges@[e].source as int) + j) as usize,
                    term: Term::Gram { edge: e as usize, i: i as usize, j: j as usize },
                    accumulate: true,
                }),
            ) == 1 by {
            law_connection_gram_cells(*self, e, i, j);
        }
        assert forall|e: int, i: int, j: int|
            0 <= e < self.edges@.len() && 0 <= i < self.edges@[e].restriction.cols && 0 <= j
                < self.edges@[e].restriction.rows implies #[trigger] entries@.to_multiset().count(
                (Entry {
                    row: (self.node_offset(self.edges@[e].source as int) + i) as usize,
                    col: (self.node_offset(self.edges@[e].target as int) + j) as usize,
                    term: Term::NegRestrictionTransposed {
                        edge: e as usize,
                        i: i as usize,
                        j: j as usize,
                    },
                    accumulate: true,
                }),
            ) == 1 && entries@.to_multiset().count(
                (Entry {
                    row: (self.node_offset(self.edges@[e].target as int) + j) as usize,
                    col: (self.node_offset(self.edges@[e].source as int) + i) as usize,
                    term: Term::NegRestriction { edge: e as usize, i: j as usize, j: i as usize },
                    accumulate: true,
                }),
            ) == 1 by {
            law_connection_off_diagonal_cells(*self, e, i, j);
        }
        assert forall|v: int, k: int|
            0 <= v < self.stalk_dims@.len() && 0 <= k < self.stalk_dims@[v]
                implies #[trigger] entries@.to_multiset().count(
                (Entry {
                    row: (self.node_offset(v) + k) as usize,
                    col: (self.node_offset(v) + k) as usize,
                    term: Term::One,
                    accumulate: true,
                }),
            ) == self.in_degree(v, self.edges@.len() as int) by {
            law_connection_identity_cells(*self, v, k);
        }
        Assembly { rows: n, cols: n, entries }
    }
}

} // verus!

verus! {

/// An entry with its row and column exchanged and its term transposed.
pub open spec fn mirror(x: Entry) -> Entry {
    Entry { row: x.col, col: x.row, term: transposed_term(x.term), accumulate: x.accumulate }
}

/// The term found at the transposed position: `(FᵀF)(i, j)` becomes
/// `(FᵀF)(j, i)`, `-F(i, j)` becomes `-Fᵀ(j, i)` and back, and one stays one.
pub open spec fn transposed_term(t: Term) -> Term {
    match t {
        Term::NegRestriction { edge, i, j } => Term::NegRestrictionTransposed { edge, i: j, j: i },
        Term::NegRestrictionTransposed { edge, i, j } => Term::NegRestriction { edge, i: j, j: i },
        Term::Gram { edge, i, j } => Term::Gram { edge, i: j, j: i },
        Term::One => Term::One,
    }
}

/// The coboundary entry `x` came from the block of some edge.
proof fn lemma_coboundary_member<T>(s: Sheaf<T>, n: int, x: Entry) -> (e: int)
    requires
        s.coboundary_entries(n).contains(x),
    ensures
        0 <= e < n,
        s.coboundary_block(e).contains(x),
    decreases n,
{
    if n <= 0 {
        assert(false);
        0
    } else {
        lemma_concat_member(s.coboundary_entries(n - 1), s.coboundary_block(n - 1), x);
        if s.coboundary_entries(n - 1).contains(x) {
            lemma_coboundary_member(s, n - 1, x)
        } else {
            n - 1
        }
    }
}

/// The connection Laplacian entry `x` came from the block of some edge.
proof fn lemma_connection_member<T>(s: Sheaf<T>, n: int, x: Entry) -> (e: int)
    requires
        s.connection_entries(n).contains(x),
    ensures
        0 <= e < n,
        s.connection_block(e).contains(x),
    decreases n,
{
    if n <= 0 {
        assert(false);
        0
    } else {
        lemma_concat_member(s.connection_entries(n - 1), s.connection_block(n - 1), x);
        if s.connection_entries(n - 1).contains(x) {
            lemma_connection_member(s, n - 1, x)
        } else {
            n - 1
        }
    }
}

/// Every entry of an edge's block is among the connection Laplacian entries.
proof fn lemma_connection_has<T>(s: Sheaf<T>, n: int, e: int, x: Entry)
    requires
        0 <= e < n,
        s.connection_block(e).contains(x),
    ensures
        s.connection_entries(n).contains(x),
    decreases n,
{
    if e < n - 1 {
        lemma_connection_has(s, n - 1, e, x);
    }
    lemma_concat_keeps(s.connection_entries(n - 1), s.connection_block(n - 1), x);
}

/// The row block of edge `e` in C¹ lies inside C¹ and ends where the next
/// one starts.
proof fn lemma_edge_block<T>(s: Sheaf<T>, e: int)
    requires
        s.wf(),
        0 <= e < s.edges@.len(),
    ensures
        s.edge_offset(e) + s.edges@[e].restriction.rows == s.edge_offset(e + 1),
        s.edge_offset(e + 1) <= s.c1_dim(),
{
    lemma_block_within(s.target_dims(), e);
}

/// Edge `e` of the coboundary only touches the rows of its own block.
proof fn lemma_coboundary_block_rows<T>(s: Sheaf<T>, e: int, x: Entry)
    requires
        s.wf(),
        s.dims_fit(),
        0 <= e < s.edges@.len(),
        s.coboundary_block(e).contains(x),
    ensures
        s.edge_offset(e) <= x.row < s.edge_offset(e + 1),
        x.col < s.c0_dim(),
        match x.term {
            Term::NegRestriction { edge, i, j } => {
                &&& edge == e
                &&& i < s.edges@[e].restriction.rows
                &&& j < s.edges@[e].restriction.cols
                &&& !x.accumulate
                &&& x.row == s.edge_offset(e) + i
                &&& x.col == s.node_offset(s.edges@[e].source as int) + j
            },
            Term::One => {
                &&& x.accumulate
                &&& x.row - s.edge_offset(e) < s.stalk_dims@[s.edges@[e].target as int]
                &&& x.col == s.node_offset(s.edges@[e].target as int) + (x.row - s.edge_offset(e))
            },
            _ => false,
        },
{
    lemma_edge_block(s, e);
    lemma_edge_block_nodes(s, e);
    let edge = s.edges@[e];
    let ro = s.edge_offset(e) as int;
    let a = block_rows(
        BlockKind::NegRestriction,
        e as usize,
        ro,
        s.node_offset(edge.source as int) as int,
        false,
        edge.restriction.rows as nat,
        edge.restriction.cols as nat,
    );
    let b = diag_entries(
        ro,
        s.node_offset(edge.target as int) as int,
        s.stalk_dims@[edge.target as int] as nat,
    );
    lemma_concat_member(a, b, x);
    if a.contains(x) {
        let ij = lemma_block_rows_member(
            BlockKind::NegRestriction,
            e as usize,
            ro,
            s.node_offset(edge.source as int) as int,
            false,
            edge.restriction.rows as nat,
            edge.restriction.cols as nat,
            x,
        );
    } else {
        let i = choose|i: int| 0 <= i < b.len() && b[i] == x;
    }
}

/// Every contribution to the coboundary lies inside its `C¹ x C⁰` shape and
/// names an existing cell of an existing edge's restriction map; the `-F`
/// cells are assigned and the ones are added.
pub proof fn law_coboundary_entries_valid<T>(s: Sheaf<T>, x: Entry)
    requires
        s.wf(),
        s.dims_fit(),
        s.coboundary_entries(s.edges@.len() as int).contains(x),
    ensures
        x.row < s.c1_dim(),
        x.col < s.c0_dim(),
        match x.term {
            Term::NegRestriction { edge, i, j } => {
                &&& edge < s.edges@.len()
                &&& i < s.edges@[edge as int].restriction.rows
                &&& j < s.edges@[edge as int].restriction.cols
                &&& !x.accumulate
            },
            Term::One => x.accumulate,
            _ => false,
        },
{
    let e = lemma_coboundary_member(s, s.edges@.len() as int, x);
    lemma_coboundary_block_rows(s, e, x);
    lemma_edge_block(s, e);
}

/// Distinct edges contribute to distinct rows of the coboundary: every row
/// touched by an earlier edge comes before every row touched by a later one.
/// So no cell receives contributions from two edges.
pub proof fn law_coboundary_edges_disjoint<T>(s: Sheaf<T>, e1: int, e2: int, x: Entry, y: Entry)
    requires
        s.wf(),
        s.dims_fit(),
        0 <= e1 < e2 < s.edges@.len(),
        s.coboundary_block(e1).contains(x),
        s.coboundary_block(e2).contains(y),
    ensures
        x.row < y.row,
{
    lemma_coboundary_block_rows(s, e1, x);
    lemma_coboundary_block_rows(s, e2, y);
    crate::sheaf::lemma_prefix_mono(s.target_dims(), e1 + 1, e2);
}

/// What each entry of one edge's connection Laplacian block satisfies: it
/// lies inside `C⁰ x C⁰`, is added to its cell, names an existing cell of the
/// edge's restriction map, and its mirror is in the same block.
proof fn lemma_connection_block_entry<T>(s: Sheaf<T>, e: int, x: Entry)
    requires
        s.wf(),
        s.c0_dim() <= usize::MAX,
        0 <= e < s.edges@.len(),
        s.connection_block(e).contains(x),
    ensures
        x.row < s.c0_dim(),
        x.col < s.c0_dim(),
        x.accumulate,
        connection_term_valid(s, x.term),
        s.connection_block(e).contains(mirror(x)),
        connection_placed_for_edge(s, e, x),
{
    lemma_edge_block_nodes(s, e);
    let edge = s.edges@[e];
    let eu = e as usize;
    let os = s.node_offset(edge.source as int) as int;
    let ot = s.node_offset(edge.target as int) as int;
    let ds = edge.restriction.cols as nat;
    let dt = edge.restriction.rows as nat;
    let g = block_rows(BlockKind::Gram, eu, os, os, true, ds, ds);
    let d = diag_entries(ot, ot, dt);
    let nt = block_rows(BlockKind::NegRestrictionTransposed, eu, os, ot, true, ds, dt);
    let n = block_rows(BlockKind::NegRestriction, eu, ot, os, true, dt, ds);
    assert(s.connection_block(e) == g + d + nt + n);
    lemma_concat_member(g + d + nt, n, x);
    if (g + d + nt).contains(x) {
        lemma_concat_member(g + d, nt, x);
        if (g + d).contains(x) {
            lemma_concat_member(g, d, x);
            if g.contains(x) {
                let ij = lemma_block_rows_member(BlockKind::Gram, eu, os, os, true, ds, ds, x);
                lemma_block_rows_has(BlockKind::Gram, eu, os, os, true, ds, ds, ij.1, ij.0);
                assert(mirror(x) == block_entry(BlockKind::Gram, eu, os, os, true, ij.1, ij.0));
                lemma_concat_keeps(g, d, mirror(x));
            } else {
                let i = choose|i: int| 0 <= i < d.len() && d[i] == x;
                assert(mirror(x) == x);
                lemma_concat_keeps(g, d, mirror(x));
            }
            lemma_concat_keeps(g + d, nt, mirror(x));
        } else {
            let ij = lemma_block_rows_member(BlockKind::NegRestrictionTransposed, eu, os, ot, true, ds, dt, x);
            lemma_block_rows_has(BlockKind::NegRestriction, eu, ot, os, true, dt, ds, ij.1, ij.0);
            assert(mirror(x) == block_entry(BlockKind::NegRestriction, eu, ot, os, true, ij.1, ij.0));
            lemma_concat_keeps(g + d + nt, n, mirror(x));
        }
        lemma_concat_keeps(g + d + nt, n, mirror(x));
    } else {
        let ij = lemma_block_rows_member(BlockKind::NegRestriction, eu, ot, os, true, dt, ds, x);
        lemma_block_rows_has(BlockKind::NegRestrictionTransposed, eu, os, ot, true, ds, dt, ij.1, ij.0);
        assert(mirror(x) == block_entry(BlockKind::NegRestrictionTransposed, eu, os, ot, true, ij.1, ij.0));
        lemma_concat_keeps(g + d, nt, mirror(x));
        lemma_concat_keeps(g + d + nt, n, mirror(x));
    }
}

/// The node blocks of both ends of edge `e` lie inside C⁰.
proof fn lemma_edge_block_nodes<T>(s: Sheaf<T>, e: int)
    requires
        s.wf(),
        0 <= e < s.edges@.len(),
    ensures
        s.node_offset(s.edges@[e].source as int) + s.edges@[e].restriction.cols <= s.c0_dim(),
        s.node_offset(s.edges@[e].target as int) + s.edges@[e].restriction.rows <= s.c0_dim(),
{
    lemma_block_within(s.stalk_dims@, s.edges@[e].source as int);
    lemma_block_within(s.stalk_dims@, s.edges@[e].target as int);
}

/// A connection Laplacian term names an existing cell of an existing edge's
/// restriction map `F` (for `FᵀF` and `-Fᵀ`, a cell of those matrices).
pub open spec fn connection_term_valid<T>(s: Sheaf<T>, t: Term) -> bool {
    match t {
        Term::Gram { edge, i, j } => {
            &&& edge < s.edges@.len()
            &&& i < s.edges@[edge as int].restriction.cols
            &&& j < s.edges@[edge as int].restriction.cols
        },
        Term::NegRestrictionTransposed { edge, i, j } => {
            &&& edge < s.edges@.len()
            &&& i < s.edges@[edge as int].restriction.cols
            &&& j < s.edges@[edge as int].restriction.rows
        },
        Term::NegRestriction { edge, i, j } => {
            &&& edge < s.edges@.len()
            &&& i < s.edges@[edge as int].restriction.rows
            &&& j < s.edges@[edge as int].restriction.cols
        },
        Term::One => true,
    }
}

/// Where edge `e`'s contributions to the connection Laplacian go, given the
/// offsets `os` and `ot` of its source and target node blocks: `(FᵀF)(i, j)`
/// at `(os + i, os + j)`, `-Fᵀ(i, j)` at `(os + i, ot + j)`, `-F(i, j)` at
/// `(ot + i, os + j)`, and ones on the diagonal of the target block.
pub open spec fn connection_placed_for_edge<T>(s: Sheaf<T>, e: int, x: Entry) -> bool {
    let edge = s.edges@[e];
    let os = s.node_offset(edge.source as int);
    let ot = s.node_offset(edge.target as int);
    match x.term {
        Term::Gram { edge: te, i, j } => te == e && x.row == os + i && x.col == os + j,
        Term::NegRestrictionTransposed { edge: te, i, j } => te == e && x.row == os + i && x.col
            == ot + j,
        Term::NegRestriction { edge: te, i, j } => te == e && x.row == ot + i && x.col == os + j,
        Term::One => x.row == x.col && ot <= x.row < ot + edge.restriction.rows,
    }
}

/// Every contribution to the connection Laplacian lies inside its
/// `C⁰ x C⁰` shape, is added to its cell, and names an existing cell of an
/// existing edge's restriction map.
pub proof fn law_connection_entries_valid<T>(s: Sheaf<T>, x: Entry)
    requires
        s.wf(),
        s.c0_dim() <= usize::MAX,
        s.connection_entries(s.edges@.len() as int).contains(x),
    ensures
        x.row < s.c0_dim(),
        x.col < s.c0_dim(),
        x.accumulate,
        connection_term_valid(s, x.term),
{
    let e = lemma_connection_member(s, s.edges@.len() as int, x);
    lemma_connection_block_entry(s, e, x);
}

/// The connection Laplacian is assembled symmetrically: whenever a term is
/// added at `(r, c)`, the transposed term is added at `(c, r)`.
pub proof fn law_connection_mirror<T>(s: Sheaf<T>, x: Entry)
    requires
        s.wf(),
        s.c0_dim() <= usize::MAX,
        s.connection_entries(s.edges@.len() as int).contains(x),
    ensures
        s.connection_entries(s.edges@.len() as int).contains(mirror(x)),
{
    let e = lemma_connection_member(s, s.edges@.len() as int, x);
    lemma_connection_block_entry(s, e, x);
    lemma_connection_has(s, s.edges@.len() as int, e, mirror(x));
}

/// Every entry of a sequence mirrored, in the same order.
pub open spec fn mirrored(s: Seq<Entry>) -> Seq<Entry> {
    Seq::new(s.len(), |k: int| mirror(s[k]))
}

proof fn lemma_mirror_involution(x: Entry)
    ensures
        mirror(mirror(x)) == x,
{
}

proof fn lemma_mirrored_concat(a: Seq<Entry>, b: Seq<Entry>)
    ensures
        mirrored(a + b) == mirrored(a) + mirrored(b),
{
    assert(mirrored(a + b) =~= mirrored(a) + mirrored(b));
}

proof fn lemma_mirrored_contains(a: Seq<Entry>, x: Entry)
    ensures
        mirrored(a).contains(x) <==> a.contains(mirror(x)),
{
    if mirrored(a).contains(x) {
        let k = choose|k: int| 0 <= k < mirrored(a).len() && mirrored(a)[k] == x;
        lemma_mirror_involution(a[k]);
        assert(a[k] == mirror(x));
    }
    if a.contains(mirror(x)) {
        let k = choose|k: int| 0 <= k < a.len() && a[k] == mirror(x);
        lemma_mirror_involution(x);
        assert(mirrored(a)[k] == x);
    }
}

proof fn lemma_mirrored_no_dup(a: Seq<Entry>)
    requires
        a.no_duplicates(),
    ensures
        mirrored(a).no_duplicates(),
{
    assert forall|p: int, q: int|
        0 <= p < mirrored(a).len() && 0 <= q < mirrored(a).len() && p != q implies mirrored(a)[p]
        != mirrored(a)[q] by {
        lemma_mirror_involution(a[p]);
        lemma_mirror_involution(a[q]);
    }
}

/// In a sequence without duplicates every element occurs once.
proof fn lemma_no_dup_count<A>(s: Seq<A>, x: A)
    requires
        s.no_duplicates(),
    ensures
        s.to_multiset().count(x) == if s.contains(x) {
            1nat
        } else {
            0nat
        },
{
    s.lemma_multiset_has_no_duplicates();
    vstd::seq_lib::to_multiset_contains(s, x);
    broadcast use vstd::multiset::group_multiset_axioms;

}

/// Two sequences without duplicates and with the same elements have the same
/// multiset of elements.
proof fn lemma_same_elements_multiset<A>(a: Seq<A>, b: Seq<A>)
    requires
        a.no_duplicates(),
        b.no_duplicates(),
        forall|x: A| a.contains(x) <==> b.contains(x),
    ensures
        a.to_multiset() == b.to_multiset(),
{
    assert forall|x: A| a.to_multiset().count(x) == b.to_multiset().count(x) by {
        lemma_no_dup_count(a, x);
        lemma_no_dup_count(b, x);
    }
    assert(a.to_multiset() =~= b.to_multiset());
}

/// The cells of a block are pairwise distinct entries.
proof fn lemma_block_rows_no_dup(
    kind: BlockKind,
    edge: usize,
    row_off: int,
    col_off: int,
    accumulate: bool,
    r: nat,
    c: nat,
)
    requires
        r <= usize::MAX,
        c <= usize::MAX,
    ensures
        block_rows(kind, edge, row_off, col_off, accumulate, r, c).no_duplicates(),
    decreases r,
{
    if r > 0 {
        let prev = block_rows(kind, edge, row_off, col_off, accumulate, (r - 1) as nat, c);
        let last = block_row(kind, edge, row_off, col_off, accumulate, r - 1, c);
        lemma_block_rows_no_dup(kind, edge, row_off, col_off, accumulate, (r - 1) as nat, c);
        assert forall|p: int, q: int| 0 <= p < prev.len() && 0 <= q < last.len() implies prev[p]
            != last[q] by {
            assert(prev.contains(prev[p]));
            let ij = lemma_block_rows_member(
                kind,
                edge,
                row_off,
                col_off,
                accumulate,
                (r - 1) as nat,
                c,
                prev[p],
            );
        }
        vstd::seq_lib::lemma_no_dup_in_concat(prev, last);
    }
}

/// Mirroring a block of cells gives, up to order, the block with rows and
/// columns exchanged.
proof fn lemma_block_mirror_multiset(
    kind: BlockKind,
    mirror_kind: BlockKind,
    edge: usize,
    row_off: int,
    col_off: int,
    r: nat,
    c: nat,
)
    requires
        r <= usize::MAX,
        c <= usize::MAX,
        forall|i: int, j: int|
            0 <= i < r && 0 <= j < c ==> #[trigger] mirror(
                block_entry(kind, edge, row_off, col_off, true, i, j),
            ) == block_entry(mirror_kind, edge, col_off, row_off, true, j, i),
        forall|i: int, j: int|
            0 <= i < c && 0 <= j < r ==> #[trigger] mirror(
                block_entry(mirror_kind, edge, col_off, row_off, true, i, j),
            ) == block_entry(kind, edge, row_off, col_off, true, j, i),
    ensures
        mirrored(block_rows(kind, edge, row_off, col_off, true, r, c)).to_multiset()
            == block_rows(mirror_kind, edge, col_off, row_off, true, c, r).to_multiset(),
{
    let a = block_rows(kind, edge, row_off, col_off, true, r, c);
    let b = block_rows(mirror_kind, edge, col_off, row_off, true, c, r);
    lemma_block_rows_no_dup(kind, edge, row_off, col_off, true, r, c);
    lemma_block_rows_no_dup(mirror_kind, edge, col_off, row_off, true, c, r);
    lemma_mirrored_no_dup(a);
    assert forall|x: Entry| mirrored(a).contains(x) <==> b.contains(x) by {
        lemma_mirrored_contains(a, x);
        if a.contains(mirror(x)) {
            let ij = lemma_block_rows_member(kind, edge, row_off, col_off, true, r, c, mirror(x));
            lemma_mirror_involution(x);
            lemma_block_rows_has(mirror_kind, edge, col_off, row_off, true, c, r, ij.1, ij.0);
        }
        if b.contains(x) {
            let ij = lemma_block_rows_member(mirror_kind, edge, col_off, row_off, true, c, r, x);
            lemma_block_rows_has(kind, edge, row_off, col_off, true, r, c, ij.1, ij.0);
        }
    }
    lemma_same_elements_multiset(mirrored(a), b);
}

/// Mirroring one edge's connection Laplacian block permutes it.
proof fn lemma_connection_block_mirror<T>(s: Sheaf<T>, e: int)
    requires
        s.wf(),
        0 <= e < s.edges@.len(),
    ensures
        mirrored(s.connection_block(e)).to_multiset() == s.connection_block(e).to_multiset(),
{
    broadcast use vstd::seq_lib::lemma_multiset_commutative;

    let edge = s.edges@[e];
    let eu = e as usize;
    let os = s.node_offset(edge.source as int) as int;
    let ot = s.node_offset(edge.target as int) as int;
    let ds = edge.restriction.cols as nat;
    let dt = edge.restriction.rows as nat;
    let g = block_rows(BlockKind::Gram, eu, os, os, true, ds, ds);
    let d = diag_entries(ot, ot, dt);
    let nt = block_rows(BlockKind::NegRestrictionTransposed, eu, os, ot, true, ds, dt);
    let n = block_rows(BlockKind::NegRestriction, eu, ot, os, true, dt, ds);
    assert(s.connection_block(e) == g + d + nt + n);
    lemma_mirrored_concat(g + d + nt, n);
    lemma_mirrored_concat(g + d, nt);
    lemma_mirrored_concat(g, d);
    assert(mirrored(d) =~= d);
    lemma_block_mirror_multiset(BlockKind::Gram, BlockKind::Gram, eu, os, os, ds, ds);
    lemma_block_mirror_multiset(
        BlockKind::NegRestrictionTransposed,
        BlockKind::NegRestriction,
        eu,
        os,
        ot,
        ds,
        dt,
    );
    lemma_block_mirror_multiset(
        BlockKind::NegRestriction,
        BlockKind::NegRestrictionTransposed,
        eu,
        ot,
        os,
        dt,
        ds,
    );
    let mg = mirrored(g).to_multiset();
    let md = d.to_multiset();
    let mnt = nt.to_multiset();
    let mn = n.to_multiset();
    assert(mirrored(s.connection_block(e)).to_multiset() =~= mg.add(md).add(mn).add(mnt));
    assert(s.connection_block(e).to_multiset() =~= g.to_multiset().add(md).add(mnt).add(mn));
}

/// The connection Laplacian is assembled symmetrically, counting
/// multiplicity: mirroring every entry (exchanging row and column and
/// transposing the term) gives the same entries up to order. So each cell
/// `(r, c)` receives the transposes of the terms cell `(c, r)` receives.
pub proof fn law_connection_symmetric<T>(s: Sheaf<T>)
    requires
        s.wf(),
    ensures
        mirrored(s.connection_entries(s.edges@.len() as int)).to_multiset() == s.connection_entries(
            s.edges@.len() as int,
        ).to_multiset(),
{
    lemma_connection_entries_symmetric(s, s.edges@.len() as int);
}

proof fn lemma_connection_entries_symmetric<T>(s: Sheaf<T>, n: int)
    requires
        s.wf(),
        n <= s.edges@.len(),
    ensures
        mirrored(s.connection_entries(n)).to_multiset() == s.connection_entries(n).to_multiset(),
    decreases n,
{
    broadcast use vstd::seq_lib::lemma_multiset_commutative;

    if n <= 0 {
        assert(mirrored(s.connection_entries(n)) =~= Seq::<Entry>::empty());
    } else {
        lemma_connection_entries_symmetric(s, n - 1);
        lemma_connection_block_mirror(s, n - 1);
        lemma_mirrored_concat(s.connection_entries(n - 1), s.connection_block(n - 1));
    }
}

} // verus!

verus! {

proof fn lemma_count_concat<A>(a: Seq<A>, b: Seq<A>, x: A)
    ensures
        (a + b).to_multiset().count(x) == a.to_multiset().count(x) + b.to_multiset().count(x),
{
    broadcast use vstd::multiset::group_multiset_axioms;

    vstd::seq_lib::lemma_multiset_commutative(a, b);
}

proof fn lemma_count_absent<A>(a: Seq<A>, x: A)
    requires
        !a.contains(x),
    ensures
        a.to_multiset().count(x) == 0,
{
    vstd::seq_lib::to_multiset_contains(a, x);
}

/// A cell of a block occurs exactly once in it.
proof fn lemma_block_rows_count(
    kind: BlockKind,
    edge: usize,
    row_off: int,
    col_off: int,
    accumulate: bool,
    r: nat,
    c: nat,
    i: int,
    j: int,
)
    requires
        r <= usize::MAX,
        c <= usize::MAX,
        0 <= i < r,
        0 <= j < c,
    ensures
        block_rows(kind, edge, row_off, col_off, accumulate, r, c).to_multiset().count(
            block_entry(kind, edge, row_off, col_off, accumulate, i, j),
        ) == 1,
{
    lemma_block_rows_has(kind, edge, row_off, col_off, accumulate, r, c, i, j);
    lemma_block_rows_no_dup(kind, edge, row_off, col_off, accumulate, r, c);
    lemma_no_dup_count(
        block_rows(kind, edge, row_off, col_off, accumulate, r, c),
        block_entry(kind, edge, row_off, col_off, accumulate, i, j),
    );
}

/// A block of restriction cells holds no one.
proof fn lemma_block_rows_no_one(
    kind: BlockKind,
    edge: usize,
    row_off: int,
    col_off: int,
    accumulate: bool,
    r: nat,
    c: nat,
    x: Entry,
)
    requires
        x.term == Term::One,
    ensures
        block_rows(kind, edge, row_off, col_off, accumulate, r, c).to_multiset().count(x) == 0,
{
    if block_rows(kind, edge, row_off, col_off, accumulate, r, c).contains(x) {
        let ij = lemma_block_rows_member(kind, edge, row_off, col_off, accumulate, r, c, x);
    }
    lemma_count_absent(block_rows(kind, edge, row_off, col_off, accumulate, r, c), x);
}

/// A block of one kind holds no cell of another kind.
proof fn lemma_block_rows_other_kind(
    kind: BlockKind,
    edge: usize,
    row_off: int,
    col_off: int,
    accumulate: bool,
    r: nat,
    c: nat,
    x: Entry,
)
    requires
        forall|i: int, j: int| x.term != #[trigger] block_term(kind, edge, i, j),
    ensures
        block_rows(kind, edge, row_off, col_off, accumulate, r, c).to_multiset().count(x) == 0,
{
    if block_rows(kind, edge, row_off, col_off, accumulate, r, c).contains(x) {
        let ij = lemma_block_rows_member(kind, edge, row_off, col_off, accumulate, r, c, x);
        assert(x.term == block_term(kind, edge, ij.0, ij.1));
    }
    lemma_count_absent(block_rows(kind, edge, row_off, col_off, accumulate, r, c), x);
}

/// A diagonal holds only ones.
proof fn lemma_diag_only_ones(row_off: int, col_off: int, d: nat, x: Entry)
    requires
        x.term != Term::One,
    ensures
        diag_entries(row_off, col_off, d).to_multiset().count(x) == 0,
{
    if diag_entries(row_off, col_off, d).contains(x) {
        let k = choose|k: int| 0 <= k < d && diag_entries(row_off, col_off, d)[k] == x;
    }
    lemma_count_absent(diag_entries(row_off, col_off, d), x);
}

/// Each one of a diagonal that fits in `usize` occurs exactly once.
proof fn lemma_diag_count(row_off: int, col_off: int, d: nat, i: int)
    requires
        0 <= row_off,
        0 <= col_off,
        row_off + d <= usize::MAX,
        col_off + d <= usize::MAX,
        0 <= i < d,
    ensures
        diag_entries(row_off, col_off, d).to_multiset().count(diag_entry(row_off, col_off, i))
            == 1,
{
    let s = diag_entries(row_off, col_off, d);
    assert(s[i] == diag_entry(row_off, col_off, i));
    assert forall|p: int, q: int| 0 <= p < s.len() && 0 <= q < s.len() && p != q implies s[p]
        != s[q] by {
        assert(s[p].row == row_off + p);
        assert(s[q].row == row_off + q);
    }
    lemma_no_dup_count(s, diag_entry(row_off, col_off, i));
}

/// Consecutive blocks of distinct indices share no position.
proof fn lemma_blocks_disjoint(dims: Seq<usize>, a: int, b: int, i: int, k: int)
    requires
        0 <= a < dims.len(),
        0 <= b < dims.len(),
        a != b,
        0 <= i < dims[a],
        0 <= k < dims[b],
    ensures
        prefix_sum(dims, a) + i != prefix_sum(dims, b) + k,
{
    if a < b {
        lemma_block_within(dims, a);
        lemma_prefix_mono(dims, a + 1, b);
    } else {
        lemma_block_within(dims, b);
        lemma_prefix_mono(dims, b + 1, a);
    }
}

/// Where the coboundary puts a contribution: `-F_e(i, j)` at row
/// `edge_offset(e) + i` and column `node_offset(source(e)) + j`, assigned;
/// each one at a row `edge_offset(e) + k` of some edge `e` with `k` below
/// the target stalk's dimension and at column `node_offset(target(e)) + k`,
/// added.
pub open spec fn coboundary_placed<T>(s: Sheaf<T>, x: Entry) -> bool {
    match x.term {
        Term::NegRestriction { edge, i, j } => {
            &&& edge < s.edges@.len()
            &&& i < s.edges@[edge as int].restriction.rows
            &&& j < s.edges@[edge as int].restriction.cols
            &&& !x.accumulate
            &&& x.row == s.edge_offset(edge as int) + i
            &&& x.col == s.node_offset(s.edges@[edge as int].source as int) + j
        },
        Term::One => {
            &&& x.accumulate
            &&& exists|e: int|
                #![trigger s.edge_offset(e)]
                {
                    &&& 0 <= e < s.edges@.len()
                    &&& s.edge_offset(e) <= x.row
                    &&& x.row - s.edge_offset(e) < s.stalk_dims@[s.edges@[e].target as int]
                    &&& x.col == s.node_offset(s.edges@[e].target as int) + (x.row - s.edge_offset(
                        e,
                    ))
                }
        },
        _ => false,
    }
}

/// Every contribution to the coboundary sits where δ's definition puts it:
/// `-F_e` in edge `e`'s row block and its source's column block, cell by
/// cell, and the ones on the diagonal of edge `e`'s row block against its
/// target's column block.
pub proof fn law_coboundary_placement<T>(s: Sheaf<T>, x: Entry)
    requires
        s.wf(),
        s.dims_fit(),
        s.coboundary_entries(s.edges@.len() as int).contains(x),
    ensures
        coboundary_placed(s, x),
{
    let e = lemma_coboundary_member(s, s.edges@.len() as int, x);
    lemma_coboundary_block_rows(s, e, x);
    if x.term == Term::One {
        assert(s.edge_offset(e) <= x.row);
    }
}

/// The coboundary entries of the first `n` edges count `x` as often as edge
/// `e0`'s block does, when no other of those blocks holds `x`.
proof fn lemma_coboundary_count<T>(s: Sheaf<T>, n: int, e0: int, x: Entry)
    requires
        0 <= e0 < n,
        forall|e: int| 0 <= e < n && e != e0 ==> !#[trigger] s.coboundary_block(e).contains(x),
    ensures
        s.coboundary_entries(n).to_multiset().count(x) == s.coboundary_block(e0).to_multiset().count(
            x,
        ),
    decreases n,
{
    lemma_count_concat(s.coboundary_entries(n - 1), s.coboundary_block(n - 1), x);
    if n - 1 == e0 {
        if s.coboundary_entries(n - 1).contains(x) {
            let e = lemma_coboundary_member(s, n - 1, x);
        }
        lemma_count_absent(s.coboundary_entries(n - 1), x);
    } else {
        lemma_coboundary_count(s, n - 1, e0, x);
        lemma_count_absent(s.coboundary_block(n - 1), x);
    }
}

/// Each cell `(i, j)` of each edge's restriction map contributes `-F(i, j)`
/// exactly once to the coboundary, at row `edge_offset(e) + i` and column
/// `node_offset(source(e)) + j`.
pub proof fn law_coboundary_restriction_cells<T>(s: Sheaf<T>, e: int, i: int, j: int)
    requires
        s.wf(),
        s.dims_fit(),
        0 <= e < s.edges@.len(),
        0 <= i < s.edges@[e].restriction.rows,
        0 <= j < s.edges@[e].restriction.cols,
    ensures
        s.coboundary_entries(s.edges@.len() as int).to_multiset().count(
            (Entry {
                row: (s.edge_offset(e) + i) as usize,
                col: (s.node_offset(s.edges@[e].source as int) + j) as usize,
                term: Term::NegRestriction { edge: e as usize, i: i as usize, j: j as usize },
                accumulate: false,
            }),
        ) == 1,
{
    let edge = s.edges@[e];
    let ro = s.edge_offset(e) as int;
    let x = block_entry(
        BlockKind::NegRestriction,
        e as usize,
        ro,
        s.node_offset(edge.source as int) as int,
        false,
        i,
        j,
    );
    assert forall|e2: int|
        0 <= e2 < s.edges@.len() && e2 != e implies !#[trigger] s.coboundary_block(e2).contains(
        x,
    ) by {
        if s.coboundary_block(e2).contains(x) {
            lemma_coboundary_block_rows(s, e2, x);
        }
    }
    lemma_coboundary_count(s, s.edges@.len() as int, e, x);
    let a = block_rows(
        BlockKind::NegRestriction,
        e as usize,
        ro,
        s.node_offset(edge.source as int) as int,
        false,
        edge.restriction.rows as nat,
        edge.restriction.cols as nat,
    );
    let b = diag_entries(
        ro,
        s.node_offset(edge.target as int) as int,
        s.stalk_dims@[edge.target as int] as nat,
    );
    lemma_count_concat(a, b, x);
    lemma_block_rows_count(
        BlockKind::NegRestriction,
        e as usize,
        ro,
        s.node_offset(edge.source as int) as int,
        false,
        edge.restriction.rows as nat,
        edge.restriction.cols as nat,
        i,
        j,
    );
    lemma_diag_only_ones(
        ro,
        s.node_offset(edge.target as int) as int,
        s.stalk_dims@[edge.target as int] as nat,
        x,
    );
}

/// The target block of each edge's rows is the identity: for each `k`
/// below the target stalk's dimension, cell `(edge_offset(e) + k,
/// node_offset(target(e)) + k)` receives exactly one added one.
pub proof fn law_coboundary_identity_cells<T>(s: Sheaf<T>, e: int, k: int)
    requires
        s.wf(),
        s.dims_fit(),
        0 <= e < s.edges@.len(),
        0 <= k < s.stalk_dims@[s.edges@[e].target as int],
    ensures
        s.coboundary_entries(s.edges@.len() as int).to_multiset().count(
            (Entry {
                row: (s.edge_offset(e) + k) as usize,
                col: (s.node_offset(s.edges@[e].target as int) + k) as usize,
                term: Term::One,
                accumulate: true,
            }),
        ) == 1,
{
    let edge = s.edges@[e];
    let ro = s.edge_offset(e) as int;
    let ot = s.node_offset(edge.target as int) as int;
    let x = diag_entry(ro, ot, k);
    lemma_edge_block(s, e);
    lemma_edge_block_nodes(s, e);
    assert forall|e2: int|
        0 <= e2 < s.edges@.len() && e2 != e implies !#[trigger] s.coboundary_block(e2).contains(
        x,
    ) by {
        if s.coboundary_block(e2).contains(x) {
            lemma_coboundary_block_rows(s, e2, x);
            lemma_edge_block(s, e2);
            lemma_blocks_disjoint(s.target_dims(), e, e2, k, x.row - s.edge_offset(e2));
        }
    }
    lemma_coboundary_count(s, s.edges@.len() as int, e, x);
    let a = block_rows(
        BlockKind::NegRestriction,
        e as usize,
        ro,
        s.node_offset(edge.source as int) as int,
        false,
        edge.restriction.rows as nat,
        edge.restriction.cols as nat,
    );
    let b = diag_entries(ro, ot, s.stalk_dims@[edge.target as int] as nat);
    lemma_count_concat(a, b, x);
    lemma_block_rows_no_one(
        BlockKind::NegRestriction,
        e as usize,
        ro,
        s.node_offset(edge.source as int) as int,
        false,
        edge.restriction.rows as nat,
        edge.restriction.cols as nat,
        x,
    );
    lemma_diag_count(ro, ot, s.stalk_dims@[edge.target as int] as nat, k);
}

} // verus!

verus! {

/// Where the connection Laplacian puts a contribution, by the edge its term
/// names: `(FᵀF)(i, j)` at `(os + i, os + j)`, `-Fᵀ(i, j)` at
/// `(os + i, ot + j)`, `-F(i, j)` at `(ot + i, os + j)`, with `os` and `ot`
/// the offsets of the edge's source and target node blocks; and each one on
/// the diagonal of the target block of some edge. Every contribution is
/// added.
pub open spec fn connection_placed<T>(s: Sheaf<T>, x: Entry) -> bool {
    &&& x.accumulate
    &&& match x.term {
        Term::Gram { edge, i, j } => {
            &&& edge < s.edges@.len()
            &&& i < s.edges@[edge as int].restriction.cols
            &&& j < s.edges@[edge as int].restriction.cols
            &&& x.row == s.node_offset(s.edges@[edge as int].source as int) + i
            &&& x.col == s.node_offset(s.edges@[edge as int].source as int) + j
        },
        Term::NegRestrictionTransposed { edge, i, j } => {
            &&& edge < s.edges@.len()
            &&& i < s.edges@[edge as int].restriction.cols
            &&& j < s.edges@[edge as int].restriction.rows
            &&& x.row == s.node_offset(s.edges@[edge as int].source as int) + i
            &&& x.col == s.node_offset(s.edges@[edge as int].target as int) + j
        },
        Term::NegRestriction { edge, i, j } => {
            &&& edge < s.edges@.len()
            &&& i < s.edges@[edge as int].restriction.rows
            &&& j < s.edges@[edge as int].restriction.cols
            &&& x.row == s.node_offset(s.edges@[edge as int].target as int) + i
            &&& x.col == s.node_offset(s.edges@[edge as int].source as int) + j
        },
        Term::One => {
            &&& x.row == x.col
            &&& exists|e: int|
                #![trigger s.edges@[e]]
                {
                    &&& 0 <= e < s.edges@.len()
                    &&& s.node_offset(s.edges@[e].target as int) <= x.row
                    &&& x.row < s.node_offset(s.edges@[e].target as int)
                        + s.stalk_dims@[s.edges@[e].target as int]
                }
        },
    }
}

/// Every contribution to the connection Laplacian sits where
/// `L += [[FᵀF, -Fᵀ], [-F, I]]` on blocks (source, target) puts it.
pub proof fn law_connection_placement<T>(s: Sheaf<T>, x: Entry)
    requires
        s.wf(),
        s.c0_dim() <= usize::MAX,
        s.connection_entries(s.edges@.len() as int).contains(x),
    ensures
        connection_placed(s, x),
{
    let e = lemma_connection_member(s, s.edges@.len() as int, x);
    lemma_connection_block_entry(s, e, x);
    if x.term == Term::One {
        assert(s.edges@[e] == s.edges@[e]);
    }
}

/// The connection Laplacian entries of the first `n` edges count `x` as often
/// as edge `e0`'s block does, when no other of those blocks holds `x`.
proof fn lemma_connection_count<T>(s: Sheaf<T>, n: int, e0: int, x: Entry)
    requires
        0 <= e0 < n,
        forall|e: int| 0 <= e < n && e != e0 ==> !#[trigger] s.connection_block(e).contains(x),
    ensures
        s.connection_entries(n).to_multiset().count(x) == s.connection_block(e0).to_multiset().count(
            x,
        ),
    decreases n,
{
    lemma_count_concat(s.connection_entries(n - 1), s.connection_block(n - 1), x);
    if n - 1 == e0 {
        if s.connection_entries(n - 1).contains(x) {
            let e = lemma_connection_member(s, n - 1, x);
        }
        lemma_count_absent(s.connection_entries(n - 1), x);
    } else {
        lemma_connection_count(s, n - 1, e0, x);
        lemma_count_absent(s.connection_block(n - 1), x);
    }
}

/// An entry whose term names edge `e` is in no other edge's block.
proof fn lemma_connection_only_own_block<T>(s: Sheaf<T>, e: int, x: Entry)
    requires
        s.wf(),
        s.c0_dim() <= usize::MAX,
        0 <= e < s.edges@.len(),
        match x.term {
            Term::Gram { edge, .. } => edge == e,
            Term::NegRestrictionTransposed { edge, .. } => edge == e,
            Term::NegRestriction { edge, .. } => edge == e,
            Term::One => false,
        },
    ensures
        forall|e2: int|
            0 <= e2 < s.edges@.len() && e2 != e ==> !#[trigger] s.connection_block(e2).contains(x),
{
    assert forall|e2: int|
        0 <= e2 < s.edges@.len() && e2 != e implies !#[trigger] s.connection_block(e2).contains(
        x,
    ) by {
        if s.connection_block(e2).contains(x) {
            lemma_connection_block_entry(s, e2, x);
        }
    }
}

/// Each cell `(i, j)` of `FᵀF` for each edge contributes exactly once to the
/// connection Laplacian, at `(os + i, os + j)` with `os` the offset of the
/// edge's source block.
pub proof fn law_connection_gram_cells<T>(s: Sheaf<T>, e: int, i: int, j: int)
    requires
        s.wf(),
        s.c0_dim() <= usize::MAX,
        0 <= e < s.edges@.len(),
        0 <= i < s.edges@[e].restriction.cols,
        0 <= j < s.edges@[e].restriction.cols,
    ensures
        s.connection_entries(s.edges@.len() as int).to_multiset().count(
            (Entry {
                row: (s.node_offset(s.edges@[e].source as int) + i) as usize,
                col: (s.node_offset(s.edges@[e].source as int) + j) as usize,
                term: Term::Gram { edge: e as usize, i: i as usize, j: j as usize },
                accumulate: true,
            }),
        ) == 1,
{
    let edge = s.edges@[e];
    let eu = e as usize;
    let os = s.node_offset(edge.source as int) as int;
    let ot = s.node_offset(edge.target as int) as int;
    let ds = edge.restriction.cols as nat;
    let dt = edge.restriction.rows as nat;
    let x = block_entry(BlockKind::Gram, eu, os, os, true, i, j);
    lemma_connection_only_own_block(s, e, x);
    lemma_connection_count(s, s.edges@.len() as int, e, x);
    let g = block_rows(BlockKind::Gram, eu, os, os, true, ds, ds);
    let d = diag_entries(ot, ot, dt);
    let nt = block_rows(BlockKind::NegRestrictionTransposed, eu, os, ot, true, ds, dt);
    let n = block_rows(BlockKind::NegRestriction, eu, ot, os, true, dt, ds);
    assert(s.connection_block(e) == g + d + nt + n);
    lemma_count_concat(g + d + nt, n, x);
    lemma_count_concat(g + d, nt, x);
    lemma_count_concat(g, d, x);
    lemma_block_rows_count(BlockKind::Gram, eu, os, os, true, ds, ds, i, j);
    lemma_diag_only_ones(ot, ot, dt, x);
    lemma_block_rows_other_kind(BlockKind::NegRestrictionTransposed, eu, os, ot, true, ds, dt, x);
    lemma_block_rows_other_kind(BlockKind::NegRestriction, eu, ot, os, true, dt, ds, x);
}

/// Each cell `(i, j)` of `-Fᵀ` contributes exactly once at `(os + i, ot + j)`
/// and the matching cell `(j, i)` of `-F` exactly once at `(ot + j, os + i)`,
/// with `os` and `ot` the offsets of the edge's source and target blocks.
pub proof fn law_connection_off_diagonal_cells<T>(s: Sheaf<T>, e: int, i: int, j: int)
    requires
        s.wf(),
        s.c0_dim() <= usize::MAX,
        0 <= e < s.edges@.len(),
        0 <= i < s.edges@[e].restriction.cols,
        0 <= j < s.edges@[e].restriction.rows,
    ensures
        s.connection_entries(s.edges@.len() as int).to_multiset().count(
            (Entry {
                row: (s.node_offset(s.edges@[e].source as int) + i) as usize,
                col: (s.node_offset(s.edges@[e].target as int) + j) as usize,
                term: Term::NegRestrictionTransposed { edge: e as usize, i: i as usize, j: j as usize },
                accumulate: true,
            }),
        ) == 1,
        s.connection_entries(s.edges@.len() as int).to_multiset().count(
            (Entry {
                row: (s.node_offset(s.edges@[e].target as int) + j) as usize,
                col: (s.node_offset(s.edges@[e].source as int) + i) as usize,
                term: Term::NegRestriction { edge: e as usize, i: j as usize, j: i as usize },
                accumulate: true,
            }),
        ) == 1,
{
    let edge = s.edges@[e];
    let eu = e as usize;
    let os = s.node_offset(edge.source as int) as int;
    let ot = s.node_offset(edge.target as int) as int;
    let ds = edge.restriction.cols as nat;
    let dt = edge.restriction.rows as nat;
    let g = block_rows(BlockKind::Gram, eu, os, os, true, ds, ds);
    let d = diag_entries(ot, ot, dt);
    let nt = block_rows(BlockKind::NegRestrictionTransposed, eu, os, ot, true, ds, dt);
    let n = block_rows(BlockKind::NegRestriction, eu, ot, os, true, dt, ds);
    assert(s.connection_block(e) == g + d + nt + n);

    let x = block_entry(BlockKind::NegRestrictionTransposed, eu, os, ot, true, i, j);
    lemma_connection_only_own_block(s, e, x);
    lemma_connection_count(s, s.edges@.len() as int, e, x);
    lemma_count_concat(g + d + nt, n, x);
    lemma_count_concat(g + d, nt, x);
    lemma_count_concat(g, d, x);
    lemma_block_rows_other_kind(BlockKind::Gram, eu, os, os, true, ds, ds, x);
    lemma_diag_only_ones(ot, ot, dt, x);
    lemma_block_rows_count(BlockKind::NegRestrictionTransposed, eu, os, ot, true, ds, dt, i, j);
    lemma_block_rows_other_kind(BlockKind::NegRestriction, eu, ot, os, true, dt, ds, x);

    let y = block_entry(BlockKind::NegRestriction, eu, ot, os, true, j, i);
    lemma_connection_only_own_block(s, e, y);
    lemma_connection_count(s, s.edges@.len() as int, e, y);
    lemma_count_concat(g + d + nt, n, y);
    lemma_count_concat(g + d, nt, y);
    lemma_count_concat(g, d, y);
    lemma_block_rows_other_kind(BlockKind::Gram, eu, os, os, true, ds, ds, y);
    lemma_diag_only_ones(ot, ot, dt, y);
    lemma_block_rows_other_kind(BlockKind::NegRestrictionTransposed, eu, os, ot, true, ds, dt, y);
    lemma_block_rows_count(BlockKind::NegRestriction, eu, ot, os, true, dt, ds, j, i);
}

/// How often edge `e`'s block adds a one at cell
/// `(node_offset(v) + k, node_offset(v) + k)`: once if the edge ends at `v`,
/// never otherwise.
proof fn lemma_connection_block_identity_count<T>(s: Sheaf<T>, e: int, v: int, k: int)
    requires
        s.wf(),
        s.c0_dim() <= usize::MAX,
        0 <= e < s.edges@.len(),
        0 <= v < s.stalk_dims@.len(),
        0 <= k < s.stalk_dims@[v],
    ensures
        s.connection_block(e).to_multiset().count(
            diag_entry(s.node_offset(v) as int, s.node_offset(v) as int, k),
        ) == if s.edges@[e].target == v {
            1nat
        } else {
            0nat
        },
{
    let edge = s.edges@[e];
    let eu = e as usize;
    let os = s.node_offset(edge.source as int) as int;
    let ot = s.node_offset(edge.target as int) as int;
    let ds = edge.restriction.cols as nat;
    let dt = edge.restriction.rows as nat;
    let g = block_rows(BlockKind::Gram, eu, os, os, true, ds, ds);
    let d = diag_entries(ot, ot, dt);
    let nt = block_rows(BlockKind::NegRestrictionTransposed, eu, os, ot, true, ds, dt);
    let n = block_rows(BlockKind::NegRestriction, eu, ot, os, true, dt, ds);
    assert(s.connection_block(e) == g + d + nt + n);
    let nv = s.node_offset(v) as int;
    let x = diag_entry(nv, nv, k);
    lemma_count_concat(g + d + nt, n, x);
    lemma_count_concat(g + d, nt, x);
    lemma_count_concat(g, d, x);
    lemma_block_rows_no_one(BlockKind::Gram, eu, os, os, true, ds, ds, x);
    lemma_block_rows_no_one(BlockKind::NegRestrictionTransposed, eu, os, ot, true, ds, dt, x);
    lemma_block_rows_no_one(BlockKind::NegRestriction, eu, ot, os, true, dt, ds, x);
    lemma_edge_block_nodes(s, e);
    lemma_block_within(s.stalk_dims@, v);
    if edge.target == v {
        lemma_diag_count(ot, ot, dt, k);
    } else {
        if d.contains(x) {
            let k2 = choose|k2: int| 0 <= k2 < d.len() && d[k2] == x;
            lemma_blocks_disjoint(s.stalk_dims@, edge.target as int, v, k2, k);
        }
        lemma_count_absent(d, x);
    }
}

proof fn lemma_connection_identity_count<T>(s: Sheaf<T>, n: int, v: int, k: int)
    requires
        s.wf(),
        s.c0_dim() <= usize::MAX,
        0 <= n <= s.edges@.len(),
        0 <= v < s.stalk_dims@.len(),
        0 <= k < s.stalk_dims@[v],
    ensures
        s.connection_entries(n).to_multiset().count(
            diag_entry(s.node_offset(v) as int, s.node_offset(v) as int, k),
        ) == s.in_degree(v, n),
    decreases n,
{
    let x = diag_entry(s.node_offset(v) as int, s.node_offset(v) as int, k);
    if n <= 0 {
        lemma_count_absent(s.connection_entries(n), x);
    } else {
        lemma_connection_identity_count(s, n - 1, v, k);
        lemma_count_concat(s.connection_entries(n - 1), s.connection_block(n - 1), x);
        lemma_connection_block_identity_count(s, n - 1, v, k);
    }
}

/// The identity part: each diagonal cell of node `v`'s block receives one
/// added one per edge that ends at `v`, and nothing else of that kind.
pub proof fn law_connection_identity_cells<T>(s: Sheaf<T>, v: int, k: int)
    requires
        s.wf(),
        s.c0_dim() <= usize::MAX,
        0 <= v < s.stalk_dims@.len(),
        0 <= k < s.stalk_dims@[v],
    ensures
        s.connection_entries(s.edges@.len() as int).to_multiset().count(
            (Entry {
                row: (s.node_offset(v) + k) as usize,
                col: (s.node_offset(v) + k) as usize,
                term: Term::One,
                accumulate: true,
            }),
        ) == s.in_degree(v, s.edges@.len() as int),
{
    lemma_connection_identity_count(s, s.edges@.len() as int, v, k);
}

} // verus!

verus! {

proof fn lemma_coboundary_order<T>(s: Sheaf<T>, n: int, p: int, q: int)
    requires
        s.wf(),
        s.dims_fit(),
        0 <= n <= s.edges@.len(),
        0 <= p < s.coboundary_entries(n).len(),
        0 <= q < s.coboundary_entries(n).len(),
        s.coboundary_entries(n)[p].row == s.coboundary_entries(n)[q].row,
        s.coboundary_entries(n)[p].term is NegRestriction,
        s.coboundary_entries(n)[q].term is One,
    ensures
        p < q,
    decreases n,
{
    let all = s.coboundary_entries(n);
    if n <= 0 {
        assert(false);
    } else {
        let prev = s.coboundary_entries(n - 1);
        let blk = s.coboundary_block(n - 1);
        assert(all == prev + blk);
        if p < prev.len() && q < prev.len() {
            assert(all[p] == prev[p]);
            assert(all[q] == prev[q]);
            lemma_coboundary_order(s, n - 1, p, q);
        } else if p >= prev.len() && q >= prev.len() {
            let edge = s.edges@[n - 1];
            let a = block_rows(
                BlockKind::NegRestriction,
                (n - 1) as usize,
                s.edge_offset(n - 1) as int,
                s.node_offset(edge.source as int) as int,
                false,
                edge.restriction.rows as nat,
                edge.restriction.cols as nat,
            );
            let b = diag_entries(
                s.edge_offset(n - 1) as int,
                s.node_offset(edge.target as int) as int,
                s.stalk_dims@[edge.target as int] as nat,
            );
            assert(blk == a + b);
            let pp = p - prev.len();
            let qq = q - prev.len();
            assert(all[p] == blk[pp]);
            assert(all[q] == blk[qq]);
            if pp >= a.len() {
                assert(blk[pp] == b[pp - a.len()]);
            }
            if qq < a.len() {
                assert(blk[qq] == a[qq]);
                assert(a.contains(a[qq]));
                let ij = lemma_block_rows_member(
                    BlockKind::NegRestriction,
                    (n - 1) as usize,
                    s.edge_offset(n - 1) as int,
                    s.node_offset(edge.source as int) as int,
                    false,
                    edge.restriction.rows as nat,
                    edge.restriction.cols as nat,
                    a[qq],
                );
            }
        } else {
            // one entry comes from an earlier edge, the other from edge n - 1
            let (x, y) = if p < prev.len() {
                (all[p], all[q])
            } else {
                (all[q], all[p])
            };
            let (i1, i2) = if p < prev.len() {
                (p, q - prev.len())
            } else {
                (q, p - prev.len())
            };
            assert(prev[i1] == x);
            assert(blk[i2] == y);
            assert(prev.contains(x));
            assert(blk.contains(y));
            let e1 = lemma_coboundary_member(s, n - 1, x);
            lemma_coboundary_block_rows(s, e1, x);
            lemma_coboundary_block_rows(s, n - 1, y);
            lemma_prefix_mono(s.target_dims(), e1 + 1, n - 1);
        }
    }
}

/// Within each cell of the coboundary, the assignment of `-F` comes before
/// the one that is added: whenever an entry with a `NegRestriction` term and
/// an entry with the term one fall in the same row (so the same edge), the
/// first comes earlier. Together with the placement and cell laws, a cell
/// shared by both (a self-loop) ends up holding `-F(i, i) + 1`.
pub proof fn law_coboundary_assign_before_add<T>(s: Sheaf<T>, p: int, q: int)
    requires
        s.wf(),
        s.dims_fit(),
        0 <= p < s.coboundary_entries(s.edges@.len() as int).len(),
        0 <= q < s.coboundary_entries(s.edges@.len() as int).len(),
        s.coboundary_entries(s.edges@.len() as int)[p].row == s.coboundary_entries(
            s.edges@.len() as int,
        )[q].row,
        s.coboundary_entries(s.edges@.len() as int)[p].term is NegRestriction,
        s.coboundary_entries(s.edges@.len() as int)[q].term is One,
    ensures
        p < q,
{
    lemma_coboundary_order(s, s.edges@.len() as int, p, q);
}

} // verus!
