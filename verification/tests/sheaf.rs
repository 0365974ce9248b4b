use sheaf_laplacian::assembly::{Entry, Term};
use sheaf_laplacian::matrix::Matrix;
use sheaf_laplacian::sheaf::Sheaf;

fn triangle_sheaf() -> Sheaf<f64> {
    let mut s = Sheaf::new(vec![1, 1, 1]);
    s.add_identity_edge(0, 1, 0.0, 1.0);
    s.add_identity_edge(1, 2, 0.0, 1.0);
    s.add_identity_edge(2, 0, 0.0, 1.0);
    s
}

fn entry(row: usize, col: usize, term: Term, accumulate: bool) -> Entry {
    Entry { row, col, term, accumulate }
}

#[test]
fn test_sheaf_creation() {
    let s = triangle_sheaf();
    assert_eq!(s.stalk_dims.len(), 3);
    assert_eq!(s.edges.len(), 3);
    assert_eq!(s.total_c0_dim(), 3);
    assert_eq!(s.total_c1_dim(), 3);
}

#[test]
fn test_coboundary_dimensions() {
    let s = triangle_sheaf();
    let delta = s.coboundary();
    assert_eq!(delta.rows, 3);
    assert_eq!(delta.cols, 3);
}

#[test]
fn higher_dim_stalk_totals() {
    let mut s: Sheaf<f64> = Sheaf::new(vec![2, 2]);
    s.add_identity_edge(0, 1, 0.0, 1.0);
    s.add_identity_edge(1, 0, 0.0, 1.0);
    assert_eq!(s.total_c0_dim(), 4);
    assert_eq!(s.total_c1_dim(), 4);
    let c = s.connection_laplacian();
    assert_eq!((c.rows, c.cols), (4, 4));
}

#[test]
fn new_sheaf_has_no_edges() {
    let s: Sheaf<i32> = Sheaf::new(vec![3, 0, 2]);
    assert!(s.edges.is_empty());
    assert_eq!(s.total_c0_dim(), 5);
    assert_eq!(s.total_c1_dim(), 0);
    assert!(s.check_wf());
    let d = s.coboundary();
    assert_eq!((d.rows, d.cols), (0, 5));
    assert!(d.entries.is_empty());
}

#[test]
fn add_edge_records_restriction() {
    let mut s: Sheaf<i32> = Sheaf::new(vec![2, 1]);
    let f = Matrix { rows: 1, cols: 2, data: vec![3, 4] };
    s.add_edge(0, 1, f);
    assert_eq!(s.edges.len(), 1);
    assert_eq!(s.edges[0].source, 0);
    assert_eq!(s.edges[0].target, 1);
    assert_eq!(s.edges[0].restriction.data, vec![3, 4]);
    assert_eq!(s.total_c1_dim(), 1);
    assert!(s.check_wf());
}

#[test]
fn add_identity_edge_builds_identity() {
    let mut s: Sheaf<i32> = Sheaf::new(vec![2, 2]);
    s.add_identity_edge(1, 0, 0, 1);
    let r = &s.edges[0].restriction;
    assert_eq!((r.rows, r.cols), (2, 2));
    assert_eq!(r.data, vec![1, 0, 0, 1]);
}

#[test]
fn check_wf_rejects_bad_edges() {
    let mut s: Sheaf<i32> = Sheaf::new(vec![2, 1]);
    s.edges.push(sheaf_laplacian::sheaf::SheafEdge {
        source: 0,
        target: 1,
        restriction: Matrix { rows: 2, cols: 2, data: vec![0; 4] },
    });
    assert!(!s.check_wf());
    let mut t: Sheaf<i32> = Sheaf::new(vec![1]);
    t.edges.push(sheaf_laplacian::sheaf::SheafEdge {
        source: 0,
        target: 3,
        restriction: Matrix { rows: 1, cols: 1, data: vec![0] },
    });
    assert!(!t.check_wf());
}

#[test]
fn coboundary_entries_of_a_path() {
    // node 0 has a 2-dimensional stalk, node 1 a 1-dimensional one;
    // one edge 0 -> 1 with restriction F = [5 6].
    let mut s: Sheaf<i32> = Sheaf::new(vec![2, 1]);
    s.add_edge(0, 1, Matrix { rows: 1, cols: 2, data: vec![5, 6] });
    let d = s.coboundary();
    assert_eq!((d.rows, d.cols), (1, 3));
    assert_eq!(
        d.entries,
        vec![
            entry(0, 0, Term::NegRestriction { edge: 0, i: 0, j: 0 }, false),
            entry(0, 1, Term::NegRestriction { edge: 0, i: 0, j: 1 }, false),
            entry(0, 2, Term::One, true),
        ]
    );
}

#[test]
fn coboundary_edges_use_disjoint_rows() {
    let s = triangle_sheaf();
    let d = s.coboundary();
    assert_eq!(
        d.entries,
        vec![
            entry(0, 0, Term::NegRestriction { edge: 0, i: 0, j: 0 }, false),
            entry(0, 1, Term::One, true),
            entry(1, 1, Term::NegRestriction { edge: 1, i: 0, j: 0 }, false),
            entry(1, 2, Term::One, true),
            entry(2, 2, Term::NegRestriction { edge: 2, i: 0, j: 0 }, false),
            entry(2, 0, Term::One, true),
        ]
    );
}

#[test]
fn coboundary_self_loop_shares_cells() {
    let mut s: Sheaf<i32> = Sheaf::new(vec![1]);
    s.add_identity_edge(0, 0, 0, 1);
    let d = s.coboundary();
    assert_eq!(
        d.entries,
        vec![
            entry(0, 0, Term::NegRestriction { edge: 0, i: 0, j: 0 }, false),
            entry(0, 0, Term::One, true),
        ]
    );
}

#[test]
fn connection_laplacian_entries_of_a_path() {
    let mut s: Sheaf<i32> = Sheaf::new(vec![2, 1]);
    s.add_edge(0, 1, Matrix { rows: 1, cols: 2, data: vec![5, 6] });
    let c = s.connection_laplacian();
    assert_eq!((c.rows, c.cols), (3, 3));
    assert_eq!(
        c.entries,
        vec![
            entry(0, 0, Term::Gram { edge: 0, i: 0, j: 0 }, true),
            entry(0, 1, Term::Gram { edge: 0, i: 0, j: 1 }, true),
            entry(1, 0, Term::Gram { edge: 0, i: 1, j: 0 }, true),
            entry(1, 1, Term::Gram { edge: 0, i: 1, j: 1 }, true),
            entry(2, 2, Term::One, true),
            entry(0, 2, Term::NegRestrictionTransposed { edge: 0, i: 0, j: 0 }, true),
            entry(1, 2, Term::NegRestrictionTransposed { edge: 0, i: 1, j: 0 }, true),
            entry(2, 0, Term::NegRestriction { edge: 0, i: 0, j: 0 }, true),
            entry(2, 1, Term::NegRestriction { edge: 0, i: 0, j: 1 }, true),
        ]
    );
}

fn mirrored(x: &Entry) -> Entry {
    let term = match x.term {
        Term::NegRestriction { edge, i, j } => Term::NegRestrictionTransposed { edge, i: j, j: i },
        Term::NegRestrictionTransposed { edge, i, j } => Term::NegRestriction { edge, i: j, j: i },
        Term::Gram { edge, i, j } => Term::Gram { edge, i: j, j: i },
        Term::One => Term::One,
    };
    Entry { row: x.col, col: x.row, term, accumulate: x.accumulate }
}

#[test]
fn connection_laplacian_is_mirrored() {
    let mut s = triangle_sheaf();
    s.stalk_dims.push(2);
    s.add_edge(3, 1, Matrix { rows: 1, cols: 2, data: vec![1.0, 2.0] });
    let c = s.connection_laplacian();
    assert_eq!((c.rows, c.cols), (5, 5));
    for x in &c.entries {
        assert!(x.row < 5 && x.col < 5 && x.accumulate);
        assert!(c.entries.contains(&mirrored(x)));
    }
}

#[test]
fn coboundary_entries_in_bounds() {
    let mut s: Sheaf<i64> = Sheaf::new(vec![2, 3, 1]);
    s.add_edge(0, 1, Matrix::zeros(3, 2, 0));
    s.add_edge(2, 0, Matrix::zeros(2, 1, 0));
    s.add_identity_edge(1, 1, 0, 1);
    let d = s.coboundary();
    assert_eq!((d.rows, d.cols), (8, 6));
    assert_eq!(d.entries.len(), 3 * 2 + 3 + 2 * 1 + 2 + 3 * 3 + 3);
    for x in &d.entries {
        assert!(x.row < 8 && x.col < 6);
    }
    // edge 0 uses rows 0..3, edge 1 rows 3..5, edge 2 rows 5..8
    assert_eq!(d.entries[0], entry(0, 0, Term::NegRestriction { edge: 0, i: 0, j: 0 }, false));
    assert_eq!(d.entries[6], entry(0, 2, Term::One, true));
    assert_eq!(d.entries[9], entry(3, 5, Term::NegRestriction { edge: 1, i: 0, j: 0 }, false));
    assert_eq!(d.entries[11], entry(3, 0, Term::One, true));
    assert_eq!(d.entries[13], entry(5, 2, Term::NegRestriction { edge: 2, i: 0, j: 0 }, false));
}

#[test]
fn connection_laplacian_mirror_counts_match() {
    let mut s: Sheaf<i32> = Sheaf::new(vec![2, 2, 1]);
    s.add_identity_edge(0, 1, 0, 1);
    s.add_identity_edge(1, 0, 0, 1);
    s.add_edge(2, 2, Matrix { rows: 1, cols: 1, data: vec![4] });
    s.add_edge(0, 2, Matrix { rows: 1, cols: 2, data: vec![1, 2] });
    let c = s.connection_laplacian();
    let count = |y: &Entry| c.entries.iter().filter(|x| *x == y).count();
    for x in &c.entries {
        assert_eq!(count(x), count(&mirrored(x)));
    }
    // two edges end at node 2, whose block is cell (4, 4): its one comes twice
    assert_eq!(count(&entry(0, 0, Term::One, true)), 1);
    assert_eq!(count(&entry(4, 4, Term::One, true)), 2);
}
