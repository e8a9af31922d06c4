//! Adjacency patterns of the classic graph families, as `n × n` matrices in
//! which `true` marks an edge of unit weight.

use vstd::prelude::*;

verus! {

/// The matrix has `n` rows of `n` entries each.
pub open spec fn is_square(a: Seq<Vec<bool>>, n: int) -> bool {
    &&& a.len() == n
    &&& forall|i: int| 0 <= i < n ==> #[trigger] a[i]@.len() == n
}

/// The matrix is the adjacency pattern that `edge` describes on `n` nodes.
pub open spec fn has_pattern(a: Seq<Vec<bool>>, n: int, edge: spec_fn(int, int) -> bool) -> bool {
    &&& is_square(a, n)
    &&& forall|i: int, j: int| 0 <= i < n && 0 <= j < n ==> #[trigger] a[i]@[j] == edge(i, j)
}

/// `i` and `j` are consecutive nodes of a chain.
pub open spec fn path_edge(i: int, j: int) -> bool {
    i + 1 == j || j + 1 == i
}

/// `i` and `j` are consecutive on a ring of `n` nodes.
pub open spec fn cycle_edge(n: int, i: int, j: int) -> bool {
    path_edge(i, j) || (i == 0 && j == n - 1) || (i == n - 1 && j == 0)
}

/// Every two distinct nodes are joined.
pub open spec fn complete_edge(i: int, j: int) -> bool {
    i != j
}

/// Node 0 is joined to every other node, and no other pair is.
pub open spec fn star_edge(i: int, j: int) -> bool {
    (i == 0 && j != 0) || (j == 0 && i != 0)
}

/// Two cliques on the nodes below `m` and from `m` on, joined by the bridge
/// `{m - 1, m}`.
pub open spec fn barbell_edge(m: int, i: int, j: int) -> bool {
    (i != j && (i < m) == (j < m)) || (i == m - 1 && j == m) || (i == m && j == m - 1)
}

/// An `n × n` matrix without edges.
fn empty_pattern(n: usize) -> (a: Vec<Vec<bool>>)
    ensures
        has_pattern(a@, n as int, |i: int, j: int| false),
{
    let mut a: Vec<Vec<bool>> = Vec::new();
    let mut i: usize = 0;
    while i < n
        invariant
            i <= n,
            a@.len() == i,
            forall|r: int| 0 <= r < i ==> #[trigger] a@[r]@.len() == n,
            forall|r: int, c: int| 0 <= r < i && 0 <= c < n ==> !#[trigger] a@[r]@[c],
        decreases n - i,
    {
        let mut row: Vec<bool> = Vec::new();
        let mut j: usize = 0;
        while j < n
            invariant
                j <= n,
                row@.len() == j,
                forall|c: int| 0 <= c < j ==> !#[trigger] row@[c],
            decreases n - j,
        {
            row.push(false);
            j = j + 1;
        }
        a.push(row);
        i = i + 1;
    }
    a
}

/// Adjacency pattern of the path `0 - 1 - … - (n-1)`.
pub fn path_graph(n: usize) -> (a: Vec<Vec<bool>>)
    requires
        n >= 1,
    ensures
        has_pattern(a@, n as int, |i: int, j: int| path_edge(i, j)),
        forall|i: int| 0 <= i < n - 1 ==> #[trigger] a@[i]@[i + 1] && a@[i + 1]@[i],
        forall|r: int, c: int| 0 <= r < n && 0 <= c < n && #[trigger] a@[r]@[c] ==> r + 1 == c || c + 1 == r,
        symmetric_matrix(a@, n as int),
{
    let mut a = empty_pattern(n);
    let mut i: usize = 0;
    while i < n - 1
        invariant
            1 <= n,
            i <= n - 1,
            is_square(a@, n as int),
            forall|r: int, c: int|
                0 <= r < n && 0 <= c < n ==> #[trigger] a@[r]@[c] == (path_edge(r, c) && (if r
                    < c {
                    r
                } else {
                    c
                }) < i),
        decreases n - 1 - i,
    {
        a[i].set(i + 1, true);
        a[i + 1].set(i, true);
        i = i + 1;
    }
    proof {
        lemma_path_law(a@, n as int);
    }
    a
}

/// Ring `0 - 1 - … - (n-1) - 0`; for `n == 1` the single node carries a self-loop.
pub fn cycle_graph(n: usize) -> (a: Vec<Vec<bool>>)
    requires
        n >= 1,
    ensures
        has_pattern(a@, n as int, |i: int, j: int| cycle_edge(n as int, i, j)),
        forall|i: int| 0 <= i < n - 1 ==> #[trigger] a@[i]@[i + 1] && a@[i + 1]@[i],
        a@[0]@[n - 1] && a@[n - 1]@[0],
        forall|r: int, c: int|
            0 <= r < n && 0 <= c < n && #[trigger] a@[r]@[c] ==> r + 1 == c || c + 1 == r || (r == 0 && c
                == n - 1) || (r == n - 1 && c == 0),
        symmetric_matrix(a@, n as int),
{
    let mut a = path_graph(n);
    let ghost p = a@;
    a[0].set(n - 1, true);
    a[n - 1].set(0, true);
    proof {
        assert forall|r: int, c: int| 0 <= r < n && 0 <= c < n implies #[trigger] a@[r]@[c]
            == cycle_edge(n as int, r, c) by {
            if !((r == 0 && c == n - 1) || (r == n - 1 && c == 0)) {
                assert(a@[r]@[c] == p[r]@[c]);
            }
        }
        lemma_cycle_law(a@, n as int);
    }
    a
}

/// Sets every entry `(r, c)` with `lo <= r, c < hi` and `r != c`.
fn fill_clique(a: &mut Vec<Vec<bool>>, n: usize, lo: usize, hi: usize)
    requires
        is_square(old(a)@, n as int),
        lo <= hi <= n,
    ensures
        is_square(final(a)@, n as int),
        forall|r: int, c: int|
            0 <= r < n && 0 <= c < n ==> #[trigger] final(a)@[r]@[c] == (old(a)@[r]@[c] || (lo <= r
                < hi && lo <= c < hi && r != c)),
{
    let ghost a0 = a@;
    let mut i: usize = lo;
    while i < hi
        invariant
            lo <= i <= hi <= n,
            a0 == old(a)@,
            is_square(a0, n as int),
            is_square(a@, n as int),
            forall|r: int, c: int|
                0 <= r < n && 0 <= c < n ==> #[trigger] a@[r]@[c] == (a0[r]@[c] || (lo <= r < i
                    && lo <= c < hi && r != c)),
        decreases hi - i,
    {
        let mut j: usize = lo;
        while j < hi
            invariant
                lo <= i < hi <= n,
                lo <= j <= hi,
                is_square(a0, n as int),
                is_square(a@, n as int),
                forall|r: int, c: int|
                    0 <= r < n && 0 <= c < n ==> #[trigger] a@[r]@[c] == (a0[r]@[c] || (lo <= r
                        < i && lo <= c < hi && r != c) || (r == i && lo <= c < j && r != c)),
            decreases hi - j,
        {
            if i != j {
                a[i].set(j, true);
            }
            j = j + 1;
        }
        i = i + 1;
    }
}

/// Every two distinct nodes joined.
pub fn complete_graph(n: usize) -> (a: Vec<Vec<bool>>)
    ensures
        has_pattern(a@, n as int, |i: int, j: int| complete_edge(i, j)),
        forall|r: int, c: int| 0 <= r < n && 0 <= c < n ==> (#[trigger] a@[r]@[c] <==> r != c),
        symmetric_matrix(a@, n as int),
{
    let mut a = empty_pattern(n);
    fill_clique(&mut a, n, 0, n);
    proof {
        lemma_complete_law(a@, n as int);
    }
    a
}

/// Hub 0 joined to every other node.
pub fn star_graph(n: usize) -> (a: Vec<Vec<bool>>)
    ensures
        has_pattern(a@, n as int, |i: int, j: int| star_edge(i, j)),
        forall|j: int| 1 <= j < n ==> #[trigger] a@[0]@[j] && a@[j]@[0],
        forall|r: int, c: int| 0 <= r < n && 0 <= c < n && #[trigger] a@[r]@[c] ==> (r == 0) != (c == 0),
        symmetric_matrix(a@, n as int),
{
    let mut a = empty_pattern(n);
    let mut i: usize = 1;
    while i < n
        invariant
            1 <= i,
            i <= n || n == 0,
            is_square(a@, n as int),
            forall|r: int, c: int|
                0 <= r < n && 0 <= c < n ==> #[trigger] a@[r]@[c] == (star_edge(r, c) && (if r
                    < c {
                    c
                } else {
                    r
                }) < i),
        decreases n - i,
    {
        a[0].set(i, true);
        a[i].set(0, true);
        i = i + 1;
    }
    proof {
        lemma_star_law(a@, n as int);
    }
    a
}

/// Two cliques of `m` nodes each, `0..m` and `m..2m`, joined by the single
/// bridge edge `{m - 1, m}`.
pub fn barbell_graph(m: usize) -> (a: Vec<Vec<bool>>)
    requires
        m >= 1,
        2 * m <= usize::MAX,
    ensures
        has_pattern(a@, 2 * m, |i: int, j: int| barbell_edge(m as int, i, j)),
        forall|r: int, c: int| 0 <= r < m && 0 <= c < m && r != c ==> #[trigger] a@[r]@[c],
        forall|r: int, c: int| m <= r < 2 * m && m <= c < 2 * m && r != c ==> #[trigger] a@[r]@[c],
        forall|r: int| 0 <= r < 2 * m ==> !#[trigger] a@[r]@[r],
        a@[m - 1]@[m as int] && a@[m as int]@[m - 1],
        forall|r: int, c: int|
            0 <= r < m <= c < 2 * m && (#[trigger] a@[r]@[c] || a@[c]@[r]) ==> r == m - 1 && c == m,
        symmetric_matrix(a@, 2 * m),
{
    let n = 2 * m;
    let mut a = empty_pattern(n);
    fill_clique(&mut a, n, 0, m);
    fill_clique(&mut a, n, m, n);
    let ghost b = a@;
    a[m - 1].set(m, true);
    a[m].set(m - 1, true);
    proof {
        assert forall|r: int, c: int| 0 <= r < n && 0 <= c < n implies #[trigger] a@[r]@[c]
            == barbell_edge(m as int, r, c) by {
            if !((r == m - 1 && c == m) || (r == m && c == m - 1)) {
                assert(a@[r]@[c] == b[r]@[c]);
            }
        }
        lemma_barbell_law(a@, m as int);
    }
    a
}

/// Every generated pattern is symmetric: `i` is joined to `j` exactly when
/// `j` is joined to `i`.
pub proof fn lemma_patterns_symmetric(n: int, m: int, i: int, j: int)
    ensures
        path_edge(i, j) == path_edge(j, i),
        cycle_edge(n, i, j) == cycle_edge(n, j, i),
        complete_edge(i, j) == complete_edge(j, i),
        star_edge(i, j) == star_edge(j, i),
        barbell_edge(m, i, j) == barbell_edge(m, j, i),
{
}

/// Apart from the ring on a single node, no generated graph has a self-loop,
/// so each is a subgraph of the complete graph on its nodes.
pub proof fn lemma_patterns_loop_free(n: int, m: int, i: int, j: int)
    requires
        n >= 2,
        m >= 1,
    ensures
        path_edge(i, j) ==> complete_edge(i, j),
        cycle_edge(n, i, j) ==> complete_edge(i, j),
        star_edge(i, j) ==> complete_edge(i, j),
        barbell_edge(m, i, j) ==> complete_edge(i, j),
{
}

/// The two cliques of a barbell meet only at the bridge `{m - 1, m}`.
pub proof fn lemma_barbell_single_bridge(m: int, i: int, j: int)
    requires
        0 <= i < m <= j < 2 * m,
    ensures
        barbell_edge(m, i, j) <==> (i == m - 1 && j == m),
{
}

/// Every pattern is symmetric as a matrix.
pub open spec fn symmetric_matrix(a: Seq<Vec<bool>>, n: int) -> bool {
    forall|r: int, c: int| 0 <= r < n && 0 <= c < n ==> #[trigger] a[r]@[c] == a[c]@[r]
}

/// A path joins each node to the next one, in both directions, and nothing else.
pub proof fn lemma_path_law(a: Seq<Vec<bool>>, n: int)
    requires
        n >= 1,
        has_pattern(a, n, |i: int, j: int| path_edge(i, j)),
    ensures
        forall|i: int| 0 <= i < n - 1 ==> #[trigger] a[i]@[i + 1] && a[i + 1]@[i],
        forall|r: int, c: int| 0 <= r < n && 0 <= c < n && #[trigger] a[r]@[c] ==> r + 1 == c || c + 1 == r,
        symmetric_matrix(a, n),
{
    assert forall|i: int| 0 <= i < n - 1 implies #[trigger] a[i]@[i + 1] && a[i + 1]@[i] by {
        assert(a[i]@[i + 1] == path_edge(i, i + 1));
        assert(a[i + 1]@[i] == path_edge(i + 1, i));
    }
    assert forall|r: int, c: int| 0 <= r < n && 0 <= c < n implies #[trigger] a[r]@[c] == a[c]@[r] by {
        assert(a[r]@[c] == path_edge(r, c));
        assert(a[c]@[r] == path_edge(c, r));
    }
}

/// A ring joins each node to the next one and node `n - 1` back to node 0,
/// in both directions, and nothing else.
pub proof fn lemma_cycle_law(a: Seq<Vec<bool>>, n: int)
    requires
        n >= 1,
        has_pattern(a, n, |i: int, j: int| cycle_edge(n, i, j)),
    ensures
        forall|i: int| 0 <= i < n - 1 ==> #[trigger] a[i]@[i + 1] && a[i + 1]@[i],
        a[0]@[n - 1] && a[n - 1]@[0],
        forall|r: int, c: int|
            0 <= r < n && 0 <= c < n && #[trigger] a[r]@[c] ==> r + 1 == c || c + 1 == r || (r == 0 && c
                == n - 1) || (r == n - 1 && c == 0),
        symmetric_matrix(a, n),
{
    assert forall|i: int| 0 <= i < n - 1 implies #[trigger] a[i]@[i + 1] && a[i + 1]@[i] by {
        assert(a[i]@[i + 1] == cycle_edge(n, i, i + 1));
        assert(a[i + 1]@[i] == cycle_edge(n, i + 1, i));
    }
    assert(a[0]@[n - 1] == cycle_edge(n, 0, n - 1));
    assert(a[n - 1]@[0] == cycle_edge(n, n - 1, 0));
    assert forall|r: int, c: int| 0 <= r < n && 0 <= c < n implies #[trigger] a[r]@[c] == a[c]@[r] by {
        assert(a[r]@[c] == cycle_edge(n, r, c));
        assert(a[c]@[r] == cycle_edge(n, c, r));
    }
}

/// The complete graph joins every two distinct nodes and no node to itself.
pub proof fn lemma_complete_law(a: Seq<Vec<bool>>, n: int)
    requires
        has_pattern(a, n, |i: int, j: int| complete_edge(i, j)),
    ensures
        forall|r: int, c: int| 0 <= r < n && 0 <= c < n ==> (#[trigger] a[r]@[c] <==> r != c),
        symmetric_matrix(a, n),
{
    assert forall|r: int, c: int| 0 <= r < n && 0 <= c < n implies (#[trigger] a[r]@[c] <==> r != c) by {
        assert(a[r]@[c] == complete_edge(r, c));
    }
}

/// A star joins the hub 0 to every other node, in both directions, and no
/// two other nodes to each other.
pub proof fn lemma_star_law(a: Seq<Vec<bool>>, n: int)
    requires
        has_pattern(a, n, |i: int, j: int| star_edge(i, j)),
    ensures
        forall|j: int| 1 <= j < n ==> #[trigger] a[0]@[j] && a[j]@[0],
        forall|r: int, c: int| 0 <= r < n && 0 <= c < n && #[trigger] a[r]@[c] ==> (r == 0) != (c == 0),
        symmetric_matrix(a, n),
{
    assert forall|j: int| 1 <= j < n implies #[trigger] a[0]@[j] && a[j]@[0] by {
        assert(a[0]@[j] == star_edge(0, j));
        assert(a[j]@[0] == star_edge(j, 0));
    }
    assert forall|r: int, c: int| 0 <= r < n && 0 <= c < n implies #[trigger] a[r]@[c] == a[c]@[r] by {
        assert(a[r]@[c] == star_edge(r, c));
        assert(a[c]@[r] == star_edge(c, r));
    }
}

/// A barbell on `2m` nodes: each half (`0..m` and `m..2m`) is a complete
/// graph, the bridge `{m - 1, m}` is present, and it is the only edge between
/// the halves.
pub proof fn lemma_barbell_law(a: Seq<Vec<bool>>, m: int)
    requires
        m >= 1,
        has_pattern(a, 2 * m, |i: int, j: int| barbell_edge(m, i, j)),
    ensures
        forall|r: int, c: int| 0 <= r < m && 0 <= c < m && r != c ==> #[trigger] a[r]@[c],
        forall|r: int, c: int| m <= r < 2 * m && m <= c < 2 * m && r != c ==> #[trigger] a[r]@[c],
        forall|r: int| 0 <= r < 2 * m ==> !#[trigger] a[r]@[r],
        a[m - 1]@[m] && a[m]@[m - 1],
        forall|r: int, c: int|
            0 <= r < m <= c < 2 * m && (#[trigger] a[r]@[c] || a[c]@[r]) ==> r == m - 1 && c == m,
        symmetric_matrix(a, 2 * m),
{
    assert forall|r: int, c: int| 0 <= r < m && 0 <= c < m && r != c implies #[trigger] a[r]@[c] by {
        assert(a[r]@[c] == barbell_edge(m, r, c));
    }
    assert forall|r: int, c: int| m <= r < 2 * m && m <= c < 2 * m && r != c implies #[trigger] a[r]@[c] by {
        assert(a[r]@[c] == barbell_edge(m, r, c));
    }
    assert forall|r: int| 0 <= r < 2 * m implies !#[trigger] a[r]@[r] by {
        assert(a[r]@[r] == barbell_edge(m, r, r));
    }
    assert(a[m - 1]@[m] == barbell_edge(m, m - 1, m));
    assert(a[m]@[m - 1] == barbell_edge(m, m, m - 1));
    assert forall|r: int, c: int|
        0 <= r < m <= c < 2 * m && (#[trigger] a[r]@[c] || a[c]@[r]) implies r == m - 1 && c == m by {
        assert(a[r]@[c] == barbell_edge(m, r, c));
        assert(a[c]@[r] == barbell_edge(m, c, r));
    }
    assert forall|r: int, c: int| 0 <= r < 2 * m && 0 <= c < 2 * m implies #[trigger] a[r]@[c] == a[c]@[r] by {
        assert(a[r]@[c] == barbell_edge(m, r, c));
        assert(a[c]@[r] == barbell_edge(m, c, r));
    }
}

} // verus!
