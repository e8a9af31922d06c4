use vstd::prelude::*;

use crate::adjacency::{
    edge_present, has_entry_to, is_first_entry_to, lemma_first_entry_unique,
    lemma_empty_rows_symmetric, lemma_total_entries_empty_rows, lemma_total_entries_prefix,
    lemma_total_entries_update, lemma_with_edge_law, lemma_with_edge_symmetric, lemma_without_edge_law,
    lemma_without_edge_removes_one,
    lemma_without_edge_symmetric,
    symmetric, total_entries, with_edge, without_edge, without_first_entry_to,
};
use crate::error::HeatError;

verus! {

/// Undirected weighted graph stored as adjacency lists.
///
/// `adj[i]` lists `(j, w)` for every edge `{i, j}` of weight `w`; a self-loop
/// appears twice in its node's list.  A dense Laplacian computed by the caller
/// may be kept in a cache, which every structural change clears.
pub struct Graph<W> {
    adj: Vec<Vec<(usize, W)>>,
    laplacian_cached: Option<Vec<Vec<W>>>,
    cache_source: Ghost<Seq<Seq<(usize, W)>>>,
}

impl<W> View for Graph<W> {
    type V = Seq<Seq<(usize, W)>>;

    closed spec fn view(&self) -> Seq<Seq<(usize, W)>> {
        self.adj@.map_values(|row: Vec<(usize, W)>| row@)
    }
}

impl<W> Graph<W> {
    #[verifier::type_invariant]
    spec fn inv(self) -> bool {
        &&& total_entries(self@) <= usize::MAX
        &&& self.laplacian_cached is Some ==> self.cache_source@ == self@
    }

    /// The Laplacian currently held in the cache, if any.
    pub closed spec fn cached(&self) -> Option<Seq<Seq<W>>> {
        match self.laplacian_cached {
            Some(l) => Some(l@.map_values(|row: Vec<W>| row@)),
            None => None,
        }
    }

    /// The adjacency lists that the cached Laplacian was stored for.
    pub closed spec fn cache_source(&self) -> Seq<Seq<(usize, W)>> {
        self.cache_source@
    }

    /// Create an empty graph with `n` nodes and no edges.
    pub fn new(n: usize) -> (g: Self)
        ensures
            g@ == Seq::new(n as nat, |i: int| Seq::<(usize, W)>::empty()),
            g.cached() is None,
            symmetric(g@),
            total_entries(g@) == 0,
    {
        let mut adj: Vec<Vec<(usize, W)>> = Vec::new();
        let mut k: usize = 0;
        while k < n
            invariant
                k <= n,
                adj@.len() == k,
                forall|i: int| 0 <= i < k ==> #[trigger] adj@[i]@.len() == 0,
            decreases n - k,
        {
            adj.push(Vec::new());
            k = k + 1;
        }
        let ghost rows = adj@.map_values(|row: Vec<(usize, W)>| row@);
        assert forall|i: int| 0 <= i < n implies #[trigger] rows[i] =~= Seq::<(usize, W)>::empty() by {
            assert(adj@[i]@.len() == 0);
        }
        assert(rows =~= Seq::new(n as nat, |i: int| Seq::<(usize, W)>::empty()));
        proof {
            lemma_total_entries_empty_rows(rows);
            lemma_empty_rows_symmetric(rows);
        }
        Graph { adj, laplacian_cached: None, cache_source: Ghost(Seq::empty()) }
    }

    /// Number of nodes.
    pub fn node_count(&self) -> (r: usize)
        ensures
            r == self@.len(),
    {
        self.adj.len()
    }

    /// Number of edges, counting each undirected edge once: half the number of
    /// adjacency entries.
    pub fn edge_count(&self) -> (r: usize)
        ensures
            r == total_entries(self@) / 2,
    {
        proof {
            use_type_invariant(self);
        }
        let ghost a = self@;
        let mut total: usize = 0;
        let mut k: usize = 0;
        while k < self.adj.len()
            invariant
                a == self@,
                k <= a.len(),
                total == total_entries(a.take(k as int)),
                total_entries(a) <= usize::MAX,
            decreases a.len() - k,
        {
            proof {
                assert(a.take(k + 1).drop_last() =~= a.take(k as int));
                lemma_total_entries_prefix(a, k + 1);
            }
            total = total + self.adj[k].len();
            k = k + 1;
        }
        assert(a.take(k as int) =~= a);
        total / 2
    }

    /// Adjacency list of node `i`.
    pub fn neighbors(&self, i: usize) -> (r: &[(usize, W)])
        requires
            i < self@.len(),
        ensures
            r@ == self@[i as int],
    {
        self.adj[i].as_slice()
    }

    /// Invalidate the cached Laplacian (edge changes do this by themselves).
    pub fn invalidate_cache(&mut self)
        ensures
            final(self)@ == old(self)@,
            final(self).cached() is None,
    {
        proof {
            use_type_invariant(&*self);
        }
        self.laplacian_cached = None;
    }

    /// The cached Laplacian, if one is held.  A cached matrix is always the one
    /// that was stored for exactly the current adjacency lists.
    pub fn cached_laplacian(&self) -> (r: Option<&Vec<Vec<W>>>)
        ensures
            r is None <==> self.cached() is None,
            r matches Some(l) ==> self.cached() == Some(l@.map_values(|row: Vec<W>| row@)),
            r is Some ==> self.cache_source() == self@,
    {
        proof {
            use_type_invariant(self);
        }
        match &self.laplacian_cached {
            Some(l) => Some(l),
            None => None,
        }
    }

    /// Store `l` as the Laplacian of the current adjacency lists.
    pub fn cache_laplacian(&mut self, l: Vec<Vec<W>>)
        ensures
            final(self)@ == old(self)@,
            final(self).cached() == Some(l@.map_values(|row: Vec<W>| row@)),
            final(self).cache_source() == old(self)@,
    {
        proof {
            use_type_invariant(&*self);
        }
        self.laplacian_cached = None;
        self.cache_source = Ghost(self@);
        self.laplacian_cached = Some(l);
    }

    /// Build a graph from adjacency lists as they are, with an empty cache.
    pub fn from_adjacency(adj: Vec<Vec<(usize, W)>>) -> (g: Self)
        requires
            total_entries(adj@.map_values(|row: Vec<(usize, W)>| row@)) <= usize::MAX,
        ensures
            g@ == adj@.map_values(|row: Vec<(usize, W)>| row@),
            g.cached() is None,
    {
        Graph { adj, laplacian_cached: None, cache_source: Ghost(Seq::empty()) }
    }
}

impl<W: Copy> Graph<W> {
    /// Add an undirected edge `{i, j}` with weight `w`.  Clears the Laplacian cache.
    pub fn add_edge(&mut self, i: usize, j: usize, w: W) -> (r: Result<(), HeatError<W>>)
        requires
            total_entries(old(self)@) + 2 <= usize::MAX,
        ensures
            r is Ok <==> i < old(self)@.len() && j < old(self)@.len(),
            r is Err ==> r == Err::<(), HeatError<W>>(
                HeatError::InvalidNode { index: if i >= j { i } else { j }, n: old(self)@.len() as usize },
            ),
            r is Err ==> final(self)@ == old(self)@ && final(self).cached() == old(self).cached(),
            r is Ok ==> final(self)@ == with_edge(old(self)@, i, j, w),
            r is Ok ==> final(self).cached() is None,
            r is Ok ==> total_entries(final(self)@) == total_entries(old(self)@) + 2,
            r is Ok ==> final(self)@.len() == old(self)@.len(),
            r is Ok ==> forall|x: int|
                0 <= x < old(self)@.len() && x != i && x != j ==> #[trigger] final(self)@[x] == old(self)@[x],
            r is Ok && i != j ==> final(self)@[i as int] == old(self)@[i as int].push((j, w))
                && final(self)@[j as int] == old(self)@[j as int].push((i, w)),
            r is Ok && i == j ==> final(self)@[i as int] == old(self)@[i as int].push((i, w)).push((i, w)),
            symmetric(old(self)@) ==> symmetric(final(self)@),
    {
        let n = self.adj.len();
        if i >= n || j >= n {
            let index = if i >= j { i } else { j };
            return Err(HeatError::InvalidNode { index, n });
        }
        let ghost a = self@;
        proof {
            let a1 = a.update(i as int, a[i as int].push((j, w)));
            lemma_total_entries_update(a, i as int, a[i as int].push((j, w)));
            assert(j < a1.len());
            lemma_total_entries_update(a1, j as int, a1[j as int].push((i, w)));
            lemma_with_edge_law(a, i, j, w);
            if symmetric(a) {
                lemma_with_edge_symmetric(a, i, j, w);
            }
        }
        self.laplacian_cached = None;
        let mut adj: Vec<Vec<(usize, W)>> = Vec::new();
        std::mem::swap(&mut adj, &mut self.adj);
        adj[i].push((j, w));
        adj[j].push((i, w));
        proof {
            let b = adj@.map_values(|row: Vec<(usize, W)>| row@);
            let e = with_edge(a, i, j, w);
            assert forall|k: int| 0 <= k < e.len() implies #[trigger] b[k] =~= e[k] by {}
            assert(b =~= e);
        }
        self.adj = adj;
        Ok(())
    }

    /// Remove the undirected edge `{i, j}`.  Returns `true` if an edge existed;
    /// the Laplacian cache is cleared exactly when something was removed.
    pub fn remove_edge(&mut self, i: usize, j: usize) -> (r: Result<bool, HeatError<W>>)
        ensures
            r is Ok <==> i < old(self)@.len() && j < old(self)@.len(),
            r is Err ==> r == Err::<bool, HeatError<W>>(
                HeatError::InvalidNode { index: if i >= j { i } else { j }, n: old(self)@.len() as usize },
            ),
            r is Err ==> final(self)@ == old(self)@ && final(self).cached() == old(self).cached(),
            r is Ok ==> r == Ok::<bool, HeatError<W>>(edge_present(old(self)@, i, j)),
            r is Ok ==> final(self)@ == without_edge(old(self)@, i, j),
            r == Ok::<bool, HeatError<W>>(true) ==> final(self).cached() is None,
            r == Ok::<bool, HeatError<W>>(false) ==> final(self)@ == old(self)@ && final(self).cached() == old(self).cached(),
            total_entries(final(self)@) <= total_entries(old(self)@),
            symmetric(old(self)@) && r == Ok::<bool, HeatError<W>>(true) ==> total_entries(final(self)@)
                + 2 == total_entries(old(self)@),
            r is Ok ==> (r == Ok::<bool, HeatError<W>>(true) <==> ((exists|k: int|
                0 <= k < old(self)@[i as int].len() && (#[trigger] old(self)@[i as int][k]).0 == j) || (exists|k: int|
                0 <= k < old(self)@[j as int].len() && (#[trigger] old(self)@[j as int][k]).0 == i))),
            r is Ok ==> final(self)@.len() == old(self)@.len(),
            r is Ok ==> forall|x: int|
                0 <= x < old(self)@.len() && x != i && x != j ==> #[trigger] final(self)@[x] == old(self)@[x],
            r is Ok && i != j ==> forall|k: int|
                0 <= k < old(self)@[i as int].len() && old(self)@[i as int][k].0 == j && (forall|m: int|
                    0 <= m < k ==> (#[trigger] old(self)@[i as int][m]).0 != j) ==> #[trigger] final(self)@[i as int]
                    == old(self)@[i as int].subrange(0, k) + old(self)@[i as int].subrange(k + 1, old(self)@[i as int].len() as int),
            r is Ok && i != j ==> forall|k: int|
                0 <= k < old(self)@[j as int].len() && old(self)@[j as int][k].0 == i && (forall|m: int|
                    0 <= m < k ==> (#[trigger] old(self)@[j as int][m]).0 != i) ==> #[trigger] final(self)@[j as int]
                    == old(self)@[j as int].subrange(0, k) + old(self)@[j as int].subrange(k + 1, old(self)@[j as int].len() as int),
            symmetric(old(self)@) ==> symmetric(final(self)@),
    {
        let n = self.adj.len();
        if i >= n || j >= n {
            let index = if i >= j { i } else { j };
            return Err(HeatError::InvalidNode { index, n });
        }
        let ghost a = self@;
        let ghost a1 = a.update(i as int, without_first_entry_to(a[i as int], j));
        proof {
            use_type_invariant(&*self);
            lemma_without_edge_law(a, i, j);
            if symmetric(a) {
                lemma_without_edge_symmetric(a, i, j);
                if edge_present(a, i, j) {
                    lemma_without_edge_removes_one(a, i, j);
                }
            }
        }
        let pi = first_entry_to(&self.adj[i], j);
        if pi.is_none() {
            let pj = first_entry_to(&self.adj[j], i);
            if pj.is_none() {
                proof {
                    assert(a1 =~= a);
                    assert(without_edge(a, i, j) =~= a);
                }
                return Ok(false);
            }
        }
        self.laplacian_cached = None;
        let mut adj: Vec<Vec<(usize, W)>> = Vec::new();
        std::mem::swap(&mut adj, &mut self.adj);
        proof {
            assert(adj@.map_values(|row: Vec<(usize, W)>| row@) == a);
        }
        if let Some(p) = pi {
            proof {
                lemma_first_entry_unique(a[i as int], j, p as int);
                lemma_total_entries_update(a, i as int, a1[i as int]);
            }
            adj[i].remove(p);
        }
        proof {
            let b = adj@.map_values(|row: Vec<(usize, W)>| row@);
            assert forall|k: int| 0 <= k < a1.len() implies #[trigger] b[k] =~= a1[k] by {}
            assert(b =~= a1);
        }
        let pj = first_entry_to(&adj[j], i);
        if let Some(q) = pj {
            proof {
                lemma_first_entry_unique(a1[j as int], i, q as int);
                lemma_total_entries_update(a1, j as int, without_first_entry_to(a1[j as int], i));
            }
            adj[j].remove(q);
        }
        proof {
            let b = adj@.map_values(|row: Vec<(usize, W)>| row@);
            let e = without_edge(a, i, j);
            assert forall|k: int| 0 <= k < e.len() implies #[trigger] b[k] =~= e[k] by {}
            assert(b =~= e);
        }
        self.adj = adj;
        Ok(true)
    }
}

impl<W: Copy> Clone for Graph<W> {
    /// A copy with the same adjacency lists and the same cached Laplacian.
    fn clone(&self) -> (r: Self)
        ensures
            r@ == self@,
            r.cached() == self.cached(),
            r.cache_source() == self.cache_source(),
    {
        proof {
            use_type_invariant(self);
        }
        let adj = copy_rows(&self.adj);
        let laplacian_cached = match &self.laplacian_cached {
            Some(l) => Some(copy_rows(l)),
            None => None,
        };
        Graph { adj, laplacian_cached, cache_source: Ghost(self.cache_source@) }
    }
}

/// An element-by-element copy of a matrix stored as rows.
fn copy_rows<T: Copy>(v: &Vec<Vec<T>>) -> (r: Vec<Vec<T>>)
    ensures
        r@.map_values(|row: Vec<T>| row@) == v@.map_values(|row: Vec<T>| row@),
{
    let mut r: Vec<Vec<T>> = Vec::new();
    let mut k: usize = 0;
    while k < v.len()
        invariant
            k <= v@.len(),
            r@.len() == k,
            forall|m: int| 0 <= m < k ==> #[trigger] r@[m]@ == v@[m]@,
        decreases v@.len() - k,
    {
        let mut row: Vec<T> = Vec::new();
        let mut c: usize = 0;
        while c < v[k].len()
            invariant
                k < v@.len(),
                c <= v@[k as int]@.len(),
                row@ == v@[k as int]@.subrange(0, c as int),
            decreases v@[k as int]@.len() - c,
        {
            row.push(v[k][c]);
            c = c + 1;
            proof {
                assert(row@ =~= v@[k as int]@.subrange(0, c as int));
            }
        }
        proof {
            assert(row@ =~= v@[k as int]@);
        }
        r.push(row);
        k = k + 1;
    }
    proof {
        let a = r@.map_values(|row: Vec<T>| row@);
        let b = v@.map_values(|row: Vec<T>| row@);
        assert(a =~= b);
    }
    r
}

/// Position of the first entry of `row` pointing to node `j`.
fn first_entry_to<W>(row: &Vec<(usize, W)>, j: usize) -> (r: Option<usize>)
    ensures
        match r {
            Some(k) => is_first_entry_to(row@, j, k as int),
            None => !has_entry_to(row@, j),
        },
{
    let mut k: usize = 0;
    while k < row.len()
        invariant
            k <= row@.len(),
            forall|m: int| 0 <= m < k ==> #[trigger] row@[m].0 != j,
        decreases row@.len() - k,
    {
        if row[k].0 == j {
            return Some(k);
        }
        k = k + 1;
    }
    None
}

} // verus!
