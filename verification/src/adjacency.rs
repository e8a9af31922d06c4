//! The mathematical model of adjacency lists: what adding and removing an
//! edge does to them, and the symmetry that both operations keep.

use vstd::prelude::*;

verus! {

/// Number of adjacency entries over all nodes (each undirected edge counts twice).
pub open spec fn total_entries<W>(a: Seq<Seq<(usize, W)>>) -> nat
    decreases a.len(),
{
    if a.len() == 0 {
        0
    } else {
        total_entries(a.drop_last()) + a.last().len()
    }
}

/// The weights of the entries of `row` that point to node `j`, in list order.
pub open spec fn weights_to<W>(row: Seq<(usize, W)>, j: usize) -> Seq<W> {
    row.filter(points_to(j)).map_values(weight_of())
}

/// The predicate "the entry points to node `j`".
pub open spec fn points_to<W>(j: usize) -> spec_fn((usize, W)) -> bool {
    |e: (usize, W)| e.0 == j
}

/// The weight of an entry.
pub open spec fn weight_of<W>() -> spec_fn((usize, W)) -> W {
    |e: (usize, W)| e.1
}

/// `row` has an entry pointing to node `j`.
pub open spec fn has_entry_to<W>(row: Seq<(usize, W)>, j: usize) -> bool {
    exists|k: int| 0 <= k < row.len() && #[trigger] row[k].0 == j
}

/// `k` is the position of the first entry of `row` that points to node `j`.
pub open spec fn is_first_entry_to<W>(row: Seq<(usize, W)>, j: usize, k: int) -> bool {
    &&& 0 <= k < row.len()
    &&& row[k].0 == j
    &&& forall|m: int| 0 <= m < k ==> #[trigger] row[m].0 != j
}

/// `row` without its first entry pointing to `j` (unchanged if there is none).
pub open spec fn without_first_entry_to<W>(row: Seq<(usize, W)>, j: usize) -> Seq<(usize, W)> {
    if has_entry_to(row, j) {
        row.remove(choose|k: int| is_first_entry_to(row, j, k))
    } else {
        row
    }
}

/// The adjacency lists after adding the undirected edge `{i, j}` of weight `w`:
/// `(j, w)` is appended to list `i`, then `(i, w)` to list `j`.
pub open spec fn with_edge<W>(a: Seq<Seq<(usize, W)>>, i: usize, j: usize, w: W) -> Seq<Seq<(usize, W)>> {
    let a1 = a.update(i as int, a[i as int].push((j, w)));
    a1.update(j as int, a1[j as int].push((i, w)))
}

/// The adjacency lists after removing the edge `{i, j}`: the first entry to `j`
/// leaves list `i`, then the first entry to `i` leaves list `j`.
pub open spec fn without_edge<W>(a: Seq<Seq<(usize, W)>>, i: usize, j: usize) -> Seq<Seq<(usize, W)>> {
    let a1 = a.update(i as int, without_first_entry_to(a[i as int], j));
    a1.update(j as int, without_first_entry_to(a1[j as int], i))
}

/// Whether `without_edge(a, i, j)` removes anything.
pub open spec fn edge_present<W>(a: Seq<Seq<(usize, W)>>, i: usize, j: usize) -> bool {
    has_entry_to(a[i as int], j) || has_entry_to(
        a.update(i as int, without_first_entry_to(a[i as int], j))[j as int],
        i,
    )
}

/// Every entry points to a node of the graph, every edge `{i, j}` with `i != j`
/// is listed with the same weights, in the same order, at both ends, and the
/// self-loops of each node come in equal consecutive pairs.
pub open spec fn symmetric<W>(a: Seq<Seq<(usize, W)>>) -> bool {
    &&& forall|i: int, k: int| 0 <= i < a.len() && 0 <= k < a[i].len() ==> (#[trigger] a[i][k]).0 < a.len()
    &&& forall|i: usize, j: usize|
        i < a.len() && j < a.len() && i != j ==> #[trigger] weights_to(a[i as int], j) == #[trigger] weights_to(a[j as int], i)
    &&& forall|i: usize| i < a.len() ==> paired(#[trigger] weights_to(a[i as int], i))
}

/// `s` is made of equal consecutive pairs.
pub open spec fn paired<W>(s: Seq<W>) -> bool {
    &&& s.len() % 2 == 0
    &&& forall|k: int| 0 <= k < s.len() / 2 ==> #[trigger] s[2 * k] == s[2 * k + 1]
}

/// The first entry to `j` is unique, so `without_first_entry_to` removes position `k`.
pub proof fn lemma_first_entry_unique<W>(row: Seq<(usize, W)>, j: usize, k: int)
    requires
        is_first_entry_to(row, j, k),
    ensures
        has_entry_to(row, j),
        (choose|m: int| is_first_entry_to(row, j, m)) == k,
        without_first_entry_to(row, j) == row.remove(k),
{
    assert(row[k].0 == j);
    let c = choose|m: int| is_first_entry_to(row, j, m);
    assert(is_first_entry_to(row, j, c));
    if c < k {
        assert(row[c].0 != j);
    } else if c > k {
        assert(row[k].0 != j);
    }
}

/// Appending an entry appends its weight to the weights toward its target,
/// and leaves the weights toward every other node unchanged.
pub proof fn lemma_weights_to_push<W>(row: Seq<(usize, W)>, e: (usize, W), x: usize)
    ensures
        weights_to(row.push(e), x) == (if e.0 == x {
            weights_to(row, x).push(e.1)
        } else {
            weights_to(row, x)
        }),
{
    let p = points_to::<W>(x);
    row.lemma_filter_push(e, p);
    assert(row.filter(p).push(e).map_values(weight_of::<W>()) =~= row.filter(p).map_values(
        weight_of::<W>(),
    ).push(e.1));
}

/// Removing the first entry to `j` drops the first weight toward `j`, and
/// leaves the weights toward every other node unchanged.
pub proof fn lemma_weights_to_remove_first<W>(row: Seq<(usize, W)>, j: usize, k: int, x: usize)
    requires
        is_first_entry_to(row, j, k),
    ensures
        weights_to(row.remove(k), x) == (if x == j {
            weights_to(row, x).drop_first()
        } else {
            weights_to(row, x)
        }),
{
    let p = points_to::<W>(x);
    let m = weight_of::<W>();
    let pre = row.subrange(0, k);
    let mid = seq![row[k]];
    let post = row.subrange(k + 1, row.len() as int);
    assert(row =~= pre + mid + post);
    assert(row.remove(k) =~= pre + post);
    Seq::filter_distributes_over_add(pre + mid, post, p);
    Seq::filter_distributes_over_add(pre, mid, p);
    Seq::filter_distributes_over_add(pre, post, p);
    assert(Seq::<(usize, W)>::empty().push(row[k]) =~= mid);
    Seq::<(usize, W)>::empty().lemma_filter_push(row[k], p);
    assert(Seq::<(usize, W)>::empty().filter(p) =~= Seq::<(usize, W)>::empty()) by {
        reveal(Seq::filter);
    }
    if x == j {
        assert(pre.all(|e: (usize, W)| !p(e)));
        pre.lemma_all_neg_filter_empty(p);
        assert(pre.filter(p) =~= Seq::<(usize, W)>::empty());
        assert((pre.filter(p) + mid + post.filter(p)).map_values(m).drop_first() =~= (pre.filter(
            p,
        ) + post.filter(p)).map_values(m));
    } else {
        assert(mid.filter(p) =~= Seq::<(usize, W)>::empty());
        assert(pre.filter(p) + mid.filter(p) =~= pre.filter(p));
    }
}

/// A list has an entry to `j` exactly when some weight is listed toward `j`.
pub proof fn lemma_has_entry_iff_weights<W>(row: Seq<(usize, W)>, j: usize)
    ensures
        has_entry_to(row, j) <==> weights_to(row, j).len() > 0,
{
    let p = points_to::<W>(j);
    if has_entry_to(row, j) {
        let k = choose|k: int| 0 <= k < row.len() && #[trigger] row[k].0 == j;
        row.lemma_filter_contains(p, k);
    }
    if weights_to(row, j).len() > 0 {
        let f = row.filter(p);
        row.lemma_filter_pred(p, 0);
        assert(f.contains(f[0]));
        row.lemma_filter_contains_rev(p, f[0]);
        let k = choose|k: int| 0 <= k < row.len() && row[k] == f[0];
        assert(row[k].0 == j);
    }
}

/// Two equal weights appended to a paired sequence keep it paired.
pub proof fn lemma_paired_push_pair<W>(s: Seq<W>, w: W)
    requires
        paired(s),
    ensures
        paired(s.push(w).push(w)),
{
    let t = s.push(w).push(w);
    assert forall|k: int| 0 <= k < t.len() / 2 implies #[trigger] t[2 * k] == t[2 * k + 1] by {
        if k < s.len() / 2 {
            assert(s[2 * k] == s[2 * k + 1]);
        }
    }
}

/// The weights toward `y` of list `x` after adding the edge `{i, j}`.
pub proof fn lemma_with_edge_weights<W>(a: Seq<Seq<(usize, W)>>, i: usize, j: usize, w: W, x: usize, y: usize)
    requires
        i < a.len(),
        j < a.len(),
        x < a.len(),
    ensures
        weights_to(with_edge(a, i, j, w)[x as int], y) == (if i == j && x == i && y == i {
            weights_to(a[x as int], y).push(w).push(w)
        } else if (x == i && y == j) || (x == j && y == i) {
            weights_to(a[x as int], y).push(w)
        } else {
            weights_to(a[x as int], y)
        }),
{
    let a1 = a.update(i as int, a[i as int].push((j, w)));
    let b = with_edge(a, i, j, w);
    lemma_weights_to_push(a[i as int], (j, w), y);
    lemma_weights_to_push(a1[j as int], (i, w), y);
    lemma_weights_to_push(a[j as int], (i, w), y);
    if i == j && x == i {
        assert(b[x as int] == a[i as int].push((j, w)).push((i, w)));
    }
}

/// Adding an edge keeps adjacency lists symmetric.
pub proof fn lemma_with_edge_symmetric<W>(a: Seq<Seq<(usize, W)>>, i: usize, j: usize, w: W)
    requires
        symmetric(a),
        i < a.len(),
        j < a.len(),
    ensures
        symmetric(with_edge(a, i, j, w)),
{
    let b = with_edge(a, i, j, w);
    let a1 = a.update(i as int, a[i as int].push((j, w)));
    assert forall|x: int, k: int| 0 <= x < b.len() && 0 <= k < b[x].len() implies (#[trigger] b[x][k]).0 < b.len() by {
        if x == j as int {
            if k < a1[x].len() {
                if x == i as int {
                    if k < a[x].len() {
                        assert(b[x][k] == a[x][k]);
                    }
                } else {
                    assert(b[x][k] == a[x][k]);
                }
            }
        } else if x == i as int {
            if k < a[x].len() {
                assert(b[x][k] == a[x][k]);
            }
        } else {
            assert(b[x][k] == a[x][k]);
        }
    }
    assert forall|x: usize, y: usize|
        x < b.len() && y < b.len() && x != y implies #[trigger] weights_to(b[x as int], y)
        == #[trigger] weights_to(b[y as int], x) by {
        lemma_with_edge_weights(a, i, j, w, x, y);
        lemma_with_edge_weights(a, i, j, w, y, x);
        assert(weights_to(a[x as int], y) == weights_to(a[y as int], x));
    }
    assert forall|x: usize| x < b.len() implies paired(#[trigger] weights_to(b[x as int], x)) by {
        lemma_with_edge_weights(a, i, j, w, x, x);
        assert(paired(weights_to(a[x as int], x)));
        if i == j && x == i {
            lemma_paired_push_pair(weights_to(a[x as int], x), w);
        }
    }
}

/// A list with an entry to `j` has a first such entry.
pub proof fn lemma_first_entry_exists<W>(row: Seq<(usize, W)>, j: usize)
    requires
        has_entry_to(row, j),
    ensures
        exists|k: int| is_first_entry_to(row, j, k),
    decreases row.len(),
{
    let init = row.drop_last();
    if has_entry_to(init, j) {
        lemma_first_entry_exists(init, j);
        let k = choose|k: int| is_first_entry_to(init, j, k);
        assert(row[k] == init[k]);
        assert forall|m: int| 0 <= m < k implies #[trigger] row[m].0 != j by {
            assert(row[m] == init[m]);
        }
        assert(is_first_entry_to(row, j, k));
    } else {
        let k = row.len() - 1;
        let k0 = choose|k0: int| 0 <= k0 < row.len() && #[trigger] row[k0].0 == j;
        if k0 < k {
            assert(init[k0] == row[k0]);
        }
        assert forall|m: int| 0 <= m < k implies #[trigger] row[m].0 != j by {
            assert(init[m] == row[m]);
            if row[m].0 == j {
                assert(init[m].0 == j);
            }
        }
        assert(is_first_entry_to(row, j, k));
    }
}

/// The weights toward `y` after removing the first entry to `t` from `row`.
pub proof fn lemma_without_first_weights<W>(row: Seq<(usize, W)>, t: usize, y: usize)
    ensures
        weights_to(without_first_entry_to(row, t), y) == (if has_entry_to(row, t) && y == t {
            weights_to(row, y).drop_first()
        } else {
            weights_to(row, y)
        }),
{
    if has_entry_to(row, t) {
        lemma_first_entry_exists(row, t);
        let k = choose|k: int| is_first_entry_to(row, t, k);
        lemma_first_entry_unique(row, t, k);
        lemma_weights_to_remove_first(row, t, k, y);
    }
}

/// Removing an entry keeps every remaining entry pointing below `n`.
pub proof fn lemma_without_first_targets<W>(row: Seq<(usize, W)>, t: usize, n: int)
    requires
        forall|k: int| 0 <= k < row.len() ==> (#[trigger] row[k]).0 < n,
    ensures
        forall|k: int|
            0 <= k < without_first_entry_to(row, t).len() ==> (#[trigger] without_first_entry_to(
                row,
                t,
            )[k]).0 < n,
{
    if has_entry_to(row, t) {
        lemma_first_entry_exists(row, t);
        let c = choose|k: int| is_first_entry_to(row, t, k);
        lemma_first_entry_unique(row, t, c);
        let r = row.remove(c);
        assert forall|k: int| 0 <= k < r.len() implies (#[trigger] r[k]).0 < n by {
            if k < c {
                assert(r[k] == row[k]);
            } else {
                assert(r[k] == row[k + 1]);
            }
        }
    }
}

/// Two leading weights dropped from a paired sequence leave it paired.
pub proof fn lemma_paired_drop_pair<W>(s: Seq<W>)
    requires
        paired(s),
        s.len() >= 2,
    ensures
        paired(s.drop_first().drop_first()),
{
    let t = s.drop_first().drop_first();
    assert forall|k: int| 0 <= k < t.len() / 2 implies #[trigger] t[2 * k] == t[2 * k + 1] by {
        assert(s[2 * (k + 1)] == s[2 * (k + 1) + 1]);
    }
}

/// Removing an edge keeps adjacency lists symmetric.
pub proof fn lemma_without_edge_symmetric<W>(a: Seq<Seq<(usize, W)>>, i: usize, j: usize)
    requires
        symmetric(a),
        i < a.len(),
        j < a.len(),
    ensures
        symmetric(without_edge(a, i, j)),
{
    let a1 = a.update(i as int, without_first_entry_to(a[i as int], j));
    let b = without_edge(a, i, j);
    lemma_has_entry_iff_weights(a[i as int], j);
    lemma_has_entry_iff_weights(a[j as int], i);
    lemma_has_entry_iff_weights(a1[j as int], i);
    assert forall|x: int, k: int| 0 <= x < b.len() && 0 <= k < b[x].len() implies (#[trigger] b[x][k]).0 < b.len() by {
        lemma_without_first_targets(a[i as int], j, a.len() as int);
        lemma_without_first_targets(a1[j as int], i, a.len() as int);
        if x != i as int && x != j as int {
            assert(b[x] == a[x]);
        }
    }
    assert forall|x: usize, y: usize|
        x < b.len() && y < b.len() && x != y implies #[trigger] weights_to(b[x as int], y)
        == #[trigger] weights_to(b[y as int], x) by {
        lemma_without_first_weights(a[i as int], j, y);
        lemma_without_first_weights(a[i as int], j, x);
        lemma_without_first_weights(a1[j as int], i, y);
        lemma_without_first_weights(a1[j as int], i, x);
        assert(weights_to(a[x as int], y) == weights_to(a[y as int], x));
        assert(weights_to(a[i as int], j) == weights_to(a[j as int], i) || i == j);
    }
    assert forall|x: usize| x < b.len() implies paired(#[trigger] weights_to(b[x as int], x)) by {
        lemma_without_first_weights(a[i as int], j, x);
        lemma_without_first_weights(a1[j as int], i, x);
        let s = weights_to(a[x as int], x);
        assert(paired(s));
        if i == j && x == i && has_entry_to(a[i as int], i) {
            lemma_has_entry_iff_weights(a1[j as int], i);
            lemma_paired_drop_pair(s);
        }
    }
}

/// Adding an edge adds two adjacency entries, so one more edge is counted.
pub proof fn lemma_with_edge_adds_one<W>(a: Seq<Seq<(usize, W)>>, i: usize, j: usize, w: W)
    requires
        i < a.len(),
        j < a.len(),
    ensures
        total_entries(with_edge(a, i, j, w)) == total_entries(a) + 2,
        total_entries(with_edge(a, i, j, w)) / 2 == total_entries(a) / 2 + 1,
{
    let a1 = a.update(i as int, a[i as int].push((j, w)));
    lemma_total_entries_update(a, i as int, a[i as int].push((j, w)));
    lemma_total_entries_update(a1, j as int, a1[j as int].push((i, w)));
}

/// In symmetric adjacency lists, removing a present edge removes both of its
/// entries, so one edge fewer is counted.
pub proof fn lemma_without_edge_removes_one<W>(a: Seq<Seq<(usize, W)>>, i: usize, j: usize)
    requires
        symmetric(a),
        i < a.len(),
        j < a.len(),
        edge_present(a, i, j),
    ensures
        total_entries(without_edge(a, i, j)) + 2 == total_entries(a),
        total_entries(without_edge(a, i, j)) / 2 + 1 == total_entries(a) / 2,
{
    let a1 = a.update(i as int, without_first_entry_to(a[i as int], j));
    lemma_has_entry_iff_weights(a[i as int], j);
    lemma_has_entry_iff_weights(a[j as int], i);
    lemma_without_first_weights(a[i as int], j, i);
    lemma_has_entry_iff_weights(a1[j as int], i);
    if i == j {
        assert(paired(weights_to(a[i as int], i)));
    } else {
        assert(weights_to(a[i as int], j) == weights_to(a[j as int], i));
    }
    assert(has_entry_to(a[i as int], j));
    assert(has_entry_to(a1[j as int], i));
    lemma_first_entry_exists(a[i as int], j);
    let k = choose|k: int| is_first_entry_to(a[i as int], j, k);
    lemma_first_entry_unique(a[i as int], j, k);
    lemma_total_entries_update(a, i as int, without_first_entry_to(a[i as int], j));
    lemma_first_entry_exists(a1[j as int], i);
    let q = choose|q: int| is_first_entry_to(a1[j as int], i, q);
    lemma_first_entry_unique(a1[j as int], i, q);
    lemma_total_entries_update(a1, j as int, without_first_entry_to(a1[j as int], i));
}

/// Removing an edge right after adding it between nodes that had no edge
/// between them gives back the adjacency lists from before, and reports the
/// edge as present.
pub proof fn lemma_remove_undoes_add<W>(a: Seq<Seq<(usize, W)>>, i: usize, j: usize, w: W)
    requires
        i < a.len(),
        j < a.len(),
        !has_entry_to(a[i as int], j),
        !has_entry_to(a[j as int], i),
    ensures
        edge_present(with_edge(a, i, j, w), i, j),
        without_edge(with_edge(a, i, j, w), i, j) == a,
{
    let b = with_edge(a, i, j, w);
    let ri = a[i as int];
    let rj = a[j as int];
    if i == j {
        let r1 = ri.push((i, w));
        let r2 = r1.push((i, w));
        assert(b[i as int] == r2);
        assert(is_first_entry_to(r2, i, ri.len() as int));
        lemma_first_entry_unique(r2, i, ri.len() as int);
        assert(r2.remove(ri.len() as int) =~= r1);
        let b1 = b.update(i as int, r1);
        assert(is_first_entry_to(r1, i, ri.len() as int));
        lemma_first_entry_unique(r1, i, ri.len() as int);
        assert(r1.remove(ri.len() as int) =~= ri);
        assert(without_edge(b, i, j) =~= a);
    } else {
        let si = ri.push((j, w));
        let sj = rj.push((i, w));
        assert(b[i as int] == si);
        assert(b[j as int] == sj);
        assert(is_first_entry_to(si, j, ri.len() as int));
        lemma_first_entry_unique(si, j, ri.len() as int);
        assert(si.remove(ri.len() as int) =~= ri);
        let b1 = b.update(i as int, ri);
        assert(b1[j as int] == sj);
        assert(is_first_entry_to(sj, i, rj.len() as int));
        lemma_first_entry_unique(sj, i, rj.len() as int);
        assert(sj.remove(rj.len() as int) =~= rj);
        assert(without_edge(b, i, j) =~= a);
    }
}

/// Adjacency lists without any entries are symmetric.
pub proof fn lemma_empty_rows_symmetric<W>(a: Seq<Seq<(usize, W)>>)
    requires
        forall|i: int| 0 <= i < a.len() ==> #[trigger] a[i].len() == 0,
    ensures
        symmetric(a),
{
    assert forall|i: int, j: usize| 0 <= i < a.len() implies #[trigger] weights_to(a[i], j)
        =~= Seq::<W>::empty() by {
        assert(a[i] =~= Seq::<(usize, W)>::empty());
        assert(Seq::<(usize, W)>::empty().filter(points_to::<W>(j)) =~= Seq::<(usize, W)>::empty()) by {
            reveal(Seq::filter);
        }
    }
    assert forall|i: usize| i < a.len() implies paired(#[trigger] weights_to(a[i as int], i)) by {
        assert(weights_to(a[i as int], i) =~= Seq::<W>::empty());
    }
    assert forall|i: usize, j: usize|
        i < a.len() && j < a.len() && i != j implies #[trigger] weights_to(a[i as int], j)
        == #[trigger] weights_to(a[j as int], i) by {
        assert(weights_to(a[i as int], j) =~= Seq::<W>::empty());
        assert(weights_to(a[j as int], i) =~= Seq::<W>::empty());
    }
}

/// Adding the edge `{i, j}` of weight `w` appends `(j, w)` to the list of `i`
/// and `(i, w)` to the list of `j` (both to the same list for a self-loop),
/// and leaves every other list as it was.
pub proof fn lemma_with_edge_law<W>(a: Seq<Seq<(usize, W)>>, i: usize, j: usize, w: W)
    requires
        i < a.len(),
        j < a.len(),
    ensures
        with_edge(a, i, j, w).len() == a.len(),
        forall|x: int|
            0 <= x < a.len() && x != i && x != j ==> #[trigger] with_edge(a, i, j, w)[x] == a[x],
        i != j ==> with_edge(a, i, j, w)[i as int] == a[i as int].push((j, w)),
        i != j ==> with_edge(a, i, j, w)[j as int] == a[j as int].push((i, w)),
        i == j ==> with_edge(a, i, j, w)[i as int] == a[i as int].push((i, w)).push((i, w)),
{
}

/// Removing the edge `{i, j}` finds an edge exactly when the list of `i`
/// holds an entry to `j` or the list of `j` holds an entry to `i`, wherever in
/// the list it sits.  For `i != j` the first entry to `j` leaves the list of
/// `i` and the first entry to `i` leaves the list of `j`; every other list is
/// kept.
pub proof fn lemma_without_edge_law<W>(a: Seq<Seq<(usize, W)>>, i: usize, j: usize)
    requires
        i < a.len(),
        j < a.len(),
    ensures
        edge_present(a, i, j) <==> ((exists|k: int| 0 <= k < a[i as int].len() && (#[trigger] a[i as int][k]).0 == j)
            || (exists|k: int| 0 <= k < a[j as int].len() && (#[trigger] a[j as int][k]).0 == i)),
        without_edge(a, i, j).len() == a.len(),
        forall|x: int|
            0 <= x < a.len() && x != i && x != j ==> #[trigger] without_edge(a, i, j)[x] == a[x],
        i != j ==> forall|k: int|
            0 <= k < a[i as int].len() && a[i as int][k].0 == j && (forall|m: int|
                0 <= m < k ==> (#[trigger] a[i as int][m]).0 != j) ==> #[trigger] without_edge(a, i, j)[i as int]
                == a[i as int].subrange(0, k) + a[i as int].subrange(k + 1, a[i as int].len() as int),
        i != j ==> forall|k: int|
            0 <= k < a[j as int].len() && a[j as int][k].0 == i && (forall|m: int|
                0 <= m < k ==> (#[trigger] a[j as int][m]).0 != i) ==> #[trigger] without_edge(a, i, j)[j as int]
                == a[j as int].subrange(0, k) + a[j as int].subrange(k + 1, a[j as int].len() as int),
        i != j && (forall|k: int| 0 <= k < a[i as int].len() ==> (#[trigger] a[i as int][k]).0 != j)
            ==> without_edge(a, i, j)[i as int] == a[i as int],
        i != j && (forall|k: int| 0 <= k < a[j as int].len() ==> (#[trigger] a[j as int][k]).0 != i)
            ==> without_edge(a, i, j)[j as int] == a[j as int],
{
    let a1 = a.update(i as int, without_first_entry_to(a[i as int], j));
    if !has_entry_to(a[i as int], j) {
        assert(a1 =~= a);
    }
    if i != j {
        assert(a1[j as int] == a[j as int]);
        assert forall|k: int|
            0 <= k < a[i as int].len() && a[i as int][k].0 == j && (forall|m: int|
                0 <= m < k ==> (#[trigger] a[i as int][m]).0 != j) implies #[trigger] without_edge(a, i, j)[i as int]
            == a[i as int].subrange(0, k) + a[i as int].subrange(k + 1, a[i as int].len() as int) by {
            assert(is_first_entry_to(a[i as int], j, k));
            lemma_first_entry_unique(a[i as int], j, k);
        }
        assert forall|k: int|
            0 <= k < a[j as int].len() && a[j as int][k].0 == i && (forall|m: int|
                0 <= m < k ==> (#[trigger] a[j as int][m]).0 != i) implies #[trigger] without_edge(a, i, j)[j as int]
            == a[j as int].subrange(0, k) + a[j as int].subrange(k + 1, a[j as int].len() as int) by {
            assert(is_first_entry_to(a[j as int], i, k));
            lemma_first_entry_unique(a[j as int], i, k);
        }
    }
}

/// A prefix of the lists holds no more entries than all of them.
pub proof fn lemma_total_entries_prefix<W>(a: Seq<Seq<(usize, W)>>, k: int)
    requires
        0 <= k <= a.len(),
    ensures
        total_entries(a.take(k)) <= total_entries(a),
    decreases a.len(),
{
    if k < a.len() {
        assert(a.drop_last().take(k) =~= a.take(k));
        lemma_total_entries_prefix(a.drop_last(), k);
    } else {
        assert(a.take(k) =~= a);
    }
}

/// Replacing one list changes the entry total by the difference in length.
pub proof fn lemma_total_entries_update<W>(a: Seq<Seq<(usize, W)>>, i: int, row: Seq<(usize, W)>)
    requires
        0 <= i < a.len(),
    ensures
        total_entries(a.update(i, row)) == total_entries(a) - a[i].len() + row.len(),
    decreases a.len(),
{
    if i == a.len() - 1 {
        assert(a.update(i, row).drop_last() =~= a.drop_last());
    } else {
        lemma_total_entries_update(a.drop_last(), i, row);
        assert(a.update(i, row).drop_last() =~= a.drop_last().update(i, row));
    }
}

/// Adjacency lists without entries hold no entries in total.
pub proof fn lemma_total_entries_empty_rows<W>(a: Seq<Seq<(usize, W)>>)
    requires
        forall|i: int| 0 <= i < a.len() ==> #[trigger] a[i].len() == 0,
    ensures
        total_entries(a) == 0,
    decreases a.len(),
{
    if a.len() > 0 {
        lemma_total_entries_empty_rows(a.drop_last());
    }
}

} // verus!
