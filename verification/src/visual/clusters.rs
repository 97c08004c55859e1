//! Clustering of nearby regions with a union-find forest.
//!
//! Regions `0..n` are taken pairwise, `(i, j)` for `i < j` in lexicographic
//! order; whenever the pair is near, the cluster of `i` joins the cluster of
//! `j` and takes the name of `j`'s cluster. Which pairs are near is decided
//! by the caller from the regions' coordinates.

use vstd::prelude::*;

verus! {

/// Every label `from` replaced by `to`.
pub open spec fn relabel(labels: Seq<int>, from: int, to: int) -> Seq<int> {
    labels.map_values(|x: int| if x == from { to } else { x })
}

/// The labels after considering the pair `(i, j)`: when it is near and its
/// ends carry different labels, the label of `i` becomes that of `j`.
pub open spec fn join_step(near: Seq<Seq<bool>>, labels: Seq<int>, i: int, j: int) -> Seq<int> {
    if near[i][j] && labels[i] != labels[j] {
        relabel(labels, labels[i], labels[j])
    } else {
        labels
    }
}

/// The labels after the pairs `(i, i + 1)` up to `(i, j - 1)`, from `labels`.
pub open spec fn row_labels(near: Seq<Seq<bool>>, labels: Seq<int>, i: int, j: int) -> Seq<int>
    decreases j - i,
{
    if j <= i + 1 {
        labels
    } else {
        join_step(near, row_labels(near, labels, i, j - 1), i, j - 1)
    }
}

/// The labels after all pairs whose first region comes before `i`; at the
/// start every region is labelled with its own index.
pub open spec fn labels_before(near: Seq<Seq<bool>>, i: int) -> Seq<int>
    decreases i,
{
    if i <= 0 {
        Seq::new(near.len(), |k: int| k)
    } else {
        row_labels(near, labels_before(near, i - 1), i - 1, near.len() as int)
    }
}

/// The final cluster label of every region.
pub open spec fn cluster_labels(near: Seq<Seq<bool>>) -> Seq<int> {
    labels_before(near, near.len() as int)
}

/// The regions among the first `k` that carry label `r`, in order.
pub open spec fn members_upto(labels: Seq<int>, r: int, k: int) -> Seq<int>
    decreases k,
{
    if k <= 0 {
        Seq::empty()
    } else {
        members_upto(labels, r, k - 1) + if labels[k - 1] == r { seq![k - 1] } else { Seq::empty() }
    }
}

/// The non-empty clusters with labels below `k`, by increasing label.
pub open spec fn groups_upto(labels: Seq<int>, k: int) -> Seq<Seq<int>>
    decreases k,
{
    if k <= 0 {
        Seq::empty()
    } else {
        let g = members_upto(labels, k - 1, labels.len() as int);
        groups_upto(labels, k - 1) + if g.len() > 0 { seq![g] } else { Seq::empty() }
    }
}

/// The clusters of the regions: the members of each, in order, with the
/// clusters ordered by label.
pub open spec fn cluster_groups_spec(near: Seq<Seq<bool>>) -> Seq<Seq<int>> {
    groups_upto(cluster_labels(near), near.len() as int)
}

/// Whether `near` is an `n` × `n` matrix.
pub open spec fn square(near: Seq<Seq<bool>>) -> bool {
    forall|i: int| 0 <= i < near.len() ==> (#[trigger] near[i]).len() == near.len()
}

/// The forest `parent` represents the labels `rep`: roots are their own
/// label, every other region points to one of the same cluster closer to its
/// root, `dist` measuring that closeness.
pub open spec fn forest(parent: Seq<usize>, rep: Seq<int>, dist: Seq<nat>) -> bool {
    let n = parent.len();
    &&& rep.len() == n
    &&& dist.len() == n
    &&& forall|k: int| 0 <= k < n ==> 0 <= #[trigger] parent[k] < n && 0 <= rep[k] < n
    &&& forall|k: int| 0 <= k < n ==> #[trigger] rep[rep[k]] == rep[k]
    &&& forall|k: int| 0 <= k < n ==> (#[trigger] parent[k] == k <==> rep[k] == k)
    &&& forall|k: int| 0 <= k < n && rep[k] == k ==> #[trigger] dist[k] == 0
    &&& forall|k: int|
        0 <= k < n && #[trigger] parent[k] != k ==> rep[parent[k] as int] == rep[k] && dist[parent[k] as int] < dist[k]
            && dist[rep[k]] < dist[k]
}

/// The root of the cluster of `x`, shortening the path walked to it.
fn find(parent: &mut Vec<usize>, x: usize, Ghost(rep): Ghost<Seq<int>>, Ghost(dist): Ghost<Seq<nat>>) -> (root: usize)
    requires
        forest(old(parent)@, rep, dist),
        x < old(parent)@.len(),
    ensures
        forest(final(parent)@, rep, dist),
        final(parent)@.len() == old(parent)@.len(),
        root == rep[x as int],
        root < old(parent)@.len(),
{
    let n = parent.len();
    let mut root = x;
    while parent[root] != root
        invariant
            forest(parent@, rep, dist),
            n == parent@.len(),
            root < n,
            rep[root as int] == rep[x as int],
        decreases dist[root as int],
    {
        root = parent[root];
    }
    let mut y = x;
    while parent[y] != root
        invariant
            forest(parent@, rep, dist),
            n == parent@.len(),
            y < n,
            root < n,
            rep[y as int] == root,
            rep[root as int] == root,
        decreases dist[y as int],
    {
        let next = parent[y];
        let ghost before = parent@;
        parent.set(y, root);
        assert(forest(parent@, rep, dist)) by {
            assert forall|k: int| 0 <= k < n implies (#[trigger] parent@[k] == k <==> rep[k] == k) by {
                if k != y {
                    assert(parent@[k] == before[k]);
                }
            }
            assert forall|k: int|
                0 <= k < n && #[trigger] parent@[k] != k implies rep[parent@[k] as int] == rep[k] && dist[parent@[k] as int]
                < dist[k] && dist[rep[k]] < dist[k] by {
                if k != y {
                    assert(parent@[k] == before[k]);
                }
            }
        }
        y = next;
    }
    root
}

/// Merge the clusters labelled `ra` and `rb` (two roots) by pointing `ra`
/// at `rb`.
proof fn lemma_link(parent: Seq<usize>, rep: Seq<int>, dist: Seq<nat>, ra: int, rb: int)
    requires
        forest(parent, rep, dist),
        parent.len() <= usize::MAX,
        0 <= ra < parent.len(),
        0 <= rb < parent.len(),
        rep[ra] == ra,
        rep[rb] == rb,
        ra != rb,
    ensures
        forest(
            parent.update(ra, rb as usize),
            relabel(rep, ra, rb),
            Seq::new(dist.len(), |k: int| if rep[k] == ra { dist[k] + 1 } else { dist[k] }),
        ),
{
    let n = parent.len();
    let p2 = parent.update(ra, rb as usize);
    let r2 = relabel(rep, ra, rb);
    let d2 = Seq::new(dist.len(), |k: int| if rep[k] == ra { dist[k] + 1 } else { dist[k] });
    assert forall|k: int| 0 <= k < n implies #[trigger] r2[k] == (if rep[k] == ra { rb } else { rep[k] }) by {}
    assert forall|k: int| 0 <= k < n implies #[trigger] d2[k] == (if rep[k] == ra { dist[k] + 1 } else { dist[k] }) by {}
    assert forall|k: int| 0 <= k < n implies 0 <= #[trigger] p2[k] < n && 0 <= r2[k] < n by {
        if k != ra {
            assert(p2[k] == parent[k]);
        }
    }
    assert forall|k: int| 0 <= k < n implies #[trigger] r2[r2[k]] == r2[k] by {
        assert(0 <= parent[k] < n);
        let a = rep[k];
        assert(r2[a] == (if rep[a] == ra { rb } else { rep[a] }));
        assert(r2[rb] == (if rep[rb] == ra { rb } else { rep[rb] }));
    }
    assert forall|k: int| 0 <= k < n implies (#[trigger] p2[k] == k <==> r2[k] == k) by {
        assert(0 <= parent[k] < n);
        assert(rep[k] == k <==> parent[k] == k);
        if k != ra {
            assert(p2[k] == parent[k]);
        } else {
            assert(p2[k] == rb);
        }
    }
    assert forall|k: int| 0 <= k < n && r2[k] == k implies #[trigger] d2[k] == 0 by {}
    assert forall|k: int|
        0 <= k < n && #[trigger] p2[k] != k implies r2[p2[k] as int] == r2[k] && d2[p2[k] as int] < d2[k] && d2[r2[k]]
        < d2[k] by {
        assert(0 <= parent[k] < n);
        if k != ra {
            assert(p2[k] == parent[k]);
            let pk = parent[k] as int;
            assert(r2[pk] == (if rep[pk] == ra { rb } else { rep[pk] }));
            assert(d2[pk] == (if rep[pk] == ra { dist[pk] + 1 } else { dist[pk] }));
            let a = rep[k];
            assert(r2[a] == (if rep[a] == ra { rb } else { rep[a] }));
            assert(d2[a] == (if rep[a] == ra { dist[a] + 1 } else { dist[a] }));
            assert(d2[rb] == (if rep[rb] == ra { dist[rb] + 1 } else { dist[rb] }));
        } else {
            assert(p2[k] == rb);
            assert(d2[rb] == (if rep[rb] == ra { dist[rb] + 1 } else { dist[rb] }));
            assert(r2[rb] == (if rep[rb] == ra { rb } else { rep[rb] }));
            assert(d2[ra] == dist[ra] + 1);
        }
    }
}

/// Group the regions `0..n` into clusters. `near[i][j]` for `i < j` tells
/// whether regions `i` and `j` are close enough to merge. The result lists
/// the members of every cluster in increasing order, the clusters ordered by
/// the region that names them (see the module documentation).
pub fn cluster_groups(near: &Vec<Vec<bool>>) -> (groups: Vec<Vec<usize>>)
    requires
        square(near@.map_values(|r: Vec<bool>| r@)),
    ensures
        groups@.map_values(|g: Vec<usize>| g@.map_values(|k: usize| k as int)) == cluster_groups_spec(
            near@.map_values(|r: Vec<bool>| r@),
        ),
{
    let ghost nv = near@.map_values(|r: Vec<bool>| r@);
    let n = near.len();
    let mut parent: Vec<usize> = Vec::new();
    for k in 0..n
        invariant
            parent@.len() == k,
            forall|q: int| 0 <= q < k ==> #[trigger] parent@[q] == q,
    {
        parent.push(k);
    }
    let ghost mut rep: Seq<int> = Seq::new(n as nat, |k: int| k);
    let ghost mut dist: Seq<nat> = Seq::new(n as nat, |k: int| 0nat);
    assert(rep == labels_before(nv, 0));
    for i in 0..n
        invariant
            n == near@.len(),
            nv == near@.map_values(|r: Vec<bool>| r@),
            square(nv),
            parent@.len() == n,
            forest(parent@, rep, dist),
            rep == labels_before(nv, i as int),
    {
        let ghost start = rep;
        let mut j = i + 1;
        while j < n
            invariant
                n == near@.len(),
                nv == near@.map_values(|r: Vec<bool>| r@),
                square(nv),
                i < n,
                i + 1 <= j <= n,
                parent@.len() == n,
                forest(parent@, rep, dist),
                rep == row_labels(nv, start, i as int, j as int),
            decreases n - j,
        {
            assert(nv[i as int] == near@[i as int]@);
            if near[i][j] {
                let ra = find(&mut parent, i, Ghost(rep), Ghost(dist));
                let rb = find(&mut parent, j, Ghost(rep), Ghost(dist));
                if ra != rb {
                    proof {
                        lemma_link(parent@, rep, dist, ra as int, rb as int);
                        dist = Seq::new(dist.len(), |k: int| if rep[k] == ra { dist[k] + 1 } else { dist[k] });
                        rep = relabel(rep, ra as int, rb as int);
                    }
                    parent.set(ra, rb);
                }
            }
            j = j + 1;
        }
    }
    let ghost labels = rep;
    assert(labels == cluster_labels(nv));
    let mut roots: Vec<usize> = Vec::new();
    for k in 0..n
        invariant
            n == parent@.len(),
            forest(parent@, rep, dist),
            rep == labels,
            labels.len() == n,
            roots@.len() == k,
            forall|q: int| 0 <= q < k ==> #[trigger] roots@[q] as int == labels[q],
    {
        let r = find(&mut parent, k, Ghost(rep), Ghost(dist));
        roots.push(r);
    }
    let mut groups: Vec<Vec<usize>> = Vec::new();
    for r in 0..n
        invariant
            n == roots@.len(),
            labels.len() == n,
            forall|q: int| 0 <= q < n ==> #[trigger] roots@[q] as int == labels[q],
            groups@.map_values(|g: Vec<usize>| g@.map_values(|k: usize| k as int)) == groups_upto(labels, r as int),
    {
        let mut members: Vec<usize> = Vec::new();
        for k in 0..n
            invariant
                n == roots@.len(),
                labels.len() == n,
                forall|q: int| 0 <= q < n ==> #[trigger] roots@[q] as int == labels[q],
                members@.map_values(|x: usize| x as int) == members_upto(labels, r as int, k as int),
        {
            if roots[k] == r {
                members.push(k);
            }
            assert(members@.map_values(|x: usize| x as int) =~= members_upto(labels, r as int, k + 1));
        }
        let ghost before = groups@;
        if members.len() > 0 {
            groups.push(members);
        }
        assert(groups@.map_values(|g: Vec<usize>| g@.map_values(|k: usize| k as int)) =~= groups_upto(labels, r + 1));
    }
    groups
}

// ---- clusters are the linked groups -----------------------------------------------

/// Whether regions `a` and `b` form a near pair.
pub open spec fn near_pair(near: Seq<Seq<bool>>, a: int, b: int) -> bool {
    (0 <= a < b < near.len() && near[a][b]) || (0 <= b < a < near.len() && near[b][a])
}

/// Whether `path` steps from region to region through near pairs.
pub open spec fn chain(near: Seq<Seq<bool>>, path: Seq<int>) -> bool {
    &&& path.len() >= 1
    &&& forall|k: int| 0 <= k < path.len() - 1 ==> near_pair(near, #[trigger] path[k], path[k + 1])
}

/// Whether regions `a` and `b` are joined by a chain of near pairs.
pub open spec fn linked(near: Seq<Seq<bool>>, a: int, b: int) -> bool {
    exists|path: Seq<int>| chain(near, path) && path[0] == a && #[trigger] path.last() == b
}

proof fn lemma_linked_refl(near: Seq<Seq<bool>>, a: int)
    ensures
        linked(near, a, a),
{
    let p = seq![a];
    assert(chain(near, p));
    assert(p.last() == a);
}

proof fn lemma_linked_pair(near: Seq<Seq<bool>>, a: int, b: int)
    requires
        near_pair(near, a, b),
    ensures
        linked(near, a, b),
{
    let p = seq![a, b];
    assert(chain(near, p));
    assert(p.last() == b);
}

proof fn lemma_linked_sym(near: Seq<Seq<bool>>, a: int, b: int)
    requires
        linked(near, a, b),
    ensures
        linked(near, b, a),
{
    let path = choose|path: Seq<int>| chain(near, path) && path[0] == a && #[trigger] path.last() == b;
    let r = path.reverse();
    assert forall|k: int| 0 <= k < r.len() - 1 implies near_pair(near, #[trigger] r[k], r[k + 1]) by {
        let q = path.len() - 2 - k;
        assert(r[k] == path[q + 1] && r[k + 1] == path[q]);
        assert(near_pair(near, path[q], path[q + 1]));
    }
    assert(chain(near, r));
    assert(r[0] == b);
    assert(r.last() == a);
}

proof fn lemma_linked_trans(near: Seq<Seq<bool>>, a: int, b: int, c: int)
    requires
        linked(near, a, b),
        linked(near, b, c),
    ensures
        linked(near, a, c),
{
    let p1 = choose|path: Seq<int>| chain(near, path) && path[0] == a && #[trigger] path.last() == b;
    let p2 = choose|path: Seq<int>| chain(near, path) && path[0] == b && #[trigger] path.last() == c;
    let p = p1 + p2.drop_first();
    assert forall|k: int| 0 <= k < p.len() - 1 implies near_pair(near, #[trigger] p[k], p[k + 1]) by {
        if k < p1.len() - 1 {
            assert(p[k] == p1[k] && p[k + 1] == p1[k + 1]);
        } else if k == p1.len() - 1 {
            assert(p[k] == p1.last());
            assert(p[k + 1] == p2[1]);
            assert(near_pair(near, p2[0], p2[1]));
        } else {
            assert(p[k] == p2[k - p1.len() + 1] && p[k + 1] == p2[k - p1.len() + 2]);
        }
    }
    assert(chain(near, p));
    if p2.len() == 1 {
        assert(p.last() == p1.last());
    } else {
        assert(p.last() == p2.last());
    }
}

/// Whether the pair `(a, b)` comes before the pair `(i, j)` in the order the
/// pairs are taken.
pub open spec fn taken_before(a: int, b: int, i: int, j: int) -> bool {
    a < i || (a == i && b < j)
}

/// What holds of the labels `l` once the pairs before `(i, j)` are taken:
/// equal labels mean linked regions, and every near pair taken so far has
/// equal labels.
pub open spec fn labels_sound(near: Seq<Seq<bool>>, l: Seq<int>, i: int, j: int) -> bool {
    let n = near.len() as int;
    &&& l.len() == n
    &&& forall|a: int| 0 <= a < n ==> 0 <= #[trigger] l[a] < n
    &&& forall|a: int, b: int| 0 <= a < n && 0 <= b < n && #[trigger] l[a] == #[trigger] l[b] ==> linked(near, a, b)
    &&& forall|a: int, b: int|
        0 <= a < b < n && taken_before(a, b, i, j) && near[a][b] ==> #[trigger] l[a] == #[trigger] l[b]
}

proof fn lemma_join_step_sound(near: Seq<Seq<bool>>, l: Seq<int>, i: int, j: int)
    requires
        square(near),
        0 <= i < j < near.len(),
        labels_sound(near, l, i, j),
    ensures
        labels_sound(near, join_step(near, l, i, j), i, j + 1),
{
    let n = near.len() as int;
    let l2 = join_step(near, l, i, j);
    if near[i][j] && l[i] != l[j] {
        let from = l[i];
        let to = l[j];
        assert forall|a: int| 0 <= a < n implies #[trigger] l2[a] == (if l[a] == from { to } else { l[a] }) by {}
        assert forall|a: int| 0 <= a < n implies 0 <= #[trigger] l2[a] < n by {
            assert(l2[a] == (if l[a] == from { to } else { l[a] }));
        }
        lemma_linked_pair(near, i, j);
        assert forall|a: int, b: int| 0 <= a < n && 0 <= b < n && #[trigger] l2[a] == #[trigger] l2[b] implies linked(
            near,
            a,
            b,
        ) by {
            assert(l2[a] == (if l[a] == from { to } else { l[a] }));
            assert(l2[b] == (if l[b] == from { to } else { l[b] }));
            if l[a] == from && l[b] != from {
                // a is linked to i, i to j, j to b
                assert(l[a] == l[i]);
                assert(l[j] == l[b]);
                assert(linked(near, a, i));
                assert(linked(near, j, b));
                lemma_linked_trans(near, a, i, j);
                lemma_linked_trans(near, a, j, b);
            } else if l[a] != from && l[b] == from {
                assert(l[a] == l[j]);
                assert(l[b] == l[i]);
                assert(linked(near, a, j));
                assert(linked(near, i, b));
                lemma_linked_sym(near, i, j);
                lemma_linked_trans(near, a, j, i);
                lemma_linked_trans(near, a, i, b);
            } else {
                assert(l[a] == l[b]);
            }
        }
        assert forall|a: int, b: int|
            0 <= a < b < n && taken_before(a, b, i, j + 1) && near[a][b] implies #[trigger] l2[a] == #[trigger] l2[b] by {
            assert(l2[a] == (if l[a] == from { to } else { l[a] }));
            assert(l2[b] == (if l[b] == from { to } else { l[b] }));
            if taken_before(a, b, i, j) {
                assert(l[a] == l[b]);
            } else {
                assert(a == i && b == j);
            }
        }
    } else {
        assert forall|a: int, b: int|
            0 <= a < b < n && taken_before(a, b, i, j + 1) && near[a][b] implies #[trigger] l2[a] == #[trigger] l2[b] by {
            if !taken_before(a, b, i, j) {
                assert(a == i && b == j);
            }
        }
    }
}

proof fn lemma_row_sound(near: Seq<Seq<bool>>, l: Seq<int>, i: int, j: int)
    requires
        square(near),
        0 <= i < near.len(),
        i + 1 <= j <= near.len(),
        labels_sound(near, l, i, i + 1),
    ensures
        labels_sound(near, row_labels(near, l, i, j), i, j),
    decreases j - i,
{
    if j > i + 1 {
        lemma_row_sound(near, l, i, j - 1);
        lemma_join_step_sound(near, row_labels(near, l, i, j - 1), i, j - 1);
    }
}

proof fn lemma_before_sound(near: Seq<Seq<bool>>, i: int)
    requires
        square(near),
        0 <= i <= near.len(),
    ensures
        labels_sound(near, labels_before(near, i), i, i + 1),
    decreases i,
{
    let n = near.len() as int;
    if i == 0 {
        let l = Seq::new(near.len(), |k: int| k);
        assert forall|a: int, b: int| 0 <= a < n && 0 <= b < n && #[trigger] l[a] == #[trigger] l[b] implies linked(
            near,
            a,
            b,
        ) by {
            lemma_linked_refl(near, a);
        }
    } else {
        lemma_before_sound(near, i - 1);
        lemma_row_sound(near, labels_before(near, i - 1), i - 1, n);
        let l = labels_before(near, i);
        assert forall|a: int, b: int|
            0 <= a < b < n && taken_before(a, b, i, i + 1) && near[a][b] implies #[trigger] l[a] == #[trigger] l[b] by {
            assert(taken_before(a, b, i - 1, n));
        }
    }
}

proof fn lemma_chain_same_label(near: Seq<Seq<bool>>, l: Seq<int>, path: Seq<int>, k: int)
    requires
        labels_sound(near, l, near.len() as int, near.len() as int + 1),
        chain(near, path),
        forall|q: int| 0 <= q < path.len() ==> 0 <= #[trigger] path[q] < near.len(),
        0 <= k < path.len(),
    ensures
        l[path[0]] == l[path[k]],
    decreases k,
{
    if k > 0 {
        lemma_chain_same_label(near, l, path, k - 1);
        let a = path[k - 1];
        let b = path[k];
        assert(near_pair(near, a, b));
        if a < b {
            assert(l[a] == l[b]);
        } else {
            assert(l[b] == l[a]);
        }
    }
}

/// Two regions end in the same cluster exactly when a chain of near pairs
/// joins them: the clusters are the connected groups of the near relation.
pub proof fn law_clusters_are_linked_groups(near: Seq<Seq<bool>>, a: int, b: int)
    requires
        square(near),
        0 <= a < near.len(),
        0 <= b < near.len(),
    ensures
        cluster_labels(near)[a] == cluster_labels(near)[b] <==> linked(near, a, b),
{
    let n = near.len() as int;
    lemma_before_sound(near, n);
    let l = cluster_labels(near);
    if linked(near, a, b) {
        let path = choose|path: Seq<int>| chain(near, path) && path[0] == a && #[trigger] path.last() == b;
        assert forall|q: int| 0 <= q < path.len() implies 0 <= #[trigger] path[q] < n by {
            if q > 0 {
                assert(near_pair(near, path[q - 1], path[q]));
            }
        }
        lemma_chain_same_label(near, l, path, path.len() - 1);
    }
}

} // verus!
