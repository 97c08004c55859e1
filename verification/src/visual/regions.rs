//! Connected regions of set pixels, found by flood fill, with their
//! bounding boxes and pixel counts.

use vstd::prelude::*;
use crate::visual::mask::{lemma_index_in_raster, set_at};

verus! {

// ---- connected regions -----------------------------------------------------------

/// Whether pixel `p` lies on the `w` × `h` raster and is set in `m`.
pub open spec fn lit(m: Seq<bool>, w: int, h: int, p: (int, int)) -> bool {
    set_at(m, w, h, p.0, p.1)
}

/// Whether `p` and `q` are 4-neighbours: one step apart horizontally or
/// vertically.
pub open spec fn adjacent(p: (int, int), q: (int, int)) -> bool {
    ||| (p.0 == q.0 && (p.1 - q.1 == 1 || q.1 - p.1 == 1))
    ||| (p.1 == q.1 && (p.0 - q.0 == 1 || q.0 - p.0 == 1))
}

/// Whether `path` is a walk over set pixels, each step to a 4-neighbour.
pub open spec fn is_path(m: Seq<bool>, w: int, h: int, path: Seq<(int, int)>) -> bool {
    &&& path.len() >= 1
    &&& forall|i: int| 0 <= i < path.len() ==> lit(m, w, h, #[trigger] path[i])
    &&& forall|i: int| 0 <= i < path.len() - 1 ==> adjacent(#[trigger] path[i], path[i + 1])
}

/// Whether set pixels `a` and `b` are joined by a walk over set pixels.
pub open spec fn connected(m: Seq<bool>, w: int, h: int, a: (int, int), b: (int, int)) -> bool {
    exists|path: Seq<(int, int)>| is_path(m, w, h, path) && path[0] == a && #[trigger] path.last() == b
}

/// The connected region of set pixels that holds `a`.
pub open spec fn component(m: Seq<bool>, w: int, h: int, a: (int, int)) -> Set<(int, int)> {
    Set::new(|b: (int, int)| connected(m, w, h, a, b))
}

/// Raster order: `p` comes before `q` when it is on an earlier row, or on
/// the same row further left.
pub open spec fn before(p: (int, int), q: (int, int)) -> bool {
    p.1 < q.1 || (p.1 == q.1 && p.0 < q.0)
}

/// Whether `s` is the first pixel of its region in raster order.
#[verifier::opaque]
pub open spec fn first_of_region(m: Seq<bool>, w: int, h: int, s: (int, int)) -> bool {
    lit(m, w, h, s) && forall|p: (int, int)| #[trigger] connected(m, w, h, s, p) ==> !before(p, s)
}

/// Bounding box and pixel count of a connected region.
#[derive(Debug, Clone, Copy, PartialEq, Eq, Structural)]
pub struct PixelBox {
    pub min_x: usize,
    pub min_y: usize,
    pub max_x: usize,
    pub max_y: usize,
    pub area: usize,
}

/// Whether `b` is the bounding box and the pixel count of the set `c`.
pub open spec fn boxes(c: Set<(int, int)>, b: PixelBox) -> bool {
    &&& c.finite()
    &&& b.area == c.len()
    &&& forall|p: (int, int)| #[trigger] c.contains(p) ==> b.min_x <= p.0 <= b.max_x && b.min_y <= p.1 <= b.max_y
    &&& exists|p: (int, int)| #[trigger] c.contains(p) && p.0 == b.min_x
    &&& exists|p: (int, int)| #[trigger] c.contains(p) && p.1 == b.min_y
    &&& exists|p: (int, int)| #[trigger] c.contains(p) && p.0 == b.max_x
    &&& exists|p: (int, int)| #[trigger] c.contains(p) && p.1 == b.max_y
}

/// Whether every set neighbour of a pixel of `s` is in `s`.
pub open spec fn closed(m: Seq<bool>, w: int, h: int, s: Set<(int, int)>) -> bool {
    forall|p: (int, int), q: (int, int)| #[trigger] s.contains(p) && lit(m, w, h, q) && #[trigger] adjacent(p, q) ==> s.contains(q)
}

proof fn lemma_first_is_lit(m: Seq<bool>, w: int, h: int, a: (int, int))
    requires
        first_of_region(m, w, h, a),
    ensures
        lit(m, w, h, a),
{
    reveal(first_of_region);
}

proof fn lemma_connected_refl(m: Seq<bool>, w: int, h: int, a: (int, int))
    requires
        lit(m, w, h, a),
    ensures
        connected(m, w, h, a, a),
{
    let path = seq![a];
    assert(is_path(m, w, h, path));
    assert(path.last() == a);
}

proof fn lemma_connected_ends_lit(m: Seq<bool>, w: int, h: int, a: (int, int), b: (int, int))
    requires
        connected(m, w, h, a, b),
    ensures
        lit(m, w, h, a),
        lit(m, w, h, b),
{
    let path = choose|path: Seq<(int, int)>| is_path(m, w, h, path) && path[0] == a && #[trigger] path.last() == b;
    assert(lit(m, w, h, path[0]));
    assert(lit(m, w, h, path[path.len() - 1]));
}

proof fn lemma_connected_step(m: Seq<bool>, w: int, h: int, a: (int, int), b: (int, int), c: (int, int))
    requires
        connected(m, w, h, a, b),
        lit(m, w, h, c),
        adjacent(b, c),
    ensures
        connected(m, w, h, a, c),
{
    let path = choose|path: Seq<(int, int)>| is_path(m, w, h, path) && path[0] == a && #[trigger] path.last() == b;
    let p2 = path.push(c);
    assert forall|i: int| 0 <= i < p2.len() implies lit(m, w, h, #[trigger] p2[i]) by {
        if i < path.len() {
            assert(p2[i] == path[i]);
        }
    }
    assert forall|i: int| 0 <= i < p2.len() - 1 implies adjacent(#[trigger] p2[i], p2[i + 1]) by {
        if i < path.len() - 1 {
            assert(p2[i] == path[i] && p2[i + 1] == path[i + 1]);
        } else {
            assert(p2[i] == path.last());
        }
    }
    assert(is_path(m, w, h, p2));
    assert(p2.last() == c);
}

proof fn lemma_connected_sym(m: Seq<bool>, w: int, h: int, a: (int, int), b: (int, int))
    requires
        connected(m, w, h, a, b),
    ensures
        connected(m, w, h, b, a),
{
    let path = choose|path: Seq<(int, int)>| is_path(m, w, h, path) && path[0] == a && #[trigger] path.last() == b;
    let r = path.reverse();
    assert forall|i: int| 0 <= i < r.len() implies lit(m, w, h, #[trigger] r[i]) by {
        assert(r[i] == path[path.len() - 1 - i]);
    }
    assert forall|i: int| 0 <= i < r.len() - 1 implies adjacent(#[trigger] r[i], r[i + 1]) by {
        let j = path.len() - 2 - i;
        assert(r[i] == path[j + 1] && r[i + 1] == path[j]);
        assert(adjacent(path[j], path[j + 1]));
    }
    assert(is_path(m, w, h, r));
    assert(r[0] == b);
    assert(r.last() == a);
}

proof fn lemma_connected_trans(m: Seq<bool>, w: int, h: int, a: (int, int), b: (int, int), c: (int, int))
    requires
        connected(m, w, h, a, b),
        connected(m, w, h, b, c),
    ensures
        connected(m, w, h, a, c),
{
    let p1 = choose|path: Seq<(int, int)>| is_path(m, w, h, path) && path[0] == a && #[trigger] path.last() == b;
    let p2 = choose|path: Seq<(int, int)>| is_path(m, w, h, path) && path[0] == b && #[trigger] path.last() == c;
    let p = p1 + p2.drop_first();
    assert forall|i: int| 0 <= i < p.len() implies lit(m, w, h, #[trigger] p[i]) by {
        if i < p1.len() {
            assert(p[i] == p1[i]);
        } else {
            assert(p[i] == p2[i - p1.len() + 1]);
        }
    }
    assert forall|i: int| 0 <= i < p.len() - 1 implies adjacent(#[trigger] p[i], p[i + 1]) by {
        if i < p1.len() - 1 {
            assert(p[i] == p1[i] && p[i + 1] == p1[i + 1]);
        } else if i == p1.len() - 1 {
            assert(p[i] == p1.last());
            assert(p[i + 1] == p2[1]);
            assert(adjacent(p2[0], p2[1]));
        } else {
            assert(p[i] == p2[i - p1.len() + 1] && p[i + 1] == p2[i - p1.len() + 2]);
        }
    }
    assert(is_path(m, w, h, p));
    if p2.len() == 1 {
        assert(p.last() == p1.last());
    } else {
        assert(p.last() == p2.last());
    }
}

/// Regions of two different first pixels share no pixel: the listed regions
/// are disjoint.
pub proof fn law_regions_disjoint(m: Seq<bool>, w: int, h: int, s1: (int, int), s2: (int, int), p: (int, int))
    requires
        first_of_region(m, w, h, s1),
        first_of_region(m, w, h, s2),
        s1 != s2,
    ensures
        !(component(m, w, h, s1).contains(p) && component(m, w, h, s2).contains(p)),
{
    reveal(first_of_region);
    if component(m, w, h, s1).contains(p) && component(m, w, h, s2).contains(p) {
        lemma_connected_sym(m, w, h, s2, p);
        lemma_connected_trans(m, w, h, s1, p, s2);
        lemma_connected_sym(m, w, h, s1, s2);
        assert(!before(s2, s1));
        assert(!before(s1, s2));
    }
}

/// A closed set that holds `a` holds every pixel connected to `a`.
proof fn lemma_closed_holds_connected(
    m: Seq<bool>,
    w: int,
    h: int,
    s: Set<(int, int)>,
    a: (int, int),
    b: (int, int),
)
    requires
        closed(m, w, h, s),
        s.contains(a),
        connected(m, w, h, a, b),
    ensures
        s.contains(b),
{
    let path = choose|path: Seq<(int, int)>| is_path(m, w, h, path) && path[0] == a && #[trigger] path.last() == b;
    lemma_closed_holds_path(m, w, h, s, path, path.len() - 1);
}

proof fn lemma_closed_holds_path(m: Seq<bool>, w: int, h: int, s: Set<(int, int)>, path: Seq<(int, int)>, i: int)
    requires
        closed(m, w, h, s),
        is_path(m, w, h, path),
        s.contains(path[0]),
        0 <= i < path.len(),
    ensures
        s.contains(path[i]),
    decreases i,
{
    if i > 0 {
        lemma_closed_holds_path(m, w, h, s, path, i - 1);
        assert(adjacent(path[i - 1], path[i]));
        assert(lit(m, w, h, path[i]));
    }
}

/// A connected region is closed.
proof fn lemma_component_closed(m: Seq<bool>, w: int, h: int, a: (int, int))
    ensures
        closed(m, w, h, component(m, w, h, a)),
{
    assert forall|p: (int, int), q: (int, int)|
        #[trigger] component(m, w, h, a).contains(p) && lit(m, w, h, q) && #[trigger] adjacent(p, q) implies component(
        m,
        w,
        h,
        a,
    ).contains(q) by {
        lemma_connected_step(m, w, h, a, p, q);
    }
}

proof fn lemma_index_injective(w: int, x1: int, y1: int, x2: int, y2: int)
    requires
        0 <= x1 < w,
        0 <= x2 < w,
        0 <= y1,
        0 <= y2,
        y1 * w + x1 == y2 * w + x2,
    ensures
        x1 == x2,
        y1 == y2,
{
    if y1 < y2 {
        assert(y1 * w + w <= y2 * w) by (nonlinear_arith)
            requires
                y1 < y2,
                0 <= w,
        ;
    } else if y2 < y1 {
        assert(y2 * w + w <= y1 * w) by (nonlinear_arith)
            requires
                y2 < y1,
                0 <= w,
        ;
    }
}

/// The index of a pixel in the raster.
pub open spec fn pixel_index(w: int, p: (int, int)) -> int {
    p.1 * w + p.0
}

/// Whether `p` lies on the `w` × `h` raster.
pub open spec fn on_raster(w: int, h: int, p: (int, int)) -> bool {
    0 <= p.0 < w && 0 <= p.1 < h
}

/// A finite set of raster pixels has at most `w * h` elements.
proof fn lemma_raster_set_bound(s: Set<(int, int)>, w: int, h: int)
    requires
        s.finite(),
        forall|p: (int, int)| #[trigger] s.contains(p) ==> on_raster(w, h, p),
        0 <= w,
        0 <= h,
    ensures
        s.len() <= w * h,
{
    let f = |p: (int, int)| pixel_index(w, p);
    assert(vstd::relations::injective_on(f, s)) by {
        assert forall|p: (int, int), q: (int, int)|
            s.contains(p) && s.contains(q) && #[trigger] f(p) == #[trigger] f(q) implies p == q by {
            lemma_index_injective(w, p.0, p.1, q.0, q.1);
        }
    }
    let img = s.map(f);
    vstd::set_lib::lemma_map_size(s, img, f);
    assert forall|i: int| #[trigger] img.contains(i) implies vstd::set_lib::set_int_range(0, w * h).contains(i) by {
        let p = choose|p: (int, int)| s.contains(p) && f(p) == i;
        lemma_index_in_raster(w, h, p.0, p.1);
    }
    assert(0 * w == 0);
    assert(0 <= w * h) by (nonlinear_arith)
        requires
            0 <= w,
            0 <= h,
    ;
    vstd::set_lib::lemma_int_range(0, w * h);
    vstd::set_lib::lemma_len_subset(img, vstd::set_lib::set_int_range(0, w * h));
}

/// Whether `vis` marks exactly the pixels of `v` on the raster.
pub open spec fn mirrors(vis: Seq<bool>, w: int, h: int, v: Set<(int, int)>) -> bool {
    &&& vis.len() == w * h
    &&& forall|x: int, y: int| 0 <= x < w && 0 <= y < h ==> #[trigger] vis[y * w + x] == v.contains((x, y))
}

proof fn lemma_mirror_update(vis: Seq<bool>, w: int, h: int, v: Set<(int, int)>, p: (int, int))
    requires
        mirrors(vis, w, h, v),
        on_raster(w, h, p),
    ensures
        mirrors(vis.update(p.1 * w + p.0, true), w, h, v.insert(p)),
{
    lemma_index_in_raster(w, h, p.0, p.1);
    let nv = vis.update(p.1 * w + p.0, true);
    assert forall|x: int, y: int| 0 <= x < w && 0 <= y < h implies #[trigger] nv[y * w + x] == v.insert(p).contains(
        (x, y),
    ) by {
        lemma_index_in_raster(w, h, x, y);
        if (x, y) != p {
            if y * w + x == p.1 * w + p.0 {
                lemma_index_injective(w, x, y, p.0, p.1);
            }
        }
    }
}

/// Pixel pairs of the stack as integers.
pub open spec fn stack_view(st: Seq<(usize, usize)>) -> Seq<(int, int)> {
    st.map_values(|q: (usize, usize)| (q.0 as int, q.1 as int))
}

/// The invariant of the pending stack of a fill: distinct pixels of the
/// raster, visited (`r`) but not yet counted (`q`), and together with the
/// counted ones making up everything visited.
pub open spec fn stack_ok(st: Seq<(int, int)>, r: Set<(int, int)>, q: Set<(int, int)>, w: int, h: int) -> bool {
    &&& forall|i: int| 0 <= i < st.len() ==> on_raster(w, h, #[trigger] st[i]) && r.contains(st[i]) && !q.contains(st[i])
    &&& forall|i: int, j: int| 0 <= i < j < st.len() ==> #[trigger] st[i] != #[trigger] st[j]
    &&& forall|p: (int, int)| #[trigger] r.contains(p) <==> (q.contains(p) || st.contains(p))
}

/// Whether the box bounds every pixel of `q` and, when `q` has pixels, is
/// attained on each side; the empty box is the starting one.
pub open spec fn box_of_counted(q: Set<(int, int)>, min_x: usize, min_y: usize, max_x: usize, max_y: usize) -> bool {
    &&& forall|p: (int, int)| #[trigger] q.contains(p) ==> min_x <= p.0 <= max_x && min_y <= p.1 <= max_y
    &&& q.len() > 0 ==> {
        &&& exists|p: (int, int)| #[trigger] q.contains(p) && p.0 == min_x
        &&& exists|p: (int, int)| #[trigger] q.contains(p) && p.1 == min_y
        &&& exists|p: (int, int)| #[trigger] q.contains(p) && p.0 == max_x
        &&& exists|p: (int, int)| #[trigger] q.contains(p) && p.1 == max_y
    }
    &&& q.len() == 0 ==> min_x == usize::MAX && min_y == usize::MAX && max_x == 0 && max_y == 0
}

/// Mark `(nx, ny)` visited and push it when it is a set pixel of the raster
/// not visited yet; tell whether it was.
fn visit(
    mask: &Vec<bool>,
    w: usize,
    h: usize,
    visited: &mut Vec<bool>,
    stack: &mut Vec<(usize, usize)>,
    nx: usize,
    ny: usize,
) -> (pushed: bool)
    requires
        mask@.len() == w * h,
        old(visited)@.len() == w * h,
    ensures
        pushed == (lit(mask@, w as int, h as int, (nx as int, ny as int)) && !old(visited)@[ny * w + nx]),
        pushed ==> final(visited)@ == old(visited)@.update(ny * w + nx, true) && final(stack)@ == old(stack)@.push(
            (nx, ny),
        ),
        !pushed ==> final(visited)@ == old(visited)@ && final(stack)@ == old(stack)@,
{
    if nx >= w || ny >= h {
        return false;
    }
    let n = mask.len();
    proof {
        lemma_index_in_raster(w as int, h as int, nx as int, ny as int);
    }
    let idx = ny * w + nx;
    if mask[idx] && !visited[idx] {
        visited.set(idx, true);
        stack.push((nx, ny));
        true
    } else {
        false
    }
}

/// What holds of a fill from `s` around each visit: the marks mirror the
/// earlier regions `vb` and the visited pixels `r`, which are connected to
/// `s`, lie on the raster outside `vb`, and are either `done` or pending on
/// the stack.
pub open spec fn fill_state(
    m: Seq<bool>,
    w: int,
    h: int,
    vb: Set<(int, int)>,
    s: (int, int),
    vis: Seq<bool>,
    st: Seq<(int, int)>,
    r: Set<(int, int)>,
    done: Set<(int, int)>,
) -> bool {
    &&& mirrors(vis, w, h, vb + r)
    &&& r.finite()
    &&& forall|p: (int, int)| #[trigger] r.contains(p) ==> connected(m, w, h, s, p) && on_raster(w, h, p) && !vb.contains(p)
    &&& stack_ok(st, r, done, w, h)
}

proof fn lemma_visit(
    m: Seq<bool>,
    w: int,
    h: int,
    vb: Set<(int, int)>,
    s: (int, int),
    vis: Seq<bool>,
    st: Seq<(int, int)>,
    r: Set<(int, int)>,
    done: Set<(int, int)>,
    p: (int, int),
    t: (int, int),
    pushed: bool,
    vis2: Seq<bool>,
    st2: Seq<(int, int)>,
)
    requires
        fill_state(m, w, h, vb, s, vis, st, r, done),
        r.contains(p),
        adjacent(p, t),
        pushed == (lit(m, w, h, t) && !vis[t.1 * w + t.0]),
        pushed ==> vis2 == vis.update(t.1 * w + t.0, true) && st2 == st.push(t),
        !pushed ==> vis2 == vis && st2 == st,
    ensures
        fill_state(m, w, h, vb, s, vis2, st2, if pushed { r.insert(t) } else { r }, done),
        lit(m, w, h, t) ==> (vb + if pushed { r.insert(t) } else { r }).contains(t),
{
    if lit(m, w, h, t) {
        assert(vis[t.1 * w + t.0] == (vb + r).contains(t));
    }
    if pushed {
        let r2 = r.insert(t);
        lemma_mirror_update(vis, w, h, vb + r, t);
        assert(vb + r2 =~= (vb + r).insert(t));
        lemma_connected_step(m, w, h, s, p, t);
        assert(!r.contains(t));
        assert(!vb.contains(t));
        assert forall|i: int| 0 <= i < st2.len() implies on_raster(w, h, #[trigger] st2[i]) && r2.contains(st2[i])
            && !done.contains(st2[i]) by {
            if i < st.len() {
                assert(st2[i] == st[i]);
            }
        }
        assert forall|i: int, j: int| 0 <= i < j < st2.len() implies #[trigger] st2[i] != #[trigger] st2[j] by {
            if j == st.len() {
                assert(st2[j] == t);
                assert(st2[i] == st[i]);
                assert(r.contains(st[i]));
            } else {
                assert(st2[i] == st[i] && st2[j] == st[j]);
            }
        }
        assert forall|x: (int, int)| #[trigger] r2.contains(x) <==> (done.contains(x) || st2.contains(x)) by {
            if st.contains(x) {
                let i = choose|i: int| 0 <= i < st.len() && st[i] == x;
                assert(st2[i] == x);
            }
            if st2.contains(x) && x != t {
                let i = choose|i: int| 0 <= i < st2.len() && st2[i] == x;
                assert(i < st.len());
                assert(st[i] == x);
            }
            if x == t {
                assert(st2[st.len() as int] == t);
            }
        }
    }
}

/// Visit the four neighbours of the pixel `(cx, cy)` taken from the stack:
/// each set, unvisited one is marked and pushed.
fn expand(
    mask: &Vec<bool>,
    w: usize,
    h: usize,
    visited: &mut Vec<bool>,
    stack: &mut Vec<(usize, usize)>,
    cx: usize,
    cy: usize,
    Ghost(vb): Ghost<Set<(int, int)>>,
    Ghost(s): Ghost<(int, int)>,
    Ghost(r): Ghost<Set<(int, int)>>,
    Ghost(done): Ghost<Set<(int, int)>>,
) -> (r2: Ghost<Set<(int, int)>>)
    requires
        mask@.len() == w * h,
        fill_state(mask@, w as int, h as int, vb, s, old(visited)@, stack_view(old(stack)@), r, done),
        r.contains((cx as int, cy as int)),
    ensures
        fill_state(mask@, w as int, h as int, vb, s, final(visited)@, stack_view(final(stack)@), r2@, done),
        r.subset_of(r2@),
        final(stack)@.len() >= old(stack)@.len(),
        final(stack)@.len() - old(stack)@.len() == r2@.len() - r.len(),
        forall|t: (int, int)|
            lit(mask@, w as int, h as int, t) && #[trigger] adjacent((cx as int, cy as int), t) ==> (vb + r2@).contains(t),
{
    let ghost m = mask@;
    let ghost wi = w as int;
    let ghost hi = h as int;
    let ghost p = (cx as int, cy as int);
    let ghost mut rr = r;
    // left neighbour
    let ghost vis_a = visited@;
    let ghost st_a = stack_view(stack@);
    let pushed = if cx > 0 {
        visit(mask, w, h, visited, stack, cx - 1, cy)
    } else {
        false
    };
    proof {
        let t = (cx - 1, cy as int);
        if cx > 0 {
            assert(stack_view(stack@) =~= if pushed { st_a.push(t) } else { st_a });
            lemma_visit(m, wi, hi, vb, s, vis_a, st_a, rr, done, p, t, pushed, visited@, stack_view(stack@));
            if pushed {
                rr = rr.insert(t);
            }
        }
    }
    let ghost r_a = rr;
    // right neighbour
    let ghost vis_b = visited@;
    let ghost st_b = stack_view(stack@);
    let pushed = visit(mask, w, h, visited, stack, cx + 1, cy);
    proof {
        let t = (cx + 1, cy as int);
        assert(stack_view(stack@) =~= if pushed { st_b.push(t) } else { st_b });
        lemma_visit(m, wi, hi, vb, s, vis_b, st_b, rr, done, p, t, pushed, visited@, stack_view(stack@));
        if pushed {
            rr = rr.insert(t);
        }
    }
    let ghost r_b = rr;
    // upper neighbour
    let ghost vis_c = visited@;
    let ghost st_c = stack_view(stack@);
    let pushed = if cy > 0 {
        visit(mask, w, h, visited, stack, cx, cy - 1)
    } else {
        false
    };
    proof {
        let t = (cx as int, cy - 1);
        if cy > 0 {
            assert(stack_view(stack@) =~= if pushed { st_c.push(t) } else { st_c });
            lemma_visit(m, wi, hi, vb, s, vis_c, st_c, rr, done, p, t, pushed, visited@, stack_view(stack@));
            if pushed {
                rr = rr.insert(t);
            }
        }
    }
    let ghost r_c = rr;
    // lower neighbour
    let ghost vis_d = visited@;
    let ghost st_d = stack_view(stack@);
    let pushed = visit(mask, w, h, visited, stack, cx, cy + 1);
    proof {
        let t = (cx as int, cy + 1);
        assert(stack_view(stack@) =~= if pushed { st_d.push(t) } else { st_d });
        lemma_visit(m, wi, hi, vb, s, vis_d, st_d, rr, done, p, t, pushed, visited@, stack_view(stack@));
        if pushed {
            rr = rr.insert(t);
        }
        assert forall|t: (int, int)| lit(m, wi, hi, t) && #[trigger] adjacent(p, t) implies (vb + rr).contains(t) by {
            if t == (cx - 1, cy as int) {
                assert((vb + r_a).contains(t));
            } else if t == (cx + 1, cy as int) {
                assert((vb + r_b).contains(t));
            } else if t == (cx as int, cy - 1) {
                assert((vb + r_c).contains(t));
            }
        }
    }
    Ghost(rr)
}

proof fn lemma_box_insert(
    q: Set<(int, int)>,
    p: (int, int),
    min_x: usize,
    min_y: usize,
    max_x: usize,
    max_y: usize,
    nmin_x: usize,
    nmin_y: usize,
    nmax_x: usize,
    nmax_y: usize,
)
    requires
        q.finite(),
        !q.contains(p),
        box_of_counted(q, min_x, min_y, max_x, max_y),
        0 <= p.0 < usize::MAX,
        0 <= p.1 < usize::MAX,
        nmin_x == (if p.0 < min_x { p.0 } else { min_x as int }),
        nmin_y == (if p.1 < min_y { p.1 } else { min_y as int }),
        nmax_x == (if p.0 > max_x { p.0 } else { max_x as int }),
        nmax_y == (if p.1 > max_y { p.1 } else { max_y as int }),
    ensures
        box_of_counted(q.insert(p), nmin_x, nmin_y, nmax_x, nmax_y),
{
    let q2 = q.insert(p);
    assert(q2.len() == q.len() + 1);
    assert(q2.contains(p));
    if q.len() == 0 {
        assert forall|x: (int, int)| #[trigger] q2.contains(x) implies x == p by {
            if x != p {
                assert(q.contains(x));
            }
        }
    } else {
        let a = choose|x: (int, int)| #[trigger] q.contains(x) && x.0 == min_x;
        let b = choose|x: (int, int)| #[trigger] q.contains(x) && x.1 == min_y;
        let c = choose|x: (int, int)| #[trigger] q.contains(x) && x.0 == max_x;
        let d = choose|x: (int, int)| #[trigger] q.contains(x) && x.1 == max_y;
        assert(q2.contains(a) && q2.contains(b) && q2.contains(c) && q2.contains(d));
    }
}

/// Flood-fill the region of set pixels holding `(sx, sy)`, marking it
/// visited; give its bounding box and pixel count.
fn fill_region(
    mask: &Vec<bool>,
    w: usize,
    h: usize,
    visited: &mut Vec<bool>,
    sx: usize,
    sy: usize,
    Ghost(vb): Ghost<Set<(int, int)>>,
) -> (b: PixelBox)
    requires
        mask@.len() == w * h,
        sx < w,
        sy < h,
        lit(mask@, w as int, h as int, (sx as int, sy as int)),
        !vb.contains((sx as int, sy as int)),
        closed(mask@, w as int, h as int, vb),
        mirrors(old(visited)@, w as int, h as int, vb),
    ensures
        mirrors(final(visited)@, w as int, h as int, vb + component(mask@, w as int, h as int, (sx as int, sy as int))),
        boxes(component(mask@, w as int, h as int, (sx as int, sy as int)), b),
{
    let ghost m = mask@;
    let ghost wi = w as int;
    let ghost hi = h as int;
    let ghost s = (sx as int, sy as int);
    let n = mask.len();
    proof {
        lemma_index_in_raster(wi, hi, sx as int, sy as int);
        lemma_connected_refl(m, wi, hi, s);
    }
    let ghost vis0 = visited@;
    visited.set(sy * w + sx, true);
    let mut stack: Vec<(usize, usize)> = Vec::new();
    stack.push((sx, sy));
    let ghost mut r: Set<(int, int)> = Set::empty().insert(s);
    let ghost mut q: Set<(int, int)> = Set::empty();
    proof {
        lemma_mirror_update(vis0, wi, hi, vb, s);
        assert(vb + r =~= vb.insert(s));
        assert(stack_view(stack@) =~= seq![s]);
        assert forall|x: (int, int)| #[trigger] r.contains(x) <==> (q.contains(x) || stack_view(stack@).contains(x)) by {
            if x == s {
                assert(stack_view(stack@)[0] == s);
            }
        }
    }
    let mut area: usize = 0;
    let mut min_x: usize = usize::MAX;
    let mut min_y: usize = usize::MAX;
    let mut max_x: usize = 0;
    let mut max_y: usize = 0;
    while stack.len() > 0
        invariant
            mask@ == m,
            n == w * h,
            m.len() == w * h,
            r.contains(s),
            wi == w,
            hi == h,
            closed(m, wi, hi, vb),
            fill_state(m, wi, hi, vb, s, visited@, stack_view(stack@), r, q),
            q.finite(),
            area == q.len(),
            forall|p: (int, int), t: (int, int)| #[trigger] q.contains(p) && lit(m, wi, hi, t) && #[trigger] adjacent(p, t)
                ==> (vb + r).contains(t),
            box_of_counted(q, min_x, min_y, max_x, max_y),
        decreases w * h - r.len(), stack@.len(),
    {
        let ghost st0 = stack_view(stack@);
        let ghost r0 = r;
        let ghost q0 = q;
        let ghost p = st0.last();
        proof {
            lemma_raster_set_bound(r, wi, hi);
        }
        let (cx, cy) = stack.pop().unwrap();
        assert(p == (cx as int, cy as int));
        let ghost done = q.insert(p);
        proof {
            assert(stack_view(stack@) =~= st0.drop_last());
            let st1 = stack_view(stack@);
            assert forall|i: int| 0 <= i < st1.len() implies on_raster(wi, hi, #[trigger] st1[i]) && r.contains(st1[i])
                && !done.contains(st1[i]) by {
                assert(st1[i] == st0[i]);
                assert(st0[i] != st0[st0.len() - 1]);
            }
            assert forall|x: (int, int)| #[trigger] r.contains(x) <==> (done.contains(x) || st1.contains(x)) by {
                if st0.contains(x) && x != p {
                    let i = choose|i: int| 0 <= i < st0.len() && st0[i] == x;
                    assert(st1[i] == x);
                }
                if st1.contains(x) {
                    let i = choose|i: int| 0 <= i < st1.len() && st1[i] == x;
                    assert(st0[i] == x);
                }
            }
            assert(fill_state(m, wi, hi, vb, s, visited@, st1, r, done));
        }
        let Ghost(r1) = expand(mask, w, h, visited, &mut stack, cx, cy, Ghost(vb), Ghost(s), Ghost(r), Ghost(done));
        proof {
            r = r1;
        }
        proof {
            assert forall|a: (int, int), t: (int, int)| #[trigger] done.contains(a) && lit(m, wi, hi, t) && #[trigger] adjacent(a, t)
                implies (vb + r).contains(t) by {
                if a != p {
                    assert(q.contains(a));
                    assert((vb + r0).contains(t));
                }
            }
            assert(done.len() == q.len() + 1);
            assert forall|x: (int, int)| #[trigger] done.contains(x) implies on_raster(wi, hi, x) by {
                assert(r.contains(x));
            }
            lemma_raster_set_bound(done, wi, hi);
            q = done;
        }
        area = area + 1;
        let ghost (ox0, oy0, ox1, oy1) = (min_x, min_y, max_x, max_y);
        if cx < min_x {
            min_x = cx;
        }
        if cy < min_y {
            min_y = cy;
        }
        if cx > max_x {
            max_x = cx;
        }
        if cy > max_y {
            max_y = cy;
        }
        proof {
            assert(!q0.contains(p));
            lemma_box_insert(q0, p, ox0, oy0, ox1, oy1, min_x, min_y, max_x, max_y);
            lemma_raster_set_bound(r, wi, hi);
        }
    }
    proof {
        assert(stack_view(stack@).len() == 0);
        assert(q =~= r) by {
            assert forall|x: (int, int)| r.contains(x) implies q.contains(x) by {
                assert(!stack_view(stack@).contains(x));
            }
        }
        let c = component(m, wi, hi, s);
        assert(closed(m, wi, hi, r)) by {
            assert forall|a: (int, int), t: (int, int)| #[trigger] r.contains(a) && lit(m, wi, hi, t) && #[trigger] adjacent(a, t)
                implies r.contains(t) by {
                assert(q.contains(a));
                if vb.contains(t) {
                    assert(adjacent(t, a));
                    assert(lit(m, wi, hi, a)) by {
                        lemma_connected_ends_lit(m, wi, hi, s, a);
                    }
                    assert(vb.contains(a));
                }
            }
        }
        assert(r.contains(s));
        assert(r =~= c) by {
            assert forall|x: (int, int)| c.contains(x) implies r.contains(x) by {
                lemma_closed_holds_connected(m, wi, hi, r, s, x);
            }
        }
    }
    PixelBox { min_x, min_y, max_x, max_y, area }
}

/// Whether `out` lists the regions of set pixels with at least `min_area`
/// pixels, each with its bounding box and pixel count, in the raster order of
/// their first pixels `starts`.
pub open spec fn regions_listed(
    m: Seq<bool>,
    w: int,
    h: int,
    min_area: int,
    out: Seq<PixelBox>,
    starts: Seq<(int, int)>,
) -> bool {
    &&& starts.len() == out.len()
    &&& forall|k: int|
        0 <= k < out.len() ==> first_of_region(m, w, h, #[trigger] starts[k]) && boxes(component(m, w, h, starts[k]), out[k])
            && out[k].area >= min_area
    &&& forall|k1: int, k2: int| 0 <= k1 < k2 < out.len() ==> before(#[trigger] starts[k1], #[trigger] starts[k2])
    &&& forall|a: (int, int)|
        #[trigger] first_of_region(m, w, h, a) ==> starts.contains(a) || (component(m, w, h, a).finite() && component(
            m,
            w,
            h,
            a,
        ).len() < min_area)
}

/// Every visited pixel is set and lies in the region of a first pixel that
/// comes before `cur`.
#[verifier::opaque]
pub open spec fn earlier_regions(m: Seq<bool>, w: int, h: int, cur: (int, int), v: Set<(int, int)>) -> bool {
    forall|a: (int, int)| #[trigger] v.contains(a) ==> lit(m, w, h, a) && exists|s: (int, int)|
        first_of_region(m, w, h, s) && before(s, cur) && #[trigger] connected(m, w, h, s, a)
}

/// Every set pixel before `cur` is visited.
#[verifier::opaque]
pub open spec fn covers_before(m: Seq<bool>, w: int, h: int, cur: (int, int), v: Set<(int, int)>) -> bool {
    forall|a: (int, int)| lit(m, w, h, a) && #[trigger] before(a, cur) ==> v.contains(a)
}

/// `out` lists regions with their first pixels `starts`, all before `cur`,
/// in raster order, each with its box and at least `min_area` pixels.
#[verifier::opaque]
pub open spec fn listed_before(
    m: Seq<bool>,
    w: int,
    h: int,
    min_area: int,
    cur: (int, int),
    out: Seq<PixelBox>,
    starts: Seq<(int, int)>,
) -> bool {
    &&& starts.len() == out.len()
    &&& forall|k: int|
        0 <= k < out.len() ==> first_of_region(m, w, h, #[trigger] starts[k]) && boxes(component(m, w, h, starts[k]), out[k])
            && out[k].area >= min_area && before(starts[k], cur)
    &&& forall|k1: int, k2: int| 0 <= k1 < k2 < out.len() ==> before(#[trigger] starts[k1], #[trigger] starts[k2])
}

/// Every region whose first pixel comes before `cur` is listed, or has
/// fewer than `min_area` pixels.
#[verifier::opaque]
pub open spec fn complete_before(m: Seq<bool>, w: int, h: int, min_area: int, cur: (int, int), starts: Seq<(int, int)>) -> bool {
    forall|a: (int, int)|
        #[trigger] first_of_region(m, w, h, a) && before(a, cur) ==> starts.contains(a) || (component(m, w, h, a).finite()
            && component(m, w, h, a).len() < min_area)
}

/// What holds of the scan before pixel `cur`: the marks mirror the visited
/// set `v`, a union of whole regions whose first pixels come before `cur`
/// and that holds every set pixel before `cur`; `out` and `starts` list the
/// regions found so far.
pub open spec fn scan_state(
    m: Seq<bool>,
    w: int,
    h: int,
    min_area: int,
    cur: (int, int),
    vis: Seq<bool>,
    v: Set<(int, int)>,
    out: Seq<PixelBox>,
    starts: Seq<(int, int)>,
) -> bool {
    &&& mirrors(vis, w, h, v)
    &&& closed(m, w, h, v)
    &&& earlier_regions(m, w, h, cur, v)
    &&& covers_before(m, w, h, cur, v)
    &&& listed_before(m, w, h, min_area, cur, out, starts)
    &&& complete_before(m, w, h, min_area, cur, starts)
}

/// A set pixel not yet visited is the first of its region.
proof fn lemma_unvisited_is_first(m: Seq<bool>, w: int, h: int, cur: (int, int), v: Set<(int, int)>)
    requires
        closed(m, w, h, v),
        covers_before(m, w, h, cur, v),
        lit(m, w, h, cur),
        !v.contains(cur),
    ensures
        first_of_region(m, w, h, cur),
{
    reveal(first_of_region);
    reveal(covers_before);
    assert forall|p: (int, int)| #[trigger] connected(m, w, h, cur, p) implies !before(p, cur) by {
        if before(p, cur) {
            lemma_connected_ends_lit(m, w, h, cur, p);
            assert(v.contains(p));
            lemma_connected_sym(m, w, h, cur, p);
            lemma_closed_holds_connected(m, w, h, v, p, cur);
        }
    }
}

/// A visited pixel is not the first of its region.
proof fn lemma_visited_not_first(m: Seq<bool>, w: int, h: int, cur: (int, int), v: Set<(int, int)>)
    requires
        earlier_regions(m, w, h, cur, v),
        v.contains(cur),
    ensures
        !first_of_region(m, w, h, cur),
{
    reveal(earlier_regions);
    reveal(first_of_region);
    let s = choose|s: (int, int)| first_of_region(m, w, h, s) && before(s, cur) && #[trigger] connected(m, w, h, s, cur);
    lemma_connected_sym(m, w, h, s, cur);
}

/// Whether `nxt` is the pixel after `cur` in raster order, as far as the
/// raster's pixels tell.
pub open spec fn next_pixel(w: int, h: int, cur: (int, int), nxt: (int, int)) -> bool {
    &&& forall|a: (int, int)| #[trigger] before(a, cur) ==> before(a, nxt)
    &&& before(cur, nxt)
    &&& forall|a: (int, int)| on_raster(w, h, a) && #[trigger] before(a, nxt) ==> before(a, cur) || a == cur
}

proof fn lemma_earlier_regions_advance(m: Seq<bool>, w: int, h: int, cur: (int, int), nxt: (int, int), v: Set<(int, int)>)
    requires
        earlier_regions(m, w, h, cur, v),
        next_pixel(w, h, cur, nxt),
    ensures
        earlier_regions(m, w, h, nxt, v),
{
    reveal(earlier_regions);
    assert forall|a: (int, int)| #[trigger] v.contains(a) implies lit(m, w, h, a) && exists|s: (int, int)|
        first_of_region(m, w, h, s) && before(s, nxt) && #[trigger] connected(m, w, h, s, a) by {
        let s = choose|s: (int, int)| first_of_region(m, w, h, s) && before(s, cur) && #[trigger] connected(m, w, h, s, a);
        assert(before(s, nxt));
    }
}

proof fn lemma_listed_advance(
    m: Seq<bool>,
    w: int,
    h: int,
    min_area: int,
    cur: (int, int),
    nxt: (int, int),
    out: Seq<PixelBox>,
    starts: Seq<(int, int)>,
)
    requires
        listed_before(m, w, h, min_area, cur, out, starts),
        next_pixel(w, h, cur, nxt),
    ensures
        listed_before(m, w, h, min_area, nxt, out, starts),
{
    reveal(listed_before);
    assert forall|k: int| 0 <= k < out.len() implies before(#[trigger] starts[k], nxt) by {
        assert(before(starts[k], cur));
    }
}

/// The scan state carries over from `cur` to the next pixel `nxt` when
/// `cur` is visited or unset.
proof fn lemma_scan_advance(
    m: Seq<bool>,
    w: int,
    h: int,
    min_area: int,
    cur: (int, int),
    nxt: (int, int),
    vis: Seq<bool>,
    v: Set<(int, int)>,
    out: Seq<PixelBox>,
    starts: Seq<(int, int)>,
)
    requires
        scan_state(m, w, h, min_area, cur, vis, v, out, starts),
        lit(m, w, h, cur) ==> v.contains(cur),
        next_pixel(w, h, cur, nxt),
    ensures
        scan_state(m, w, h, min_area, nxt, vis, v, out, starts),
{
    if v.contains(cur) {
        lemma_visited_not_first(m, w, h, cur, v);
    }
    lemma_earlier_regions_advance(m, w, h, cur, nxt, v);
    lemma_listed_advance(m, w, h, min_area, cur, nxt, out, starts);
    assert(covers_before(m, w, h, nxt, v)) by {
        reveal(covers_before);
    }
    assert(complete_before(m, w, h, min_area, nxt, starts)) by {
        reveal(complete_before);
        assert forall|a: (int, int)| #[trigger] first_of_region(m, w, h, a) && before(a, nxt) implies starts.contains(a)
            || (component(m, w, h, a).finite() && component(m, w, h, a).len() < min_area) by {
            lemma_first_is_lit(m, w, h, a);
            if a == cur {
                reveal(first_of_region);
            }
        }
    }
}

/// The scan state after filling the region first met at `cur`.
proof fn lemma_scan_found(
    m: Seq<bool>,
    w: int,
    h: int,
    min_area: int,
    cur: (int, int),
    nxt: (int, int),
    vis: Seq<bool>,
    v: Set<(int, int)>,
    out: Seq<PixelBox>,
    starts: Seq<(int, int)>,
    vis2: Seq<bool>,
    b: PixelBox,
)
    requires
        scan_state(m, w, h, min_area, cur, vis, v, out, starts),
        lit(m, w, h, cur),
        !v.contains(cur),
        mirrors(vis2, w, h, v + component(m, w, h, cur)),
        boxes(component(m, w, h, cur), b),
        next_pixel(w, h, cur, nxt),
    ensures
        scan_state(
            m,
            w,
            h,
            min_area,
            nxt,
            vis2,
            v + component(m, w, h, cur),
            if b.area >= min_area { out.push(b) } else { out },
            if b.area >= min_area { starts.push(cur) } else { starts },
        ),
{
    let c = component(m, w, h, cur);
    let v2 = v + c;
    let keep = b.area >= min_area;
    let out2 = if keep { out.push(b) } else { out };
    let starts2 = if keep { starts.push(cur) } else { starts };
    lemma_unvisited_is_first(m, w, h, cur, v);
    lemma_connected_refl(m, w, h, cur);
    lemma_component_closed(m, w, h, cur);
    assert(closed(m, w, h, v2));
    assert(earlier_regions(m, w, h, nxt, v2)) by {
        lemma_earlier_regions_advance(m, w, h, cur, nxt, v);
        reveal(earlier_regions);
        assert forall|a: (int, int)| #[trigger] v2.contains(a) implies lit(m, w, h, a) && exists|s: (int, int)|
            first_of_region(m, w, h, s) && before(s, nxt) && #[trigger] connected(m, w, h, s, a) by {
            if !v.contains(a) {
                lemma_connected_ends_lit(m, w, h, cur, a);
                assert(connected(m, w, h, cur, a));
            }
        }
    }
    assert(covers_before(m, w, h, nxt, v2)) by {
        reveal(covers_before);
        assert forall|a: (int, int)| lit(m, w, h, a) && #[trigger] before(a, nxt) implies v2.contains(a) by {
            if a == cur {
                assert(c.contains(cur));
            } else {
                assert(before(a, cur));
            }
        }
    }
    assert(listed_before(m, w, h, min_area, nxt, out2, starts2)) by {
        lemma_listed_advance(m, w, h, min_area, cur, nxt, out, starts);
        reveal(listed_before);
        assert forall|k: int| 0 <= k < out2.len() implies first_of_region(m, w, h, #[trigger] starts2[k]) && boxes(
            component(m, w, h, starts2[k]),
            out2[k],
        ) && out2[k].area >= min_area && before(starts2[k], nxt) by {
            if k < out.len() {
                assert(starts2[k] == starts[k] && out2[k] == out[k]);
            }
        }
        assert forall|k1: int, k2: int| 0 <= k1 < k2 < out2.len() implies before(#[trigger] starts2[k1], #[trigger] starts2[k2]) by {
            assert(starts2[k1] == starts[k1]);
            if k2 < out.len() {
                assert(starts2[k2] == starts[k2]);
            } else {
                assert(before(starts[k1], cur));
            }
        }
    }
    assert(complete_before(m, w, h, min_area, nxt, starts2)) by {
        reveal(complete_before);
        assert forall|a: (int, int)| #[trigger] first_of_region(m, w, h, a) && before(a, nxt) implies starts2.contains(a) || (
        component(m, w, h, a).finite() && component(m, w, h, a).len() < min_area) by {
            lemma_first_is_lit(m, w, h, a);
            if a == cur {
                if keep {
                    assert(starts2[starts.len() as int] == cur);
                }
            } else {
                assert(before(a, cur));
                if starts.contains(a) {
                    let i = choose|i: int| 0 <= i < starts.len() && starts[i] == a;
                    assert(starts2[i] == a);
                }
            }
        }
    }
}

/// Find the connected regions (4-neighbourhood) of set pixels of a
/// `w` × `h` mask that hold at least `min_area` pixels. Each comes with its
/// bounding box and pixel count, in the raster order of the region's first
/// pixel.
pub fn pixel_regions(mask: &Vec<bool>, w: usize, h: usize, min_area: usize) -> (out: Vec<PixelBox>)
    requires
        mask@.len() == w * h,
    ensures
        exists|starts: Seq<(int, int)>| regions_listed(mask@, w as int, h as int, min_area as int, out@, starts),
{
    let ghost m = mask@;
    let ghost wi = w as int;
    let ghost hi = h as int;
    let ghost ma = min_area as int;
    let n = mask.len();
    let mut visited: Vec<bool> = Vec::new();
    for i in 0..n
        invariant
            visited@.len() == i,
            forall|k: int| 0 <= k < i ==> !#[trigger] visited@[k],
    {
        visited.push(false);
    }
    let ghost mut v: Set<(int, int)> = Set::empty();
    let ghost mut starts: Seq<(int, int)> = Seq::empty();
    let mut out: Vec<PixelBox> = Vec::new();
    assert(mirrors(visited@, wi, hi, v)) by {
        assert forall|x: int, y: int| 0 <= x < wi && 0 <= y < hi implies #[trigger] visited@[y * wi + x] == v.contains((x, y)) by {
            lemma_index_in_raster(wi, hi, x, y);
        }
    }
    proof {
        lemma_scan_start(m, wi, hi, ma, visited@);
    }
    for y in 0..h
        invariant
            mask@ == m,
            n == w * h,
            m.len() == w * h,
            wi == w,
            hi == h,
            ma == min_area,
            scan_state(m, wi, hi, ma, (0, y as int), visited@, v, out@, starts),
    {
        for x in 0..w
            invariant
                mask@ == m,
                n == w * h,
                m.len() == w * h,
                wi == w,
                hi == h,
                ma == min_area,
                y < h,
                scan_state(m, wi, hi, ma, (x as int, y as int), visited@, v, out@, starts),
        {
            let ghost cur = (x as int, y as int);
            let ghost nxt = (x as int + 1, y as int);
            proof {
                lemma_index_in_raster(wi, hi, x as int, y as int);
                assert(visited@[y * wi + x] == v.contains(cur));
            }
            let idx = y * w + x;
            if mask[idx] && !visited[idx] {
                assert(lit(m, wi, hi, cur));
                assert(!v.contains(cur));
                let ghost vis0 = visited@;
                let b = fill_region(mask, w, h, &mut visited, x, y, Ghost(v));
                proof {
                    lemma_scan_found(m, wi, hi, ma, cur, nxt, vis0, v, out@, starts, visited@, b);
                }
                if b.area >= min_area {
                    out.push(b);
                    proof {
                        starts = starts.push(cur);
                    }
                }
                proof {
                    v = v + component(m, wi, hi, cur);
                }
            } else {
                proof {
                    lemma_scan_advance(m, wi, hi, ma, cur, nxt, visited@, v, out@, starts);
                }
            }
        }
        proof {
            lemma_scan_row_end(m, wi, hi, ma, y as int, visited@, v, out@, starts);
        }
    }
    proof {
        lemma_scan_end(m, wi, hi, ma, visited@, v, out@, starts);
    }
    out
}

/// The scan state at the end of a row is the state at the start of the next.
proof fn lemma_scan_row_end(
    m: Seq<bool>,
    w: int,
    h: int,
    ma: int,
    y: int,
    vis: Seq<bool>,
    v: Set<(int, int)>,
    out: Seq<PixelBox>,
    starts: Seq<(int, int)>,
)
    requires
        scan_state(m, w, h, ma, (w, y), vis, v, out, starts),
    ensures
        scan_state(m, w, h, ma, (0, y + 1), vis, v, out, starts),
{
    let cur = (w, y);
    let nxt = (0, y + 1);
    lemma_earlier_regions_advance(m, w, h, cur, nxt, v);
    lemma_listed_advance(m, w, h, ma, cur, nxt, out, starts);
    assert(covers_before(m, w, h, nxt, v)) by {
        reveal(covers_before);
        assert forall|a: (int, int)| lit(m, w, h, a) && #[trigger] before(a, nxt) implies v.contains(a) by {
            assert(before(a, cur));
        }
    }
    assert(complete_before(m, w, h, ma, nxt, starts)) by {
        reveal(complete_before);
        assert forall|a: (int, int)| #[trigger] first_of_region(m, w, h, a) && before(a, nxt) implies starts.contains(a) || (
        component(m, w, h, a).finite() && component(m, w, h, a).len() < ma) by {
            lemma_first_is_lit(m, w, h, a);
            assert(before(a, cur));
        }
    }
}

/// The state before the first pixel.
proof fn lemma_scan_start(m: Seq<bool>, w: int, h: int, ma: int, vis: Seq<bool>)
    requires
        mirrors(vis, w, h, Set::empty()),
    ensures
        scan_state(m, w, h, ma, (0, 0), vis, Set::empty(), Seq::empty(), Seq::empty()),
{
    reveal(earlier_regions);
    reveal(covers_before);
    reveal(listed_before);
    reveal(complete_before);
    assert forall|a: (int, int)| #[trigger] first_of_region(m, w, h, a) && before(a, (0, 0)) implies Seq::<(int, int)>::empty().contains(a) || (
    component(m, w, h, a).finite() && component(m, w, h, a).len() < ma) by {
        lemma_first_is_lit(m, w, h, a);
    }
}

/// Once every row is scanned, the regions are all listed.
proof fn lemma_scan_end(
    m: Seq<bool>,
    w: int,
    h: int,
    ma: int,
    vis: Seq<bool>,
    v: Set<(int, int)>,
    out: Seq<PixelBox>,
    starts: Seq<(int, int)>,
)
    requires
        scan_state(m, w, h, ma, (0, h), vis, v, out, starts),
    ensures
        regions_listed(m, w, h, ma, out, starts),
{
    reveal(listed_before);
    reveal(complete_before);
    let end = (0, h);
    assert forall|a: (int, int)| #[trigger] first_of_region(m, w, h, a) implies starts.contains(a) || (component(
        m,
        w,
        h,
        a,
    ).finite() && component(m, w, h, a).len() < ma) by {
        lemma_first_is_lit(m, w, h, a);
        assert(before(a, end));
    }
}

} // verus!
