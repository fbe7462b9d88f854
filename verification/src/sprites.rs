//! Segmentation of a sprite sheet into sprites: every 4-connected group of
//! non-transparent pixels is one sprite, described by its bounding box.

use vstd::prelude::*;

verus! {

/// The alpha channel of an image, row after row.
pub struct AlphaGrid {
    pub width: u32,
    pub height: u32,
    pub alpha: Vec<u8>,
}

/// An axis-aligned rectangle of pixels.
#[derive(Clone, Copy, Debug, PartialEq, Eq, Structural)]
pub struct SpriteRect {
    pub x: u32,
    pub y: u32,
    pub width: u32,
    pub height: u32,
}

impl AlphaGrid {
    /// One alpha value per pixel.
    pub open spec fn wf(&self) -> bool {
        self.alpha@.len() == self.width as int * self.height as int
    }

    pub open spec fn in_bounds(&self, p: (int, int)) -> bool {
        0 <= p.0 < self.width && 0 <= p.1 < self.height
    }

    /// Position of pixel `p` in `alpha`.
    pub open spec fn index_of(&self, p: (int, int)) -> int {
        p.1 * self.width + p.0
    }

    /// The pixel stored at position `i` of `alpha`.
    pub open spec fn point_at(&self, i: int) -> (int, int) {
        (i % self.width as int, i / self.width as int)
    }

    /// Pixel `p` lies in the image and is not fully transparent.
    pub open spec fn opaque(&self, p: (int, int)) -> bool {
        self.in_bounds(p) && self.alpha@[self.index_of(p)] > 0
    }
}

/// Pixel `p` may join a sprite: it is opaque and not visited before.
pub open spec fn eligible(g: &AlphaGrid, visited: Seq<bool>, p: (int, int)) -> bool {
    g.opaque(p) && !visited[g.index_of(p)]
}

/// The pixels are horizontal or vertical neighbours.
pub open spec fn adjacent(p: (int, int), q: (int, int)) -> bool {
    ||| p.0 == q.0 && (p.1 == q.1 + 1 || q.1 == p.1 + 1)
    ||| p.1 == q.1 && (p.0 == q.0 + 1 || q.0 == p.0 + 1)
}

/// Law: neighbours are the four pixels one step left, right, up or down;
/// pixels that touch at a corner are not neighbours.
pub proof fn lemma_adjacent_is_one_step(p: (int, int), q: (int, int))
    ensures
        adjacent(p, q) <==> (p.0 - q.0) * (p.0 - q.0) + (p.1 - q.1) * (p.1 - q.1) == 1,
{
    let dx = p.0 - q.0;
    let dy = p.1 - q.1;
    assert(dx * dx + dy * dy == 1 <==> (dx == 0 && (dy == 1 || dy == -1)) || (dy == 0 && (dx
        == 1 || dx == -1))) by (nonlinear_arith);
}

/// Law: a pixel is opaque exactly when it lies in the image and its alpha
/// is not zero; an alpha of one is enough.
pub proof fn lemma_opaque_is_nonzero_alpha(g: &AlphaGrid, p: (int, int))
    ensures
        g.opaque(p) <==> g.in_bounds(p) && g.alpha@[g.index_of(p)] != 0,
{
}

/// A walk through eligible pixels, each step to a neighbour.
pub open spec fn is_path(g: &AlphaGrid, visited: Seq<bool>, path: Seq<(int, int)>) -> bool {
    &&& path.len() > 0
    &&& forall|k: int| 0 <= k < path.len() ==> eligible(g, visited, #[trigger] path[k])
    &&& forall|k: int| 0 <= k < path.len() - 1 ==> adjacent(#[trigger] path[k], path[k + 1])
}

/// Pixel `p` can be reached from `start` through eligible pixels.
pub open spec fn connected(g: &AlphaGrid, visited: Seq<bool>, start: (int, int), p: (int, int)) -> bool {
    exists|path: Seq<(int, int)>|
        #![trigger is_path(g, visited, path), path.last()]
        is_path(g, visited, path) && path[0] == start && path.last() == p
}

/// The visited marks after the sprite that contains `start` has been filled.
pub open spec fn marked(g: &AlphaGrid, visited: Seq<bool>, start: (int, int)) -> Seq<bool> {
    Seq::new(visited.len(), |i: int| visited[i] || connected(g, visited, start, g.point_at(i)))
}

/// `r` is the smallest rectangle that holds every pixel for which `member` holds.
pub open spec fn bounds_box(member: spec_fn((int, int)) -> bool, r: SpriteRect) -> bool {
    &&& r.width >= 1
    &&& r.height >= 1
    &&& forall|p: (int, int)|
        #[trigger] member(p) ==> r.x <= p.0 < r.x + r.width && r.y <= p.1 < r.y + r.height
    &&& exists|p: (int, int)| #[trigger] member(p) && p.0 == r.x
    &&& exists|p: (int, int)| #[trigger] member(p) && p.0 == r.x + r.width - 1
    &&& exists|p: (int, int)| #[trigger] member(p) && p.1 == r.y
    &&& exists|p: (int, int)| #[trigger] member(p) && p.1 == r.y + r.height - 1
}

/// Membership in the sprite that contains `start`.
pub open spec fn sprite_member(g: &AlphaGrid, visited: Seq<bool>, start: (int, int)) -> spec_fn(
    (int, int),
) -> bool {
    |p: (int, int)| connected(g, visited, start, p)
}

/// The bounding box of the sprite that contains `start`; a single pixel at
/// `start` when `start` is not eligible.
pub open spec fn sprite_bounds(g: &AlphaGrid, visited: Seq<bool>, start: (int, int)) -> SpriteRect {
    if eligible(g, visited, start) {
        choose|r: SpriteRect| #[trigger] bounds_box(sprite_member(g, visited, start), r)
    } else {
        SpriteRect { x: start.0 as u32, y: start.1 as u32, width: 1, height: 1 }
    }
}

/// The rectangle is not empty and lies inside the image.
pub open spec fn within_image(g: &AlphaGrid, r: SpriteRect) -> bool {
    r.width >= 1 && r.height >= 1 && r.x + r.width <= g.width && r.y + r.height <= g.height
}

/// Number of unvisited positions.
pub open spec fn count_false(s: Seq<bool>) -> nat
    decreases s.len(),
{
    if s.len() == 0 {
        0
    } else {
        count_false(s.drop_last()) + if s.last() {
            0nat
        } else {
            1nat
        }
    }
}

proof fn lemma_count_false_update(s: Seq<bool>, i: int)
    requires
        0 <= i < s.len(),
        !s[i],
    ensures
        count_false(s.update(i, true)) + 1 == count_false(s),
    decreases s.len(),
{
    let t = s.update(i, true);
    if i == s.len() - 1 {
        assert(t.drop_last() =~= s.drop_last());
    } else {
        assert(t.drop_last() =~= s.drop_last().update(i, true));
        lemma_count_false_update(s.drop_last(), i);
    }
}

proof fn lemma_index_in_range(w: int, h: int, x: int, y: int)
    requires
        0 <= x < w,
        0 <= y < h,
    ensures
        0 <= y * w + x < w * h,
{
    assert(0 <= y * w) by (nonlinear_arith)
        requires
            0 <= y,
            0 <= w,
    ;
    assert(y * w + x < w * h) by (nonlinear_arith)
        requires
            0 <= x < w,
            0 <= y < h,
    ;
}

/// Positions and in-bounds pixels correspond one to one.
proof fn lemma_point_index(g: &AlphaGrid, p: (int, int))
    requires
        g.in_bounds(p),
    ensures
        0 <= g.index_of(p) < g.width * g.height,
        g.point_at(g.index_of(p)) == p,
{
    lemma_index_in_range(g.width as int, g.height as int, p.0, p.1);
    vstd::arithmetic::div_mod::lemma_fundamental_div_mod_converse(
        g.index_of(p),
        g.width as int,
        p.1,
        p.0,
    );
}

proof fn lemma_index_point(g: &AlphaGrid, i: int)
    requires
        0 <= i < g.width * g.height,
    ensures
        g.in_bounds(g.point_at(i)),
        g.index_of(g.point_at(i)) == i,
{
    let w = g.width as int;
    let h = g.height as int;
    assert(w > 0) by (nonlinear_arith)
        requires
            0 <= i < w * h,
            0 <= h,
    ;
    vstd::arithmetic::div_mod::lemma_fundamental_div_mod(i, w);
    vstd::arithmetic::div_mod::lemma_mod_pos_bound(i, w);
    vstd::arithmetic::div_mod::lemma_div_pos_is_pos(i, w);
    let q = i / w;
    let r = i % w;
    vstd::arithmetic::mul::lemma_mul_is_commutative(w, q);
    assert(q < h) by (nonlinear_arith)
        requires
            i == w * q + r,
            0 <= r,
            i < w * h,
            w > 0,
    ;
}

proof fn lemma_bounds_box_unique(member: spec_fn((int, int)) -> bool, r1: SpriteRect, r2: SpriteRect)
    requires
        bounds_box(member, r1),
        bounds_box(member, r2),
    ensures
        r1 == r2,
{
    let a = choose|p: (int, int)| #[trigger] member(p) && p.0 == r1.x;
    let b = choose|p: (int, int)| #[trigger] member(p) && p.0 == r2.x;
    let c = choose|p: (int, int)| #[trigger] member(p) && p.0 == r1.x + r1.width - 1;
    let d = choose|p: (int, int)| #[trigger] member(p) && p.0 == r2.x + r2.width - 1;
    let e = choose|p: (int, int)| #[trigger] member(p) && p.1 == r1.y;
    let f = choose|p: (int, int)| #[trigger] member(p) && p.1 == r2.y;
    let g = choose|p: (int, int)| #[trigger] member(p) && p.1 == r1.y + r1.height - 1;
    let h = choose|p: (int, int)| #[trigger] member(p) && p.1 == r2.y + r2.height - 1;
    assert(member(a) && member(b) && member(c) && member(d));
    assert(member(e) && member(f) && member(g) && member(h));
}

/// A pixel on a path from `start` lies in every set that holds an eligible
/// `start` and is closed under eligible neighbours.
proof fn lemma_path_in_closed_set(
    g: &AlphaGrid,
    visited: Seq<bool>,
    filled: spec_fn((int, int)) -> bool,
    path: Seq<(int, int)>,
    k: int,
)
    requires
        is_path(g, visited, path),
        filled(path[0]),
        forall|p: (int, int), q: (int, int)|
            #[trigger] filled(p) && adjacent(p, q) && eligible(g, visited, q) ==> #[trigger] filled(q),
        0 <= k < path.len(),
    ensures
        filled(path[k]),
    decreases k,
{
    if k > 0 {
        lemma_path_in_closed_set(g, visited, filled, path, k - 1);
        assert(adjacent(path[k - 1], path[k]));
        assert(eligible(g, visited, path[k]));
    }
}

/// Pixel `p` was marked since `v0`: it belongs to the sprite being filled.
pub open spec fn filled(g: &AlphaGrid, v0: Seq<bool>, v: Seq<bool>, p: (int, int)) -> bool {
    g.in_bounds(p) && v[g.index_of(p)] && !v0[g.index_of(p)]
}

pub open spec fn pt(s: (u32, u32)) -> (int, int) {
    (s.0 as int, s.1 as int)
}

/// The in-bounds neighbours of `(x, y)`, left, right, up, down.
pub open spec fn neighbours(g: &AlphaGrid, x: u32, y: u32) -> Seq<(u32, u32)> {
    let l: Seq<(u32, u32)> = if x > 0 { seq![((x - 1) as u32, y)] } else { seq![] };
    let r: Seq<(u32, u32)> = if x + 1 < g.width { seq![((x + 1) as u32, y)] } else { seq![] };
    let u: Seq<(u32, u32)> = if y > 0 { seq![(x, (y - 1) as u32)] } else { seq![] };
    let d: Seq<(u32, u32)> = if y + 1 < g.height { seq![(x, (y + 1) as u32)] } else { seq![] };
    l + r + u + d
}

/// The state of a fill from `start` that began with the marks `v0`.
#[verifier::opaque]
pub open spec fn fill_inv(
    g: &AlphaGrid,
    v0: Seq<bool>,
    v: Seq<bool>,
    start: (int, int),
    stack: Seq<(u32, u32)>,
) -> bool {
    &&& v.len() == v0.len()
    &&& v0.len() == g.alpha@.len()
    &&& forall|i: int| 0 <= i < v0.len() && v0[i] ==> #[trigger] v[i]
    &&& forall|p: (int, int)| #[trigger] filled(g, v0, v, p) ==> connected(g, v0, start, p)
    &&& forall|k: int|
        0 <= k < stack.len() ==> pt(#[trigger] stack[k]) == start || exists|p: (int, int)|
            #[trigger] filled(g, v0, v, p) && adjacent(p, pt(stack[k]))
    &&& filled(g, v0, v, start) || !eligible(g, v0, start) || exists|k: int|
        0 <= k < stack.len() && pt(#[trigger] stack[k]) == start
    &&& forall|p: (int, int), q: (int, int)|
        #[trigger] filled(g, v0, v, p) && #[trigger] adjacent(p, q) && eligible(g, v0, q) ==> filled(
            g,
            v0,
            v,
            q,
        ) || exists|k: int| 0 <= k < stack.len() && pt(#[trigger] stack[k]) == q
}

/// The running bounding box of the filled pixels.
pub open spec fn box_inv(
    g: &AlphaGrid,
    v0: Seq<bool>,
    v: Seq<bool>,
    any: bool,
    min_x: u32,
    max_x: u32,
    min_y: u32,
    max_y: u32,
) -> bool {
    &&& !any ==> forall|p: (int, int)| !#[trigger] filled(g, v0, v, p)
    &&& any ==> {
        &&& forall|p: (int, int)| #[trigger]
            filled(g, v0, v, p) ==> min_x <= p.0 <= max_x && min_y <= p.1 <= max_y
        &&& exists|p: (int, int)| #[trigger] filled(g, v0, v, p) && p.0 == min_x
        &&& exists|p: (int, int)| #[trigger] filled(g, v0, v, p) && p.0 == max_x
        &&& exists|p: (int, int)| #[trigger] filled(g, v0, v, p) && p.1 == min_y
        &&& exists|p: (int, int)| #[trigger] filled(g, v0, v, p) && p.1 == max_y
    }
}

proof fn lemma_fill_start(g: &AlphaGrid, v0: Seq<bool>, start_x: u32, start_y: u32)
    requires
        v0.len() == g.alpha@.len(),
        g.wf(),
    ensures
        fill_inv(g, v0, v0, pt((start_x, start_y)), seq![(start_x, start_y)]),
        box_inv(g, v0, v0, false, start_x, start_x, start_y, start_y),
{
    reveal(fill_inv);
    let stack = seq![(start_x, start_y)];
    assert(pt(stack[0]) == pt((start_x, start_y)));
}

/// Examining a stacked pixel that is outside the image, marked already or
/// transparent changes nothing but the stack.
proof fn lemma_fill_skip(
    g: &AlphaGrid,
    v0: Seq<bool>,
    v: Seq<bool>,
    start: (int, int),
    stack: Seq<(u32, u32)>,
)
    requires
        g.wf(),
        fill_inv(g, v0, v, start, stack),
        stack.len() > 0,
        !g.in_bounds(pt(stack.last())) || v[g.index_of(pt(stack.last()))] || !g.opaque(
            pt(stack.last()),
        ),
    ensures
        fill_inv(g, v0, v, start, stack.drop_last()),
{
    reveal(fill_inv);
    let q = pt(stack.last());
    let rest = stack.drop_last();
    assert forall|k: int|
        0 <= k < rest.len() implies pt(#[trigger] rest[k]) == start || exists|p: (int, int)|
        #[trigger] filled(g, v0, v, p) && adjacent(p, pt(rest[k])) by {
        assert(rest[k] == stack[k]);
    }
    if filled(g, v0, v, start) || !eligible(g, v0, start) {
    } else {
        let k = choose|k: int| 0 <= k < stack.len() && pt(#[trigger] stack[k]) == start;
        if k == stack.len() - 1 {
            assert(q == start);
            if g.in_bounds(q) && v[g.index_of(q)] {
                assert(!v0[g.index_of(q)]);
            }
            assert(false);
        }
        assert(rest[k] == stack[k]);
    }
    assert forall|p: (int, int), r: (int, int)|
        #[trigger] filled(g, v0, v, p) && #[trigger] adjacent(p, r) && eligible(g, v0, r) implies filled(
        g,
        v0,
        v,
        r,
    ) || exists|k: int| 0 <= k < rest.len() && pt(#[trigger] rest[k]) == r by {
        if !filled(g, v0, v, r) {
            let k = choose|k: int| 0 <= k < stack.len() && pt(#[trigger] stack[k]) == r;
            if k == stack.len() - 1 {
                assert(q == r);
                assert(false);
            }
            assert(rest[k] == stack[k]);
        }
    }
}

/// Marking an eligible stacked pixel and stacking its neighbours keeps the
/// state of the fill.
#[verifier::rlimit(60)]
#[verifier::spinoff_prover]
proof fn lemma_fill_mark(
    g: &AlphaGrid,
    v0: Seq<bool>,
    v: Seq<bool>,
    start: (int, int),
    stack: Seq<(u32, u32)>,
)
    requires
        g.wf(),
        fill_inv(g, v0, v, start, stack),
        stack.len() > 0,
        g.opaque(pt(stack.last())),
        !v[g.index_of(pt(stack.last()))],
    ensures
        fill_inv(
            g,
            v0,
            v.update(g.index_of(pt(stack.last())), true),
            start,
            stack.drop_last() + neighbours(g, stack.last().0, stack.last().1),
        ),
        forall|p: (int, int)|
            #[trigger] filled(g, v0, v.update(g.index_of(pt(stack.last())), true), p) <==> filled(
                g,
                v0,
                v,
                p,
            ) || p == pt(stack.last()),
{
    reveal(fill_inv);
    let q = pt(stack.last());
    let (x, y) = stack.last();
    let iq = g.index_of(q);
    let nv = v.update(iq, true);
    let rest = stack.drop_last();
    let nb = neighbours(g, x, y);
    let ns = rest + nb;
    lemma_point_index(g, q);
    assert(!v0[iq]);
    assert forall|p: (int, int)| #[trigger] filled(g, v0, nv, p) <==> filled(g, v0, v, p) || p == q by {
        if g.in_bounds(p) {
            lemma_point_index(g, p);
            if p != q {
                assert(g.index_of(p) != iq);
            }
        }
    }
    // the new pixel is connected to the start
    assert(connected(g, v0, start, q)) by {
        let k = stack.len() - 1;
        assert(stack[k] == stack.last());
        if q == start {
            let path = seq![q];
            assert(is_path(g, v0, path));
            assert(path.last() == q);
        } else {
            let p = choose|p: (int, int)| #[trigger] filled(g, v0, v, p) && adjacent(p, pt(stack[k]));
            assert(connected(g, v0, start, p));
            let path = choose|path: Seq<(int, int)>|
                #![trigger is_path(g, v0, path), path.last()]
                is_path(g, v0, path) && path[0] == start && path.last() == p;
            let np = path.push(q);
            assert(np[np.len() - 2] == p);
            assert forall|j: int| 0 <= j < np.len() implies eligible(g, v0, #[trigger] np[j]) by {
                if j < path.len() {
                    assert(np[j] == path[j]);
                }
            }
            assert forall|j: int| 0 <= j < np.len() - 1 implies adjacent(
                #[trigger] np[j],
                np[j + 1],
            ) by {
                if j < path.len() - 1 {
                    assert(np[j] == path[j]);
                    assert(np[j + 1] == path[j + 1]);
                }
            }
            assert(is_path(g, v0, np));
            assert(np.last() == q);
            assert(np[0] == start);
        }
    }
    assert forall|p: (int, int)| #[trigger] filled(g, v0, nv, p) implies connected(
        g,
        v0,
        start,
        p,
    ) by {
        if p != q {
            assert(filled(g, v0, v, p));
        }
    }
    // facts on the neighbours that were stacked
    assert forall|j: int| 0 <= j < nb.len() implies adjacent(q, pt(#[trigger] nb[j])) by {}
    assert forall|r: (int, int)|
        g.in_bounds(r) && adjacent(q, r) implies exists|j: int|
        0 <= j < nb.len() && pt(#[trigger] nb[j]) == r by {
        let l: Seq<(u32, u32)> = if x > 0 { seq![((x - 1) as u32, y)] } else { seq![] };
        let rr: Seq<(u32, u32)> = if x + 1 < g.width { seq![((x + 1) as u32, y)] } else { seq![] };
        let u: Seq<(u32, u32)> = if y > 0 { seq![(x, (y - 1) as u32)] } else { seq![] };
        let d: Seq<(u32, u32)> = if y + 1 < g.height { seq![(x, (y + 1) as u32)] } else { seq![] };
        assert(nb == l + rr + u + d);
        if r.0 + 1 == q.0 {
            assert(pt(nb[0]) == r);
        } else if r.0 == q.0 + 1 {
            assert(pt(nb[l.len() as int]) == r);
        } else if r.1 + 1 == q.1 {
            assert(pt(nb[(l.len() + rr.len()) as int]) == r);
        } else {
            assert(pt(nb[(l.len() + rr.len() + u.len()) as int]) == r);
        }
    }
    assert forall|k: int|
        0 <= k < ns.len() implies pt(#[trigger] ns[k]) == start || exists|p: (int, int)|
        #[trigger] filled(g, v0, nv, p) && adjacent(p, pt(ns[k])) by {
        if k < rest.len() {
            assert(ns[k] == stack[k]);
            if pt(stack[k]) != start {
                let p = choose|p: (int, int)| #[trigger] filled(g, v0, v, p) && adjacent(p, pt(stack[k]));
                assert(filled(g, v0, nv, p));
            }
        } else {
            assert(ns[k] == nb[k - rest.len()]);
            assert(filled(g, v0, nv, q));
        }
    }
    if !filled(g, v0, v, start) && eligible(g, v0, start) {
        let k = choose|k: int| 0 <= k < stack.len() && pt(#[trigger] stack[k]) == start;
        if k < stack.len() - 1 {
            assert(ns[k] == stack[k]);
        } else {
            assert(filled(g, v0, nv, start));
        }
    }
    assert forall|p: (int, int), r: (int, int)|
        #[trigger] filled(g, v0, nv, p) && #[trigger] adjacent(p, r) && eligible(g, v0, r) implies filled(
        g,
        v0,
        nv,
        r,
    ) || exists|k: int| 0 <= k < ns.len() && pt(#[trigger] ns[k]) == r by {
        if filled(g, v0, nv, r) {
        } else if p == q {
            let j = choose|j: int| 0 <= j < nb.len() && pt(#[trigger] nb[j]) == r;
            assert(ns[rest.len() + j] == nb[j]);
        } else {
            assert(filled(g, v0, v, p));
            assert(!filled(g, v0, v, r));
            let k = choose|k: int| 0 <= k < stack.len() && pt(#[trigger] stack[k]) == r;
            if k == stack.len() - 1 {
                assert(r == q);
                assert(false);
            }
            assert(ns[k] == stack[k]);
        }
    }
}

/// When nothing is left to examine, the filled pixels are exactly the pixels
/// connected to the start.
proof fn lemma_fill_done(g: &AlphaGrid, v0: Seq<bool>, v: Seq<bool>, start: (int, int))
    requires
        g.wf(),
        fill_inv(g, v0, v, start, Seq::empty()),
    ensures
        forall|p: (int, int)| #[trigger] filled(g, v0, v, p) <==> connected(g, v0, start, p),
        v == marked(g, v0, start),
{
    reveal(fill_inv);
    let f = |p: (int, int)| filled(g, v0, v, p);
    assert forall|p: (int, int)| connected(g, v0, start, p) implies #[trigger] filled(g, v0, v, p) by {
        let path = choose|path: Seq<(int, int)>|
            #![trigger is_path(g, v0, path), path.last()]
            is_path(g, v0, path) && path[0] == start && path.last() == p;
        assert(eligible(g, v0, path[0]));
        assert forall|a: (int, int), b: (int, int)|
            #[trigger] f(a) && adjacent(a, b) && eligible(g, v0, b) implies #[trigger] f(b) by {
            assert(filled(g, v0, v, a) && adjacent(a, b));
        }
        lemma_path_in_closed_set(g, v0, f, path, path.len() - 1);
    }
    let m = marked(g, v0, start);
    assert forall|i: int| 0 <= i < v.len() implies v[i] == m[i] by {
        lemma_index_point(g, i);
        let p = g.point_at(i);
        if v[i] && !v0[i] {
            assert(filled(g, v0, v, p));
        }
        if connected(g, v0, start, p) {
            assert(filled(g, v0, v, p));
        }
    }
    assert(v =~= m);
}

proof fn lemma_box_mark(
    g: &AlphaGrid,
    v0: Seq<bool>,
    v: Seq<bool>,
    nv: Seq<bool>,
    q: (u32, u32),
    any: bool,
    min_x: u32,
    max_x: u32,
    min_y: u32,
    max_y: u32,
)
    requires
        box_inv(g, v0, v, any, min_x, max_x, min_y, max_y),
        forall|p: (int, int)| #[trigger] filled(g, v0, nv, p) <==> filled(g, v0, v, p) || p == pt(q),
    ensures
        box_inv(
            g,
            v0,
            nv,
            true,
            if !any || q.0 < min_x { q.0 } else { min_x },
            if !any || q.0 > max_x { q.0 } else { max_x },
            if !any || q.1 < min_y { q.1 } else { min_y },
            if !any || q.1 > max_y { q.1 } else { max_y },
        ),
{
    let qp = pt(q);
    assert(filled(g, v0, nv, qp));
    if any {
        let a = choose|p: (int, int)| #[trigger] filled(g, v0, v, p) && p.0 == min_x;
        let b = choose|p: (int, int)| #[trigger] filled(g, v0, v, p) && p.0 == max_x;
        let c = choose|p: (int, int)| #[trigger] filled(g, v0, v, p) && p.1 == min_y;
        let d = choose|p: (int, int)| #[trigger] filled(g, v0, v, p) && p.1 == max_y;
        assert(filled(g, v0, nv, a) && filled(g, v0, nv, b) && filled(g, v0, nv, c) && filled(
            g,
            v0,
            nv,
            d,
        ));
    } else {
        assert forall|p: (int, int)| #[trigger] filled(g, v0, nv, p) implies p == qp by {
            assert(!filled(g, v0, v, p));
        }
    }
}

/// Fills the sprite that contains `(start_x, start_y)`: every pixel connected
/// to it through opaque, unvisited pixels is marked as visited, and the
/// bounding box of those pixels is returned. When the start pixel itself is
/// transparent, visited or outside the image, nothing is marked and the box is
/// the start pixel alone.
pub fn find_sprite_bounds(grid: &AlphaGrid, start_x: u32, start_y: u32, visited: &mut Vec<bool>) -> (r:
    SpriteRect)
    requires
        grid.wf(),
        old(visited)@.len() == grid.alpha@.len(),
    ensures
        final(visited)@ == marked(grid, old(visited)@, pt((start_x, start_y))),
        r == sprite_bounds(grid, old(visited)@, pt((start_x, start_y))),
        eligible(grid, old(visited)@, pt((start_x, start_y))) ==> within_image(grid, r)
            && bounds_box(sprite_member(grid, old(visited)@, pt((start_x, start_y))), r),
{
    let ghost v0 = visited@;
    let ghost start = pt((start_x, start_y));
    let w = grid.width;
    let h = grid.height;
    let mut stack: Vec<(u32, u32)> = Vec::new();
    stack.push((start_x, start_y));
    let mut any = false;
    let mut min_x = start_x;
    let mut max_x = start_x;
    let mut min_y = start_y;
    let mut max_y = start_y;
    proof {
        lemma_fill_start(grid, v0, start_x, start_y);
        assert(stack@ =~= seq![(start_x, start_y)]);
    }
    while stack.len() > 0
        invariant
            grid.wf(),
            w == grid.width,
            h == grid.height,
            visited@.len() == grid.alpha@.len(),
            fill_inv(grid, v0, visited@, start, stack@),
            box_inv(grid, v0, visited@, any, min_x, max_x, min_y, max_y),
        decreases 5 * count_false(visited@) + stack.len(),
    {
        let ghost old_stack = stack@;
        let ghost old_v = visited@;
        let (x, y) = stack.pop().unwrap();
        let ghost q = pt((x, y));
        assert(old_stack.last() == (x, y));
        assert(stack@ == old_stack.drop_last());
        if x >= w || y >= h {
            proof {
                lemma_fill_skip(grid, v0, old_v, start, old_stack);
            }
            continue;
        }
        let n = grid.alpha.len();
        proof {
            lemma_point_index(grid, q);
            assert(grid.index_of(q) < n);
            assert(y as int * w as int <= grid.index_of(q));
        }
        let i = (y as usize) * (w as usize) + (x as usize);
        if visited[i] {
            proof {
                lemma_fill_skip(grid, v0, old_v, start, old_stack);
            }
            continue;
        }
        if grid.alpha[i] == 0 {
            proof {
                lemma_fill_skip(grid, v0, old_v, start, old_stack);
            }
            continue;
        }
        proof {
            lemma_count_false_update(visited@, i as int);
            lemma_fill_mark(grid, v0, old_v, start, old_stack);
        }
        visited.set(i, true);
        proof {
            lemma_box_mark(grid, v0, old_v, visited@, (x, y), any, min_x, max_x, min_y, max_y);
        }
        if !any || x < min_x {
            min_x = x;
        }
        if !any || x > max_x {
            max_x = x;
        }
        if !any || y < min_y {
            min_y = y;
        }
        if !any || y > max_y {
            max_y = y;
        }
        any = true;
        if x > 0 {
            stack.push((x - 1, y));
        }
        if x + 1 < w {
            stack.push((x + 1, y));
        }
        if y > 0 {
            stack.push((x, y - 1));
        }
        if y + 1 < h {
            stack.push((x, y + 1));
        }
        assert(stack@ =~= old_stack.drop_last() + neighbours(grid, x, y));
    }
    proof {
        assert(stack@ =~= Seq::<(u32, u32)>::empty());
        lemma_fill_done(grid, v0, visited@, start);
    }
    if any {
        let r = SpriteRect {
            x: min_x,
            y: min_y,
            width: max_x - min_x + 1,
            height: max_y - min_y + 1,
        };
        proof {
            let member = sprite_member(grid, v0, start);
            let a = choose|p: (int, int)| #[trigger] filled(grid, v0, visited@, p) && p.0 == min_x;
            assert(connected(grid, v0, start, a));
            let path = choose|path: Seq<(int, int)>|
                #![trigger is_path(grid, v0, path), path.last()]
                is_path(grid, v0, path) && path[0] == start && path.last() == a;
            assert(eligible(grid, v0, path[0]));
            assert forall|p: (int, int)| #[trigger]
                member(p) implies r.x <= p.0 < r.x + r.width && r.y <= p.1 < r.y + r.height by {
                assert(filled(grid, v0, visited@, p));
            }
            let b = choose|p: (int, int)| #[trigger] filled(grid, v0, visited@, p) && p.0 == max_x;
            let c = choose|p: (int, int)| #[trigger] filled(grid, v0, visited@, p) && p.1 == min_y;
            let d = choose|p: (int, int)| #[trigger] filled(grid, v0, visited@, p) && p.1 == max_y;
            assert(member(a) && member(b) && member(c) && member(d));
            assert(bounds_box(member, r));
            let chosen = choose|r: SpriteRect| #[trigger] bounds_box(member, r);
            lemma_bounds_box_unique(member, r, chosen);
            assert(grid.in_bounds(b) && grid.in_bounds(d));
        }
        r
    } else {
        proof {
            if eligible(grid, v0, start) {
                reveal(fill_inv);
                assert(filled(grid, v0, visited@, start));
            }
        }
        SpriteRect { x: start_x, y: start_y, width: 1, height: 1 }
    }
}

/// The marks and the sprites found after scanning the first `k` pixels, row
/// after row: an unvisited opaque pixel starts a new sprite.
pub open spec fn scan(g: &AlphaGrid, k: nat) -> (Seq<bool>, Seq<SpriteRect>)
    decreases k,
{
    if k == 0 {
        (Seq::new(g.alpha@.len(), |i: int| false), Seq::empty())
    } else {
        let prev = scan(g, (k - 1) as nat);
        let p = g.point_at(k - 1);
        if !prev.0[k - 1] && g.alpha@[k - 1] > 0 {
            (marked(g, prev.0, p), prev.1.push(sprite_bounds(g, prev.0, p)))
        } else {
            prev
        }
    }
}

proof fn lemma_scan_len(g: &AlphaGrid, k: nat)
    ensures
        scan(g, k).0.len() == g.alpha@.len(),
    decreases k,
{
    if k > 0 {
        lemma_scan_len(g, (k - 1) as nat);
    }
}

/// No pixel marked.
pub open spec fn unmarked(g: &AlphaGrid) -> Seq<bool> {
    Seq::new(g.alpha@.len(), |i: int| false)
}

/// `p` and `q` lie in one 4-connected group of opaque pixels.
pub open spec fn same_component(g: &AlphaGrid, p: (int, int), q: (int, int)) -> bool {
    connected(g, unmarked(g), p, q)
}

/// Membership in the 4-connected group of opaque pixels that holds `p`.
pub open spec fn component_of(g: &AlphaGrid, p: (int, int)) -> spec_fn((int, int)) -> bool {
    |q: (int, int)| same_component(g, p, q)
}

/// The bounding box of the 4-connected group of opaque pixels that holds `p`.
pub open spec fn component_bounds(g: &AlphaGrid, p: (int, int)) -> SpriteRect {
    choose|r: SpriteRect| #[trigger] bounds_box(component_of(g, p), r)
}

/// The first pixel of every sprite the scan met in the first `k` pixels.
pub open spec fn scan_starts(g: &AlphaGrid, k: nat) -> Seq<(int, int)>
    decreases k,
{
    if k == 0 {
        Seq::empty()
    } else {
        let prev = scan(g, (k - 1) as nat);
        let starts = scan_starts(g, (k - 1) as nat);
        if !prev.0[k - 1] && g.alpha@[k - 1] > 0 {
            starts.push(g.point_at(k - 1))
        } else {
            starts
        }
    }
}

/// With no pixel marked, eligible means opaque.
proof fn lemma_eligible_unmarked(g: &AlphaGrid, p: (int, int))
    requires
        g.wf(),
    ensures
        eligible(g, unmarked(g), p) == g.opaque(p),
{
    if g.in_bounds(p) {
        lemma_point_index(g, p);
    }
}

proof fn lemma_component_symmetric(g: &AlphaGrid, p: (int, int), q: (int, int))
    requires
        same_component(g, p, q),
    ensures
        same_component(g, q, p),
{
    let u = unmarked(g);
    let path = choose|path: Seq<(int, int)>|
        #![trigger is_path(g, u, path), path.last()]
        is_path(g, u, path) && path[0] == p && path.last() == q;
    let n = path.len() as int;
    let rev = Seq::new(n as nat, |i: int| path[n - 1 - i]);
    assert forall|k: int| 0 <= k < rev.len() implies eligible(g, u, #[trigger] rev[k]) by {
        assert(rev[k] == path[n - 1 - k]);
    }
    assert forall|k: int| 0 <= k < rev.len() - 1 implies adjacent(#[trigger] rev[k], rev[k + 1]) by {
        let m = n - 2 - k;
        assert(adjacent(path[m], path[m + 1]));
    }
    assert(is_path(g, u, rev));
    assert(rev.last() == p);
}

proof fn lemma_component_transitive(
    g: &AlphaGrid,
    p: (int, int),
    q: (int, int),
    r: (int, int),
)
    requires
        same_component(g, p, q),
        same_component(g, q, r),
    ensures
        same_component(g, p, r),
{
    let u = unmarked(g);
    let a = choose|path: Seq<(int, int)>|
        #![trigger is_path(g, u, path), path.last()]
        is_path(g, u, path) && path[0] == p && path.last() == q;
    let b = choose|path: Seq<(int, int)>|
        #![trigger is_path(g, u, path), path.last()]
        is_path(g, u, path) && path[0] == q && path.last() == r;
    let path = a + b.drop_first();
    let na = a.len() as int;
    assert forall|k: int| 0 <= k < path.len() implies eligible(g, u, #[trigger] path[k]) by {
        if k < na {
            assert(path[k] == a[k]);
        } else {
            assert(path[k] == b[k - na + 1]);
        }
    }
    assert forall|k: int| 0 <= k < path.len() - 1 implies adjacent(#[trigger] path[k], path[k + 1]) by {
        if k < na - 1 {
            assert(path[k] == a[k] && path[k + 1] == a[k + 1]);
        } else if k == na - 1 {
            assert(path[k] == a.last());
            assert(path[k + 1] == b[1]);
            assert(adjacent(b[0], b[1]));
        } else {
            assert(path[k] == b[k - na + 1]);
            assert(path[k + 1] == b[k - na + 2]);
            assert(adjacent(b[k - na + 1], b[k - na + 2]));
        }
    }
    assert(is_path(g, u, path));
    if b.len() == 1 {
        assert(path =~= a);
    } else {
        assert(path.last() == b.last());
    }
}

/// When nothing of the group of `p` is marked in `v`, the sprite grown from
/// `p` under `v` is that whole group.
proof fn lemma_fill_is_component(g: &AlphaGrid, v: Seq<bool>, p: (int, int))
    requires
        g.wf(),
        v.len() == g.alpha@.len(),
        forall|q: (int, int)| #[trigger] same_component(g, p, q) ==> !v[g.index_of(q)],
    ensures
        sprite_member(g, v, p) =~= component_of(g, p),
{
    let u = unmarked(g);
    assert forall|q: (int, int)| #[trigger]
        connected(g, v, p, q) == same_component(g, p, q) by {
        if connected(g, v, p, q) {
            let path = choose|path: Seq<(int, int)>|
                #![trigger is_path(g, v, path), path.last()]
                is_path(g, v, path) && path[0] == p && path.last() == q;
            assert forall|k: int| 0 <= k < path.len() implies eligible(g, u, #[trigger] path[k]) by {
                assert(eligible(g, v, path[k]));
                lemma_eligible_unmarked(g, path[k]);
            }
            assert(is_path(g, u, path));
        }
        if same_component(g, p, q) {
            let path = choose|path: Seq<(int, int)>|
                #![trigger is_path(g, u, path), path.last()]
                is_path(g, u, path) && path[0] == p && path.last() == q;
            assert forall|k: int| 0 <= k < path.len() implies eligible(g, v, #[trigger] path[k]) by {
                let pre = path.take(k + 1);
                assert forall|m: int| 0 <= m < pre.len() implies eligible(g, u, #[trigger] pre[m]) by {
                    assert(pre[m] == path[m]);
                }
                assert forall|m: int| 0 <= m < pre.len() - 1 implies adjacent(
                    #[trigger] pre[m],
                    pre[m + 1],
                ) by {
                    assert(pre[m] == path[m] && pre[m + 1] == path[m + 1]);
                }
                assert(is_path(g, u, pre));
                assert(pre.last() == path[k]);
                assert(same_component(g, p, path[k]));
                assert(eligible(g, u, path[k]));
                lemma_eligible_unmarked(g, path[k]);
            }
            assert(is_path(g, v, path));
        }
    }
}

/// A pixel of a group is opaque.
proof fn lemma_component_opaque(g: &AlphaGrid, p: (int, int), q: (int, int))
    requires
        g.wf(),
        same_component(g, p, q),
    ensures
        g.opaque(q),
        g.opaque(p),
{
    let u = unmarked(g);
    let path = choose|path: Seq<(int, int)>|
        #![trigger is_path(g, u, path), path.last()]
        is_path(g, u, path) && path[0] == p && path.last() == q;
    assert(eligible(g, u, path[path.len() - 1]));
    assert(eligible(g, u, path[0]));
    lemma_eligible_unmarked(g, q);
    lemma_eligible_unmarked(g, p);
}

/// Marks that are exactly the groups of `starts`.
pub open spec fn marks_are_groups(g: &AlphaGrid, v: Seq<bool>, starts: Seq<(int, int)>) -> bool {
    &&& v.len() == g.alpha@.len()
    &&& forall|q: (int, int)|
        g.in_bounds(q) ==> (#[trigger] v[g.index_of(q)] <==> exists|i: int|
            0 <= i < starts.len() && #[trigger] same_component(g, starts[i], q))
}

/// An opaque pixel left unmarked by marks that are whole groups starts a new
/// group: its sprite is its whole group, apart from every group met before.
proof fn lemma_new_group(g: &AlphaGrid, v: Seq<bool>, starts: Seq<(int, int)>, p: (int, int))
    requires
        g.wf(),
        marks_are_groups(g, v, starts),
        g.opaque(p),
        !v[g.index_of(p)],
    ensures
        sprite_member(g, v, p) =~= component_of(g, p),
        eligible(g, v, p),
        forall|i: int| 0 <= i < starts.len() ==> !#[trigger] same_component(g, starts[i], p),
{
    assert forall|i: int| 0 <= i < starts.len() implies !#[trigger] same_component(
        g,
        starts[i],
        p,
    ) by {
        if same_component(g, starts[i], p) {
            assert(v[g.index_of(p)]);
        }
    }
    assert forall|q: (int, int)| #[trigger] same_component(g, p, q) implies !v[g.index_of(q)] by {
        lemma_component_opaque(g, p, q);
        if v[g.index_of(q)] {
            let i = choose|i: int| 0 <= i < starts.len() && #[trigger] same_component(g, starts[i], q);
            lemma_component_symmetric(g, p, q);
            lemma_component_transitive(g, starts[i], q, p);
        }
    }
    lemma_fill_is_component(g, v, p);
}

/// The scan keeps its marks equal to the groups of the sprites met so far;
/// each sprite is the bounding box of its own group, and no two sprites share
/// a group.
proof fn lemma_scan_components(g: &AlphaGrid, k: nat)
    requires
        g.wf(),
        k <= g.alpha@.len(),
    ensures
        scan_starts(g, k).len() == scan(g, k).1.len(),
        marks_are_groups(g, scan(g, k).0, scan_starts(g, k)),
        forall|i: int|
            0 <= i < scan_starts(g, k).len() ==> g.opaque(#[trigger] scan_starts(g, k)[i])
                && scan(g, k).1[i] == component_bounds(g, scan_starts(g, k)[i]),
        forall|i: int, j: int|
            0 <= i < j < scan_starts(g, k).len() ==> !same_component(
                g,
                #[trigger] scan_starts(g, k)[i],
                #[trigger] scan_starts(g, k)[j],
            ),
    decreases k,
{
    lemma_scan_len(g, k);
    if k == 0 {
        assert forall|q: (int, int)| g.in_bounds(q) implies (#[trigger] scan(g, 0).0[g.index_of(
            q,
        )] <==> exists|i: int|
            0 <= i < scan_starts(g, 0).len() && #[trigger] same_component(
                g,
                scan_starts(g, 0)[i],
                q,
            )) by {
            lemma_point_index(g, q);
        }
    } else {
        let j = (k - 1) as nat;
        lemma_scan_components(g, j);
        lemma_scan_len(g, j);
        let prev = scan(g, j);
        let starts = scan_starts(g, j);
        let p = g.point_at(j as int);
        lemma_index_point(g, j as int);
        if !prev.0[j as int] && g.alpha@[j as int] > 0 {
            lemma_new_group(g, prev.0, starts, p);
            let ns = starts.push(p);
            assert(scan_starts(g, k) == ns);
            let m = marked(g, prev.0, p);
            assert(scan(g, k).0 == m);
            assert forall|q: (int, int)| g.in_bounds(q) implies (#[trigger] m[g.index_of(q)]
                <==> exists|i: int| 0 <= i < ns.len() && #[trigger] same_component(g, ns[i], q)) by {
                lemma_point_index(g, q);
                assert(m[g.index_of(q)] == (prev.0[g.index_of(q)] || connected(g, prev.0, p, q)));
                assert(sprite_member(g, prev.0, p)(q) == component_of(g, p)(q));
                if prev.0[g.index_of(q)] {
                    let i = choose|i: int|
                        0 <= i < starts.len() && #[trigger] same_component(g, starts[i], q);
                    assert(ns[i] == starts[i]);
                }
                if same_component(g, p, q) {
                    assert(ns[ns.len() - 1] == p);
                }
                if exists|i: int| 0 <= i < ns.len() && #[trigger] same_component(g, ns[i], q) {
                    let i = choose|i: int| 0 <= i < ns.len() && #[trigger] same_component(g, ns[i], q);
                    if i < starts.len() {
                        assert(ns[i] == starts[i]);
                    }
                }
            }
            assert(sprite_bounds(g, prev.0, p) == component_bounds(g, p));
            assert forall|i: int| 0 <= i < ns.len() implies g.opaque(#[trigger] ns[i])
                && scan(g, k).1[i] == component_bounds(g, ns[i]) by {
                if i < starts.len() {
                    assert(ns[i] == starts[i]);
                    assert(scan(g, k).1[i] == prev.1[i]);
                }
            }
            assert forall|a: int, b: int| 0 <= a < b < ns.len() implies !same_component(
                g,
                #[trigger] ns[a],
                #[trigger] ns[b],
            ) by {
                assert(ns[a] == starts[a]);
                if b < starts.len() {
                    assert(ns[b] == starts[b]);
                }
            }
        } else {
            assert(scan_starts(g, k) == starts);
            assert(scan(g, k) == prev);
        }
    }
}

/// Law: the sprites are the 4-connected groups of opaque pixels, one sprite
/// per group. The scan meets each group first at `scan_starts`; each sprite is
/// the bounding box of the whole group of its first pixel; no two sprites
/// belong to one group; and every opaque pixel is in the group of a sprite.
pub proof fn lemma_sprites_are_components(g: &AlphaGrid)
    requires
        g.wf(),
    ensures
        scan_starts(g, g.alpha@.len() as nat).len() == scan(g, g.alpha@.len() as nat).1.len(),
        forall|i: int|
            0 <= i < scan_starts(g, g.alpha@.len() as nat).len() ==> g.opaque(
                #[trigger] scan_starts(g, g.alpha@.len() as nat)[i],
            ) && scan(g, g.alpha@.len() as nat).1[i] == component_bounds(
                g,
                scan_starts(g, g.alpha@.len() as nat)[i],
            ),
        forall|i: int, j: int|
            0 <= i < j < scan_starts(g, g.alpha@.len() as nat).len() ==> !same_component(
                g,
                #[trigger] scan_starts(g, g.alpha@.len() as nat)[i],
                #[trigger] scan_starts(g, g.alpha@.len() as nat)[j],
            ),
        forall|q: (int, int)|
            g.opaque(q) ==> exists|i: int|
                0 <= i < scan_starts(g, g.alpha@.len() as nat).len() && #[trigger] same_component(
                    g,
                    scan_starts(g, g.alpha@.len() as nat)[i],
                    q,
                ),
{
    let n = g.alpha@.len() as nat;
    lemma_scan_components(g, n);
    lemma_scan_marks_opaque(g, n);
    assert forall|q: (int, int)| g.opaque(q) implies exists|i: int|
        0 <= i < scan_starts(g, n).len() && #[trigger] same_component(g, scan_starts(g, n)[i], q) by {
        lemma_point_index(g, q);
        assert(scan(g, n).0[g.index_of(q)]);
    }
}

/// Finds every sprite of the sheet, in the order in which a row-by-row scan
/// meets their first pixel.
pub fn find_sprites(grid: &AlphaGrid) -> (sprites: Vec<SpriteRect>)
    requires
        grid.wf(),
    ensures
        sprites@ == scan(grid, grid.alpha@.len() as nat).1,
        forall|i: int| 0 <= i < sprites@.len() ==> within_image(grid, #[trigger] sprites@[i]),
        forall|i: int|
            0 <= i < sprites@.len() ==> bounds_box(
                component_of(grid, scan_starts(grid, grid.alpha@.len() as nat)[i]),
                #[trigger] sprites@[i],
            ),
{
    let w = grid.width;
    let h = grid.height;
    let n = grid.alpha.len();
    let mut visited: Vec<bool> = Vec::new();
    while visited.len() < n
        invariant
            visited.len() <= n,
            n == grid.alpha@.len(),
            forall|i: int| 0 <= i < visited.len() ==> !#[trigger] visited@[i],
        decreases n - visited.len(),
    {
        visited.push(false);
    }
    let mut sprites: Vec<SpriteRect> = Vec::new();
    proof {
        assert(visited@ =~= scan(grid, 0).0);
        assert(sprites@ =~= scan(grid, 0).1);
    }
    let mut y: u32 = 0;
    while y < h
        invariant
            grid.wf(),
            w == grid.width,
            h == grid.height,
            n == grid.alpha@.len(),
            y <= h,
            (visited@, sprites@) == scan(grid, (y * w) as nat),
            forall|i: int| 0 <= i < sprites@.len() ==> within_image(grid, #[trigger] sprites@[i]),
            forall|i: int|
                0 <= i < sprites@.len() ==> bounds_box(
                    component_of(grid, scan_starts(grid, (y * w) as nat)[i]),
                    #[trigger] sprites@[i],
                ),
        decreases h - y,
    {
        let mut x: u32 = 0;
        while x < w
            invariant
                grid.wf(),
                w == grid.width,
                h == grid.height,
                n == grid.alpha@.len(),
                y < h,
                x <= w,
                (visited@, sprites@) == scan(grid, (y * w + x) as nat),
                forall|i: int| 0 <= i < sprites@.len() ==> within_image(grid, #[trigger] sprites@[i]),
                forall|i: int|
                    0 <= i < sprites@.len() ==> bounds_box(
                        component_of(grid, scan_starts(grid, (y * w + x) as nat)[i]),
                        #[trigger] sprites@[i],
                    ),
            decreases w - x,
        {
            let ghost k = y * w + x;
            proof {
                lemma_point_index(grid, pt((x, y)));
                lemma_scan_len(grid, k as nat);
                assert(y as int * w as int <= k);
            }
            let i = (y as usize) * (w as usize) + (x as usize);
            if !visited[i] && grid.alpha[i] > 0 {
                let ghost starts = scan_starts(grid, k as nat);
                proof {
                    lemma_scan_components(grid, k as nat);
                    lemma_new_group(grid, visited@, starts, pt((x, y)));
                    assert(scan_starts(grid, (k + 1) as nat) == starts.push(pt((x, y))));
                }
                let r = find_sprite_bounds(grid, x, y, &mut visited);
                let ghost before = sprites@;
                sprites.push(r);
                assert forall|j: int| 0 <= j < sprites@.len() implies within_image(
                    grid,
                    #[trigger] sprites@[j],
                ) && bounds_box(
                    component_of(grid, scan_starts(grid, (k + 1) as nat)[j]),
                    sprites@[j],
                ) by {
                    if j < before.len() {
                        assert(sprites@[j] == before[j]);
                        assert(scan_starts(grid, (k + 1) as nat)[j] == starts[j]);
                    }
                }
            } else {
                proof {
                    assert(scan_starts(grid, (k + 1) as nat) == scan_starts(grid, k as nat));
                }
            }
            x += 1;
        }
        proof {
            assert((y + 1) * w == y * w + w) by (nonlinear_arith);
        }
        y += 1;
    }
    proof {
        assert(h * w == w * h) by (nonlinear_arith);
    }
    sprites
}

/// Law: after `k` pixels of the scan, the marked pixels among them are the
/// opaque ones, and no pixel further on is marked unless it is opaque. After
/// the whole scan, every opaque pixel belongs to a sprite and no transparent
/// one does.
pub proof fn lemma_scan_marks_opaque(g: &AlphaGrid, k: nat)
    requires
        g.wf(),
        k <= g.alpha@.len(),
    ensures
        scan(g, k).0.len() == g.alpha@.len(),
        forall|i: int| 0 <= i < k ==> (#[trigger] scan(g, k).0[i] <==> g.alpha@[i] > 0),
        forall|i: int| 0 <= i < g.alpha@.len() && scan(g, k).0[i] ==> g.alpha@[i] > 0,
    decreases k,
{
    lemma_scan_len(g, k);
    if k > 0 {
        let j = k - 1;
        lemma_scan_marks_opaque(g, j as nat);
        let prev = scan(g, j as nat);
        let p = g.point_at(j);
        lemma_index_point(g, j);
        if !prev.0[j] && g.alpha@[j] > 0 {
            let m = marked(g, prev.0, p);
            assert(eligible(g, prev.0, p));
            let path = seq![p];
            assert(is_path(g, prev.0, path));
            assert(path.last() == p);
            assert(connected(g, prev.0, p, p));
            assert forall|i: int| 0 <= i < g.alpha@.len() && m[i] implies g.alpha@[i] > 0 by {
                if !prev.0[i] {
                    lemma_index_point(g, i);
                    let q = g.point_at(i);
                    assert(connected(g, prev.0, p, q));
                    let path = choose|path: Seq<(int, int)>|
                        #![trigger is_path(g, prev.0, path), path.last()]
                        is_path(g, prev.0, path) && path[0] == p && path.last() == q;
                    assert(eligible(g, prev.0, path[path.len() - 1]));
                }
            }
        }
    }
}

} // verus!
