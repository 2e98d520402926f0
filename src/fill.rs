use vstd::prelude::*;
use crate::buffer::{Image, Pixel, pix, in_grid};

verus! {

/// Cells `a` and `b` share an edge.
pub open spec fn adjacent(a: (int, int), b: (int, int)) -> bool {
    ||| a.0 == b.0 && (a.1 == b.1 + 1 || b.1 == a.1 + 1)
    ||| a.1 == b.1 && (a.0 == b.0 + 1 || b.0 == a.0 + 1)
}

/// `p` is a non-empty walk through edge-adjacent cells of the grid `s`
/// (width `w`, height `h`), every one of them coloured `c`.
pub open spec fn is_region_path(s: Seq<Pixel>, w: int, h: int, c: Pixel, p: Seq<(int, int)>) -> bool {
    &&& p.len() > 0
    &&& forall|k: int|
        #![trigger p[k]]
        0 <= k < p.len() ==> in_grid(w, h, p[k].0, p[k].1) && pix(s, w, p[k].0, p[k].1) == c
    &&& forall|k: int| #![trigger p[k], p[k + 1]] 0 <= k < p.len() - 1 ==> adjacent(p[k], p[k + 1])
}

/// Cell `(a, b)` belongs to the 4-connected region of equal colour that contains `(x, y)`.
pub open spec fn in_region(s: Seq<Pixel>, w: int, h: int, x: int, y: int, a: int, b: int) -> bool {
    exists|p: Seq<(int, int)>|
        #[trigger] is_region_path(s, w, h, pix(s, w, x, y), p) && p[0] == (x, y) && p.last() == (a, b)
}

impl Image {
    /// Cell `(a, b)` is in the region of `(x, y)`: a fill that starts at
    /// `(x, y)` repaints it.
    pub open spec fn region(&self, x: int, y: int, a: int, b: int) -> bool {
        in_region(self.pixels@, self.width as int, self.height as int, x, y, a, b)
    }
}

/// The exact result of a flood fill with `color` from `(x, y)`: the region of
/// `(x, y)` takes the colour, every other cell keeps its own.
pub open spec fn filled(old: &Image, new: &Image, x: int, y: int, color: Pixel) -> bool {
    &&& new.wf()
    &&& new.width == old.width
    &&& new.height == old.height
    &&& forall|a: int, b: int|
        #![trigger new.at(a, b)]
        old.contains(a, b) ==> new.at(a, b) == if old.region(x, y, a, b) {
            color
        } else {
            old.at(a, b)
        }
}

/// Filling a region with the colour it already has changes nothing.
pub proof fn lemma_fill_same_colour_is_noop(old: &Image, new: &Image, x: int, y: int, color: Pixel)
    requires
        old.wf(),
        old.contains(x, y),
        old.at(x, y) == color,
        filled(old, new, x, y, color),
    ensures
        new.pixels@ == old.pixels@,
{
    let w = old.width as int;
    let h = old.height as int;
    assert forall|i: int| 0 <= i < old.pixels@.len() implies new.pixels@[i] == old.pixels@[i] by {
        let a = i % w;
        let b = i / w;
        assert(w > 0) by (nonlinear_arith)
            requires
                0 <= i < w * h,
                h >= 0,
        ;
        assert(i == b * w + a && 0 <= a < w && 0 <= b < h) by (nonlinear_arith)
            requires
                0 <= i < w * h,
                w > 0,
                a == i % w,
                b == i / w,
        ;
        assert(new.at(a, b) == old.at(a, b)) by {
            if old.region(x, y, a, b) {
                lemma_region_colour(old.pixels@, w, h, x, y, a, b);
            }
        }
    }
    assert(new.pixels@ =~= old.pixels@);
}

/// Number of entries of `s` equal to `c`.
pub open spec fn count_of(s: Seq<Pixel>, c: Pixel) -> nat
    decreases s.len(),
{
    if s.len() == 0 {
        0
    } else {
        count_of(s.drop_last(), c) + if s.last() == c {
            1nat
        } else {
            0nat
        }
    }
}

/// The stack `st` holds the cell `(a, b)`.
pub open spec fn on_stack(st: Seq<(usize, usize)>, a: int, b: int) -> bool {
    exists|i: int| 0 <= i < st.len() && #[trigger] st[i].0 == a && st[i].1 == b
}

/// Cell `(a, b)` raises no obligation: it is outside the grid, not of the target
/// colour at the start, already repainted, or still waiting on the stack.
pub open spec fn settled(
    orig: Seq<Pixel>,
    cur: Seq<Pixel>,
    st: Seq<(usize, usize)>,
    w: int,
    h: int,
    target: Pixel,
    a: int,
    b: int,
) -> bool {
    ||| !in_grid(w, h, a, b)
    ||| pix(orig, w, a, b) != target
    ||| pix(cur, w, a, b) != target
    ||| on_stack(st, a, b)
}

pub open spec fn painted(orig: Seq<Pixel>, cur: Seq<Pixel>, w: int, target: Pixel, a: int, b: int) -> bool {
    pix(orig, w, a, b) == target && pix(cur, w, a, b) != target
}

/// Every repainted cell has all four of its neighbours settled.
pub open spec fn closed(
    orig: Seq<Pixel>,
    cur: Seq<Pixel>,
    st: Seq<(usize, usize)>,
    w: int,
    h: int,
    target: Pixel,
) -> bool {
    forall|a: int, b: int|
        #![trigger pix(cur, w, a, b)]
        in_grid(w, h, a, b) && painted(orig, cur, w, target, a, b) ==> {
            &&& settled(orig, cur, st, w, h, target, a - 1, b)
            &&& settled(orig, cur, st, w, h, target, a + 1, b)
            &&& settled(orig, cur, st, w, h, target, a, b - 1)
            &&& settled(orig, cur, st, w, h, target, a, b + 1)
        }
}

proof fn lemma_count_update(s: Seq<Pixel>, i: int, v: Pixel, c: Pixel)
    requires
        0 <= i < s.len(),
        s[i] == c,
        v != c,
    ensures
        count_of(s.update(i, v), c) + 1 == count_of(s, c),
    decreases s.len(),
{
    let t = s.update(i, v);
    if i == s.len() - 1 {
        assert(t.drop_last() =~= s.drop_last());
    } else {
        assert(t.drop_last() =~= s.drop_last().update(i, v));
        lemma_count_update(s.drop_last(), i, v, c);
    }
}

/// The start cell is in its own region.
proof fn lemma_region_start(s: Seq<Pixel>, w: int, h: int, x: int, y: int)
    requires
        in_grid(w, h, x, y),
    ensures
        in_region(s, w, h, x, y, x, y),
{
    let p = seq![(x, y)];
    assert(is_region_path(s, w, h, pix(s, w, x, y), p));
}

/// A region cell has the colour of the start cell.
proof fn lemma_region_colour(s: Seq<Pixel>, w: int, h: int, x: int, y: int, a: int, b: int)
    requires
        in_region(s, w, h, x, y, a, b),
    ensures
        in_grid(w, h, a, b),
        pix(s, w, a, b) == pix(s, w, x, y),
{
    let p = choose|p: Seq<(int, int)>|
        #[trigger] is_region_path(s, w, h, pix(s, w, x, y), p) && p[0] == (x, y) && p.last() == (a, b);
    assert(p[p.len() - 1] == (a, b));
}

/// A neighbour of a region cell that has the region's colour is in the region.
proof fn lemma_region_step(s: Seq<Pixel>, w: int, h: int, x: int, y: int, a: int, b: int, c: int, d: int)
    requires
        in_region(s, w, h, x, y, a, b),
        adjacent((a, b), (c, d)),
        in_grid(w, h, c, d),
        pix(s, w, c, d) == pix(s, w, x, y),
    ensures
        in_region(s, w, h, x, y, c, d),
{
    let p = choose|p: Seq<(int, int)>|
        #[trigger] is_region_path(s, w, h, pix(s, w, x, y), p) && p[0] == (x, y) && p.last() == (a, b);
    let q = p.push((c, d));
    assert(q[q.len() - 2] == p[p.len() - 1]);
    assert(is_region_path(s, w, h, pix(s, w, x, y), q));
    assert(q[0] == (x, y));
}

/// Along a region path from a repainted start, in a closed state with an empty
/// stack, every cell has been repainted.
proof fn lemma_path_painted(
    orig: Seq<Pixel>,
    cur: Seq<Pixel>,
    w: int,
    h: int,
    target: Pixel,
    p: Seq<(int, int)>,
    k: int,
)
    requires
        is_region_path(orig, w, h, target, p),
        0 <= k < p.len(),
        painted(orig, cur, w, target, p[0].0, p[0].1),
        closed(orig, cur, Seq::empty(), w, h, target),
    ensures
        painted(orig, cur, w, target, p[k].0, p[k].1),
    decreases k,
{
    if k > 0 {
        lemma_path_painted(orig, cur, w, h, target, p, k - 1);
        let a = p[k - 1].0;
        let b = p[k - 1].1;
        assert(adjacent(p[k - 1], p[k - 1 + 1]));
        assert(in_grid(w, h, a, b));
        assert(pix(cur, w, a, b) != target);
        assert(p[k] == (a - 1, b) || p[k] == (a + 1, b) || p[k] == (a, b - 1) || p[k] == (a, b + 1));
    }
}

/// Whether two pixels are the same colour.
pub fn same_pixel(p: Pixel, q: Pixel) -> (r: bool)
    ensures
        r == (p == q),
{
    p.0 == q.0 && p.1 == q.1 && p.2 == q.2 && p.3 == q.3
}

/// Every stack entry is a grid cell, and one of the target colour is in the region.
pub open spec fn stack_ok(
    orig: Seq<Pixel>,
    st: Seq<(usize, usize)>,
    w: int,
    h: int,
    x: int,
    y: int,
    target: Pixel,
) -> bool {
    forall|a: int, b: int|
        #![trigger on_stack(st, a, b)]
        on_stack(st, a, b) ==> in_grid(w, h, a, b) && (pix(orig, w, a, b) == target ==> in_region(
            orig,
            w,
            h,
            x,
            y,
            a,
            b,
        ))
}

proof fn lemma_pop(st: Seq<(usize, usize)>)
    requires
        st.len() > 0,
    ensures
        on_stack(st, st.last().0 as int, st.last().1 as int),
        forall|a: int, b: int|
            #![trigger on_stack(st.drop_last(), a, b)]
            on_stack(st.drop_last(), a, b) ==> on_stack(st, a, b),
        forall|a: int, b: int|
            #![trigger on_stack(st, a, b)]
            on_stack(st, a, b) && !(a == st.last().0 && b == st.last().1) ==> on_stack(
                st.drop_last(),
                a,
                b,
            ),
{
    let t = st.drop_last();
    assert(st[st.len() - 1] == st.last());
    assert forall|a: int, b: int| #[trigger] on_stack(t, a, b) implies on_stack(st, a, b) by {
        let i = choose|i: int| 0 <= i < t.len() && #[trigger] t[i].0 == a && t[i].1 == b;
        assert(st[i] == t[i]);
    }
    assert forall|a: int, b: int|
        #[trigger] on_stack(st, a, b) && !(a == st.last().0 && b == st.last().1) implies on_stack(
            t,
            a,
            b,
        ) by {
        let i = choose|i: int| 0 <= i < st.len() && #[trigger] st[i].0 == a && st[i].1 == b;
        assert(t[i] == st[i]);
    }
}

proof fn lemma_push(st: Seq<(usize, usize)>, e: (usize, usize))
    ensures
        on_stack(st.push(e), e.0 as int, e.1 as int),
        forall|a: int, b: int|
            #![trigger on_stack(st, a, b)]
            on_stack(st, a, b) ==> on_stack(st.push(e), a, b),
        forall|a: int, b: int|
            #![trigger on_stack(st.push(e), a, b)]
            on_stack(st.push(e), a, b) ==> on_stack(st, a, b) || (a == e.0 && b == e.1),
{
    let t = st.push(e);
    assert(t[st.len() as int] == e);
    assert forall|a: int, b: int| #[trigger] on_stack(st, a, b) implies on_stack(t, a, b) by {
        let i = choose|i: int| 0 <= i < st.len() && #[trigger] st[i].0 == a && st[i].1 == b;
        assert(t[i] == st[i]);
    }
    assert forall|a: int, b: int|
        #[trigger] on_stack(t, a, b) && !(a == e.0 && b == e.1) implies on_stack(st, a, b) by {
        let i = choose|i: int| 0 <= i < t.len() && #[trigger] t[i].0 == a && t[i].1 == b;
        assert(t[i] == st[i]);
    }
}

proof fn lemma_push_ok(
    orig: Seq<Pixel>,
    st: Seq<(usize, usize)>,
    w: int,
    h: int,
    x: int,
    y: int,
    target: Pixel,
    e: (usize, usize),
)
    requires
        stack_ok(orig, st, w, h, x, y, target),
        in_grid(w, h, e.0 as int, e.1 as int),
        pix(orig, w, e.0 as int, e.1 as int) == target ==> in_region(orig, w, h, x, y, e.0 as int, e.1 as int),
    ensures
        stack_ok(orig, st.push(e), w, h, x, y, target),
        on_stack(st.push(e), e.0 as int, e.1 as int),
        forall|a: int, b: int|
            #![trigger on_stack(st, a, b)]
            on_stack(st, a, b) ==> on_stack(st.push(e), a, b),
{
    lemma_push(st, e);
}

/// Settled cells stay settled when the step only repaints cells away from the
/// target colour and drops from the stack only a cell that is no longer of it.
proof fn lemma_settled_keep(
    orig: Seq<Pixel>,
    cur0: Seq<Pixel>,
    cur1: Seq<Pixel>,
    st0: Seq<(usize, usize)>,
    st1: Seq<(usize, usize)>,
    w: int,
    h: int,
    target: Pixel,
    cx: int,
    cy: int,
    a: int,
    b: int,
)
    requires
        settled(orig, cur0, st0, w, h, target, a, b),
        forall|c: int, d: int|
            #![trigger pix(cur1, w, c, d)]
            in_grid(w, h, c, d) && pix(cur0, w, c, d) != target ==> pix(cur1, w, c, d) != target,
        pix(cur1, w, cx, cy) != target,
        forall|c: int, d: int|
            #![trigger on_stack(st0, c, d)]
            on_stack(st0, c, d) && !(c == cx && d == cy) ==> on_stack(st1, c, d),
    ensures
        settled(orig, cur1, st1, w, h, target, a, b),
{
    if in_grid(w, h, a, b) && pix(cur0, w, a, b) != target {
        assert(pix(cur1, w, a, b) != target);
    }
}

impl Image {
    /// Flood fill: repaints with `color` the 4-connected region of cells that have
    /// the colour of `(x, y)` and are joined to it, using an explicit stack.
    /// Nothing changes when that region already has `color`.
    pub fn flood_fill(&mut self, x: usize, y: usize, color: Pixel)
        requires
            old(self).wf(),
            old(self).contains(x as int, y as int),
        ensures
            filled(old(self), final(self), x as int, y as int, color),
    {
        let ghost orig = self.pixels@;
        let ghost wi = self.width as int;
        let ghost hi = self.height as int;
        let ghost xi = x as int;
        let ghost yi = y as int;
        let target = self.get(x, y);
        if same_pixel(target, color) {
            assert forall|a: int, b: int|
                #![trigger self.at(a, b)]
                old(self).contains(a, b) && old(self).region(xi, yi, a, b) implies self.at(a, b)
                == color by {
                lemma_region_colour(orig, wi, hi, xi, yi, a, b);
            }
            return ;
        }
        let w: usize = self.width as usize;
        let h: usize = self.height as usize;
        let mut stack: Vec<(usize, usize)> = Vec::new();
        proof {
            lemma_region_start(orig, wi, hi, xi, yi);
            lemma_push(stack@, (x, y));
            assert forall|a: int, b: int|
                #![trigger on_stack(stack@.push((x, y)), a, b)]
                on_stack(stack@.push((x, y)), a, b) implies a == xi && b == yi by {
                assert(!on_stack(stack@, a, b));
            }
        }
        stack.push((x, y));
        while stack.len() > 0
            invariant
                self.wf(),
                self.width == old(self).width,
                self.height == old(self).height,
                orig == old(self).pixels@,
                wi == w,
                hi == h,
                w == self.width,
                h == self.height,
                xi == x,
                yi == y,
                in_grid(wi, hi, xi, yi),
                target == pix(orig, wi, xi, yi),
                target != color,
                forall|a: int, b: int|
                    #![trigger pix(self.pixels@, wi, a, b)]
                    in_grid(wi, hi, a, b) ==> pix(self.pixels@, wi, a, b) == pix(orig, wi, a, b) || (
                    pix(orig, wi, a, b) == target && pix(self.pixels@, wi, a, b) == color),
                forall|a: int, b: int|
                    #![trigger pix(self.pixels@, wi, a, b)]
                    in_grid(wi, hi, a, b) && painted(orig, self.pixels@, wi, target, a, b) ==> in_region(
                        orig,
                        wi,
                        hi,
                        xi,
                        yi,
                        a,
                        b,
                    ),
                stack_ok(orig, stack@, wi, hi, xi, yi, target),
                painted(orig, self.pixels@, wi, target, xi, yi) || on_stack(stack@, xi, yi),
                closed(orig, self.pixels@, stack@, wi, hi, target),
            decreases count_of(self.pixels@, target) * 5 + stack@.len(),
        {
            let ghost cur0 = self.pixels@;
            let ghost st0 = stack@;
            proof {
                lemma_pop(st0);
                assert(stack_ok(orig, st0.drop_last(), wi, hi, xi, yi, target));
            }
            let (cx, cy) = stack.pop().unwrap();
            let ghost ci = cx as int;
            let ghost cj = cy as int;
            assert(st0.last() == (cx, cy));
            assert(on_stack(st0, ci, cj));
            let here = self.get(cx, cy);
            if same_pixel(here, target) {
                proof {
                    crate::buffer::lemma_index_in_bounds(wi, hi, ci, cj);
                    lemma_count_update(cur0, crate::buffer::cell_index(wi, ci, cj), color, target);
                    assert(pix(orig, wi, ci, cj) == target);
                    assert(in_region(orig, wi, hi, xi, yi, ci, cj));
                }
                self.set(cx, cy, color);
                let ghost cur1 = self.pixels@;
                proof {
                    crate::buffer::lemma_update_cell(cur0, wi, hi, ci, cj, color);
                }
                let ghost sp = stack@;
                if cx > 0 {
                    proof {
                        if pix(orig, wi, ci - 1, cj) == target {
                            lemma_region_step(orig, wi, hi, xi, yi, ci, cj, ci - 1, cj);
                        }
                        lemma_push_ok(orig, stack@, wi, hi, xi, yi, target, ((cx - 1) as usize, cy));
                    }
                    stack.push((cx - 1, cy));
                }
                if cx + 1 < w {
                    proof {
                        if pix(orig, wi, ci + 1, cj) == target {
                            lemma_region_step(orig, wi, hi, xi, yi, ci, cj, ci + 1, cj);
                        }
                        lemma_push_ok(orig, stack@, wi, hi, xi, yi, target, ((cx + 1) as usize, cy));
                    }
                    stack.push((cx + 1, cy));
                }
                if cy > 0 {
                    proof {
                        if pix(orig, wi, ci, cj - 1) == target {
                            lemma_region_step(orig, wi, hi, xi, yi, ci, cj, ci, cj - 1);
                        }
                        lemma_push_ok(orig, stack@, wi, hi, xi, yi, target, (cx, (cy - 1) as usize));
                    }
                    stack.push((cx, cy - 1));
                }
                if cy + 1 < h {
                    proof {
                        if pix(orig, wi, ci, cj + 1) == target {
                            lemma_region_step(orig, wi, hi, xi, yi, ci, cj, ci, cj + 1);
                        }
                        lemma_push_ok(orig, stack@, wi, hi, xi, yi, target, (cx, (cy + 1) as usize));
                    }
                    stack.push((cx, cy + 1));
                }
                proof {
                    assert(settled(orig, cur1, stack@, wi, hi, target, ci - 1, cj));
                    assert(settled(orig, cur1, stack@, wi, hi, target, ci + 1, cj));
                    assert(settled(orig, cur1, stack@, wi, hi, target, ci, cj - 1));
                    assert(settled(orig, cur1, stack@, wi, hi, target, ci, cj + 1));
                    assert forall|a: int, b: int|
                        #![trigger pix(cur1, wi, a, b)]
                        in_grid(wi, hi, a, b) && painted(orig, cur1, wi, target, a, b) implies {
                        &&& settled(orig, cur1, stack@, wi, hi, target, a - 1, b)
                        &&& settled(orig, cur1, stack@, wi, hi, target, a + 1, b)
                        &&& settled(orig, cur1, stack@, wi, hi, target, a, b - 1)
                        &&& settled(orig, cur1, stack@, wi, hi, target, a, b + 1)
                    } by {
                        if !(a == ci && b == cj) {
                            assert(pix(cur0, wi, a, b) == pix(cur1, wi, a, b));
                            lemma_settled_keep(orig, cur0, cur1, st0, stack@, wi, hi, target, ci, cj, a - 1, b);
                            lemma_settled_keep(orig, cur0, cur1, st0, stack@, wi, hi, target, ci, cj, a + 1, b);
                            lemma_settled_keep(orig, cur0, cur1, st0, stack@, wi, hi, target, ci, cj, a, b - 1);
                            lemma_settled_keep(orig, cur0, cur1, st0, stack@, wi, hi, target, ci, cj, a, b + 1);
                        }
                    }
                }
            } else {
                proof {
                    assert forall|a: int, b: int|
                        #![trigger pix(cur0, wi, a, b)]
                        in_grid(wi, hi, a, b) && painted(orig, cur0, wi, target, a, b) implies {
                        &&& settled(orig, cur0, stack@, wi, hi, target, a - 1, b)
                        &&& settled(orig, cur0, stack@, wi, hi, target, a + 1, b)
                        &&& settled(orig, cur0, stack@, wi, hi, target, a, b - 1)
                        &&& settled(orig, cur0, stack@, wi, hi, target, a, b + 1)
                    } by {
                        lemma_settled_keep(orig, cur0, cur0, st0, stack@, wi, hi, target, ci, cj, a - 1, b);
                        lemma_settled_keep(orig, cur0, cur0, st0, stack@, wi, hi, target, ci, cj, a + 1, b);
                        lemma_settled_keep(orig, cur0, cur0, st0, stack@, wi, hi, target, ci, cj, a, b - 1);
                        lemma_settled_keep(orig, cur0, cur0, st0, stack@, wi, hi, target, ci, cj, a, b + 1);
                    }
                }
            }
        }
        proof {
            let cur = self.pixels@;
            assert(stack@ =~= Seq::<(usize, usize)>::empty());
            assert(!on_stack(stack@, xi, yi));
            assert forall|a: int, b: int|
                #![trigger self.at(a, b)]
                old(self).contains(a, b) implies self.at(a, b) == if old(self).region(xi, yi, a, b) {
                    color
                } else {
                    old(self).at(a, b)
                } by {
                if old(self).region(xi, yi, a, b) {
                    let p = choose|p: Seq<(int, int)>|
                        #[trigger] is_region_path(orig, wi, hi, target, p) && p[0] == (xi, yi)
                            && p.last() == (a, b);
                    lemma_path_painted(orig, cur, wi, hi, target, p, p.len() - 1);
                }
            }
        }
    }
}

} // verus!