use vstd::prelude::*;

verus! {

/// One cell of the artwork: red, green, blue and alpha channels.
pub type Pixel = (u8, u8, u8, u8);

/// The fully transparent black cell that new canvases are filled with.
pub open spec fn transparent() -> Pixel {
    (0u8, 0u8, 0u8, 0u8)
}

/// Flat row-major position of cell `(x, y)` in a grid of width `w`.
pub open spec fn cell_index(w: int, x: int, y: int) -> int {
    y * w + x
}

/// The cell `(x, y)` of the row-major sequence `s` for a grid of width `w`.
pub open spec fn pix(s: Seq<Pixel>, w: int, x: int, y: int) -> Pixel {
    s[cell_index(w, x, y)]
}

pub open spec fn in_grid(w: int, h: int, x: int, y: int) -> bool {
    0 <= x < w && 0 <= y < h
}

/// A rectangular grid of pixels, stored row-major.
pub struct Image {
    pub width: u16,
    pub height: u16,
    pub pixels: Vec<Pixel>,
}

impl Image {
    /// The pixel vector holds exactly one entry per cell.
    pub open spec fn wf(&self) -> bool {
        self.pixels@.len() == self.width as int * self.height as int
    }

    /// The colour of cell `(x, y)`.
    pub open spec fn at(&self, x: int, y: int) -> Pixel {
        pix(self.pixels@, self.width as int, x, y)
    }

    pub open spec fn contains(&self, x: int, y: int) -> bool {
        in_grid(self.width as int, self.height as int, x, y)
    }

    pub fn new(width: u16, height: u16, pixels: Vec<Pixel>) -> (r: Image)
        ensures
            r.width == width,
            r.height == height,
            r.pixels@ == pixels@,
    {
        Image { width, height, pixels }
    }

    /// A canvas of the given size with every cell transparent.
    pub fn blank(width: u16, height: u16) -> (r: Image)
        ensures
            r.wf(),
            r.width == width,
            r.height == height,
            forall|i: int| 0 <= i < r.pixels@.len() ==> r.pixels@[i] == transparent(),
    {
        let n: usize = cell_count(width, height);
        let mut pixels: Vec<Pixel> = Vec::new();
        let mut i: usize = 0;
        while i < n
            invariant
                i <= n,
                pixels@.len() == i,
                forall|k: int| 0 <= k < i ==> pixels@[k] == transparent(),
            decreases n - i,
        {
            pixels.push((0, 0, 0, 0));
            i = i + 1;
        }
        Image { width, height, pixels }
    }

    /// Whether the pixel vector holds exactly one entry per cell.
    pub fn is_well_formed(&self) -> (r: bool)
        ensures
            r == self.wf(),
    {
        self.pixels.len() == cell_count(self.width, self.height)
    }

    /// The colour of cell `(x, y)`.
    pub fn get(&self, x: usize, y: usize) -> (r: Pixel)
        requires
            self.wf(),
            self.contains(x as int, y as int),
        ensures
            r == self.at(x as int, y as int),
    {
        let len = self.pixels.len();
        proof {
            lemma_index_in_bounds(self.width as int, self.height as int, x as int, y as int);
            // The flat position is below the vector's length, so it fits in usize.
            assert(cell_index(self.width as int, x as int, y as int) < len);
        }
        self.pixels[y * self.width as usize + x]
    }

    /// Overwrites cell `(x, y)` with `c`; every other cell is kept.
    pub fn set(&mut self, x: usize, y: usize, c: Pixel)
        requires
            old(self).wf(),
            old(self).contains(x as int, y as int),
        ensures
            final(self).wf(),
            final(self).width == old(self).width,
            final(self).height == old(self).height,
            final(self).pixels@ == old(self).pixels@.update(
                cell_index(old(self).width as int, x as int, y as int),
                c,
            ),
            forall|a: int, b: int|
                #![trigger final(self).at(a, b)]
                old(self).contains(a, b) ==> final(self).at(a, b) == if a == x && b == y {
                    c
                } else {
                    old(self).at(a, b)
                },
    {
        let len = self.pixels.len();
        proof {
            lemma_index_in_bounds(self.width as int, self.height as int, x as int, y as int);
            // The flat position is below the vector's length, so it fits in usize.
            assert(cell_index(self.width as int, x as int, y as int) < len);
            lemma_update_cell(self.pixels@, self.width as int, self.height as int, x as int, y as int, c);
        }
        let i = y * self.width as usize + x;
        self.pixels.set(i, c);
    }
}

/// Number of cells of a `width` by `height` grid.
pub fn cell_count(width: u16, height: u16) -> (r: usize)
    ensures
        r == width as int * height as int,
{
    proof {
        assert(width as int * height as int <= 65535 * 65535) by (nonlinear_arith)
            requires
                width <= 65535,
                height <= 65535,
        ;
    }
    width as usize * height as usize
}

/// A cell inside a `w` by `h` grid has a flat position inside the sequence.
pub proof fn lemma_index_in_bounds(w: int, h: int, x: int, y: int)
    requires
        in_grid(w, h, x, y),
    ensures
        0 <= cell_index(w, x, y) < w * h,
{
    assert(0 <= y * w) by (nonlinear_arith)
        requires
            0 <= y,
            0 <= w,
    ;
    assert(y * w + x < w * h) by (nonlinear_arith)
        requires
            0 <= x < w,
            0 <= y < h,
    ;
}

/// Distinct cells of a grid have distinct flat positions.
pub proof fn lemma_index_injective(w: int, x1: int, y1: int, x2: int, y2: int)
    requires
        0 <= x1 < w,
        0 <= x2 < w,
        0 <= y1,
        0 <= y2,
        cell_index(w, x1, y1) == cell_index(w, x2, y2),
    ensures
        x1 == x2,
        y1 == y2,
{
    if y1 < y2 {
        assert(y1 * w + w <= y2 * w) by (nonlinear_arith)
            requires
                y1 < y2,
                0 <= w,
        ;
    } else if y2 < y1 {
        assert(y2 * w + w <= y1 * w) by (nonlinear_arith)
            requires
                y2 < y1,
                0 <= w,
        ;
    }
}

/// Writing one flat position changes exactly one cell.
pub proof fn lemma_update_cell(s: Seq<Pixel>, w: int, h: int, x: int, y: int, c: Pixel)
    requires
        s.len() == w * h,
        in_grid(w, h, x, y),
    ensures
        forall|a: int, b: int|
            #![trigger pix(s.update(cell_index(w, x, y), c), w, a, b)]
            in_grid(w, h, a, b) ==> pix(s.update(cell_index(w, x, y), c), w, a, b) == if a == x
                && b == y {
                c
            } else {
                pix(s, w, a, b)
            },
{
    assert forall|a: int, b: int|
        #![trigger pix(s.update(cell_index(w, x, y), c), w, a, b)]
        in_grid(w, h, a, b) implies pix(s.update(cell_index(w, x, y), c), w, a, b) == if a == x
            && b == y {
            c
        } else {
            pix(s, w, a, b)
        } by {
        lemma_index_in_bounds(w, h, x, y);
        lemma_index_in_bounds(w, h, a, b);
        if cell_index(w, a, b) == cell_index(w, x, y) {
            lemma_index_injective(w, a, b, x, y);
        }
    }
}

/// Rows of pixels laid end to end.
pub open spec fn flatten(rows: Seq<Seq<Pixel>>) -> Seq<Pixel>
    decreases rows.len(),
{
    if rows.len() == 0 {
        Seq::empty()
    } else {
        flatten(rows.drop_last()) + rows.last()
    }
}

/// The first `rows` rows of `cols` pixels each of a row-major sequence.
pub open spec fn unflatten(s: Seq<Pixel>, rows: nat, cols: nat) -> Seq<Seq<Pixel>> {
    Seq::new(rows, |i: int| s.subrange(i * cols, (i + 1) * cols))
}

pub open spec fn rows_view(rows: Seq<Vec<Pixel>>) -> Seq<Seq<Pixel>> {
    rows.map_values(|v: Vec<Pixel>| v@)
}

/// Lays the rows of a grid end to end, top row first.
pub fn two_to_one(two_d: Vec<Vec<Pixel>>) -> (r: Vec<Pixel>)
    ensures
        r@ == flatten(rows_view(two_d@)),
{
    let mut result: Vec<Pixel> = Vec::new();
    let mut i: usize = 0;
    while i < two_d.len()
        invariant
            i <= two_d@.len(),
            result@ == flatten(rows_view(two_d@.take(i as int))),
        decreases two_d@.len() - i,
    {
        let row = &two_d[i];
        let ghost before = result@;
        let mut j: usize = 0;
        while j < row.len()
            invariant
                j <= row@.len(),
                result@ == before + row@.take(j as int),
            decreases row@.len() - j,
        {
            result.push(row[j]);
            j = j + 1;
            assert(result@ =~= before + row@.take(j as int));
        }
        assert(row@.take(j as int) =~= row@);
        assert(rows_view(two_d@.take(i + 1)).drop_last() =~= rows_view(two_d@.take(i as int)));
        i = i + 1;
    }
    assert(two_d@.take(i as int) =~= two_d@);
    result
}

/// Cuts a row-major sequence into `rows` rows of `cols` pixels each.
pub fn one_to_two(one_d: Vec<Pixel>, rows: usize, cols: usize) -> (r: Vec<Vec<Pixel>>)
    requires
        rows * cols <= one_d@.len(),
    ensures
        rows_view(r@) == unflatten(one_d@, rows as nat, cols as nat),
{
    let mut result: Vec<Vec<Pixel>> = Vec::new();
    let len = one_d.len();
    let mut i: usize = 0;
    while i < rows
        invariant
            len == one_d@.len(),
            i <= rows,
            result@.len() == i,
            rows * cols <= one_d@.len(),
            rows_view(result@) =~= unflatten(one_d@, i as nat, cols as nat),
        decreases rows - i,
    {
        let ghost ii = i as int;
        let ghost cc = cols as int;
        assert(ii * cc + cc <= rows as int * cc) by (nonlinear_arith)
            requires
                ii < rows,
                cc >= 0,
        ;
        assert(ii * cc + cc == (ii + 1) * cc) by (nonlinear_arith);
        let start: usize = i * cols;
        let mut row: Vec<Pixel> = Vec::new();
        let mut j: usize = 0;
        while j < cols
            invariant
                j <= cols,
                start == i * cols,
                start + cols <= len,
                len == one_d@.len(),
                row@ =~= one_d@.subrange(start as int, start + j),
            decreases cols - j,
        {
            row.push(one_d[start + j]);
            j = j + 1;
        }
        let ghost before = result@;
        result.push(row);
        i = i + 1;
        assert(rows_view(result@)[ii] == one_d@.subrange(ii * cc, (ii + 1) * cc));
        assert forall|k: int| 0 <= k <= ii implies rows_view(result@)[k] == unflatten(
            one_d@,
            i as nat,
            cols as nat,
        )[k] by {
            if k < ii {
                assert(result@[k] == before[k]);
                assert(rows_view(before)[k] == unflatten(one_d@, ii as nat, cols as nat)[k]);
            }
        }
        assert(rows_view(result@) =~= unflatten(one_d@, i as nat, cols as nat));
    }
    result
}

proof fn lemma_flatten_rows(rows: Seq<Seq<Pixel>>, cols: nat)
    requires
        forall|i: int| 0 <= i < rows.len() ==> (#[trigger] rows[i]).len() == cols,
    ensures
        flatten(rows).len() == rows.len() * cols,
        forall|i: int|
            0 <= i < rows.len() ==> flatten(rows).subrange(i * cols, (i + 1) * cols) == #[trigger] rows[i],
    decreases rows.len(),
{
    if rows.len() > 0 {
        let pre = rows.drop_last();
        let n = rows.len() - 1;
        lemma_flatten_rows(pre, cols);
        assert(n * cols + cols == rows.len() * cols) by (nonlinear_arith)
            requires
                n == rows.len() - 1,
        ;
        let f = flatten(rows);
        assert forall|i: int| 0 <= i < rows.len() implies f.subrange(i * cols, (i + 1) * cols)
            == #[trigger] rows[i] by {
            if i < n {
                assert((i + 1) * cols <= n * cols) by (nonlinear_arith)
                    requires
                        i < n,
                ;
                assert(0 <= i * cols) by (nonlinear_arith)
                    requires
                        0 <= i,
                ;
                assert(i * cols + cols == (i + 1) * cols) by (nonlinear_arith);
                assert(pre[i] == rows[i]);
                assert(f.subrange(i * cols, (i + 1) * cols) =~= flatten(pre).subrange(
                    i * cols,
                    (i + 1) * cols,
                ));
            } else {
                assert(f.subrange(i * cols, (i + 1) * cols) =~= rows.last());
            }
        }
    }
}

/// Cutting the flattened rows of a grid back into rows of its width gives the
/// grid again.
pub proof fn lemma_flatten_round_trip(rows: Seq<Seq<Pixel>>, cols: nat)
    requires
        forall|i: int| 0 <= i < rows.len() ==> (#[trigger] rows[i]).len() == cols,
    ensures
        unflatten(flatten(rows), rows.len(), cols) == rows,
{
    lemma_flatten_rows(rows, cols);
    assert(unflatten(flatten(rows), rows.len(), cols) =~= rows);
}

} // verus!
