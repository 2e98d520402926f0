use vstd::prelude::*;
use crate::buffer::{Image, Pixel, transparent};
use crate::fill::filled;

verus! {

/// Whether cell `(a, b)` lies in the square brush of side `size` centred on `(x, y)`.
/// The square reaches `size / 2` cells (rounded down) to each side of its centre.
pub open spec fn in_brush(x: int, y: int, size: int, a: int, b: int) -> bool {
    x - size / 2 <= a <= x + size / 2 && y - size / 2 <= b <= y + size / 2
}

/// The exact result of painting `color` with the brush of side `size` at `(x, y)`:
/// the cells of the canvas under the brush take the colour, all others keep theirs.
pub open spec fn brushed(old: &Image, new: &Image, x: int, y: int, size: int, color: Pixel) -> bool {
    &&& new.wf()
    &&& new.width == old.width
    &&& new.height == old.height
    &&& forall|a: int, b: int|
        #![trigger new.at(a, b)]
        old.contains(a, b) ==> new.at(a, b) == if in_brush(x, y, size, a, b) {
            color
        } else {
            old.at(a, b)
        }
}

impl Image {
    /// Paints the square neighbourhood of side `brush_size` centred on `(x, y)`
    /// with `color`, clipped to the canvas.
    pub fn paint(&mut self, x: usize, y: usize, brush_size: usize, color: Pixel)
        requires
            old(self).wf(),
            old(self).contains(x as int, y as int),
        ensures
            brushed(old(self), final(self), x as int, y as int, brush_size as int, color),
    {
        let w: usize = self.width as usize;
        let h: usize = self.height as usize;
        let half: usize = brush_size / 2;
        let x0: usize = if x >= half { x - half } else { 0 };
        let x1: usize = if half < w - x { x + half + 1 } else { w };
        let y0: usize = if y >= half { y - half } else { 0 };
        let y1: usize = if half < h - y { y + half + 1 } else { h };
        let mut row: usize = y0;
        while row < y1
            invariant
                self.wf(),
                self.width == old(self).width,
                self.height == old(self).height,
                w == self.width,
                h == self.height,
                x0 <= x1 <= w,
                y0 <= row <= y1 <= h,
                forall|a: int, b: int|
                    #![trigger self.at(a, b)]
                    old(self).contains(a, b) ==> self.at(a, b) == if x0 <= a < x1 && y0 <= b
                        < row {
                        color
                    } else {
                        old(self).at(a, b)
                    },
            decreases y1 - row,
        {
            let mut col: usize = x0;
            while col < x1
                invariant
                    self.wf(),
                    self.width == old(self).width,
                    self.height == old(self).height,
                        w == self.width,
                    h == self.height,
                    x0 <= col <= x1 <= w,
                    y0 <= row < y1 <= h,
                    forall|a: int, b: int|
                        #![trigger self.at(a, b)]
                        old(self).contains(a, b) ==> self.at(a, b) == if (x0 <= a < x1 && y0 <= b
                            < row) || (x0 <= a < col && b == row) {
                            color
                        } else {
                            old(self).at(a, b)
                        },
                decreases x1 - col,
            {
                self.set(col, row, color);
                col = col + 1;
            }
            row = row + 1;
        }
    }

    /// Clears the square neighbourhood of side `brush_size` centred on `(x, y)`
    /// to transparent, clipped to the canvas.
    pub fn erase(&mut self, x: usize, y: usize, brush_size: usize)
        requires
            old(self).wf(),
            old(self).contains(x as int, y as int),
        ensures
            brushed(old(self), final(self), x as int, y as int, brush_size as int, transparent()),
    {
        self.paint(x, y, brush_size, (0, 0, 0, 0));
    }
}

/// The tool that a press of the primary button applies. Exactly one is active.
#[derive(Clone, Copy, Debug, PartialEq, Eq, Structural)]
pub enum Tool {
    Paint,
    ColorPicker,
    Eraser,
    Fill,
}

/// The editing state of the tool engine: the active tool, the brush size and
/// the current colour.
pub struct ToolState {
    pub tool: Tool,
    pub brush_size: usize,
    pub color: Pixel,
}

impl ToolState {
    /// Painting with an opaque black brush of size one.
    pub fn new() -> (r: ToolState)
        ensures
            r.tool == Tool::Paint,
            r.brush_size == 1,
            r.color == (0u8, 0u8, 0u8, 255u8),
    {
        ToolState { tool: Tool::Paint, brush_size: 1, color: (0, 0, 0, 255) }
    }

    /// A tool button: activates `tool`, or goes back to painting when `tool`
    /// is already the active one.
    pub fn toggle(&mut self, tool: Tool)
        ensures
            final(self).tool == if old(self).tool == tool {
                Tool::Paint
            } else {
                tool
            },
            final(self).brush_size == old(self).brush_size,
            final(self).color == old(self).color,
    {
        if self.tool == tool {
            self.tool = Tool::Paint;
        } else {
            self.tool = tool;
        }
    }

    /// Applies the active tool at the in-bounds cell `(x, y)`: once per frame
    /// while the primary button is held. The colour picker and the fill act once
    /// and then hand back to painting.
    pub fn apply(&mut self, image: &mut Image, x: usize, y: usize)
        requires
            old(image).wf(),
            old(image).contains(x as int, y as int),
        ensures
            final(self).brush_size == old(self).brush_size,
            match old(self).tool {
                Tool::Paint => brushed(
                    old(image),
                    final(image),
                    x as int,
                    y as int,
                    old(self).brush_size as int,
                    old(self).color,
                ) && final(self).tool == Tool::Paint && final(self).color == old(self).color,
                Tool::Eraser => brushed(
                    old(image),
                    final(image),
                    x as int,
                    y as int,
                    old(self).brush_size as int,
                    transparent(),
                ) && final(self).tool == Tool::Eraser && final(self).color == old(self).color,
                Tool::ColorPicker => {
                    &&& final(image).wf()
                    &&& final(image).width == old(image).width
                    &&& final(image).height == old(image).height
                    &&& final(image).pixels@ == old(image).pixels@
                    &&& final(self).color == old(image).at(x as int, y as int)
                    &&& final(self).tool == Tool::Paint
                },
                Tool::Fill => filled(old(image), final(image), x as int, y as int, old(self).color)
                    && final(self).tool == Tool::Paint && final(self).color == old(self).color,
            },
    {
        match self.tool {
            Tool::Paint => {
                image.paint(x, y, self.brush_size, self.color);
            },
            Tool::Eraser => {
                image.erase(x, y, self.brush_size);
            },
            Tool::ColorPicker => {
                self.color = image.get(x, y);
                self.tool = Tool::Paint;
            },
            Tool::Fill => {
                image.flood_fill(x, y, self.color);
                self.tool = Tool::Paint;
            },
        }
    }
}

} // verus!
