use vstd::prelude::*;
use crate::library::MAX_SIDE;
use crate::util::Vec2;

verus! {

/// Gap, in pixels, around and between gallery tiles.
pub const GAP: u32 = 20;

/// Most images a gallery lays out: enough that every position fits a `u32`.
pub const MAX_TILES: usize = 1_000_000;

/// Where the next tile goes: its left edge, the top of the current row and the
/// height of that row so far.
pub struct Cursor {
    pub left: int,
    pub top: int,
    pub row: int,
}

pub open spec fn start_cursor() -> Cursor {
    Cursor { left: GAP as int, top: GAP as int, row: 0 }
}

/// Whether a tile of `size` starts a new row in a viewport `width` wide.
pub open spec fn wraps(c: Cursor, size: Vec2, width: int) -> bool {
    c.left + size.x > width - GAP
}

/// Top-left corner of a tile of `size` placed at `c`.
pub open spec fn place(c: Cursor, size: Vec2, width: int) -> (int, int) {
    if wraps(c, size, width) {
        (GAP as int, c.top + c.row + GAP)
    } else {
        (c.left, c.top)
    }
}

pub open spec fn advance(c: Cursor, size: Vec2, width: int) -> Cursor {
    let (l, t) = place(c, size, width);
    let row = if wraps(c, size, width) {
        0
    } else {
        c.row
    };
    Cursor { left: l + size.x + GAP, top: t, row: if size.y > row { size.y as int } else { row } }
}

/// The cursor after laying out tiles of `sizes`, left to right in rows.
pub open spec fn cursor_after(sizes: Seq<Vec2>, width: int) -> Cursor
    decreases sizes.len(),
{
    if sizes.len() == 0 {
        start_cursor()
    } else {
        advance(cursor_after(sizes.drop_last(), width), sizes.last(), width)
    }
}

/// Top-left corner of tile `i`.
pub open spec fn tile_pos(sizes: Seq<Vec2>, width: int, i: int) -> (int, int) {
    place(cursor_after(sizes.take(i), width), sizes[i], width)
}

/// Height of the laid-out gallery, gaps included.
pub open spec fn content_height(sizes: Seq<Vec2>, width: int) -> int {
    cursor_after(sizes, width).top + cursor_after(sizes, width).row + GAP
}

/// The gallery view: tile positions, the height of its content and how far it
/// is scrolled.
pub struct GalleryView {
    pub positions: Vec<Vec2>,
    pub height: u32,
    pub scroll: u32,
}

/// A key that moves the view.
pub enum ScrollKey {
    Up,
    Down,
    Home,
    End,
    PageUp,
    PageDown,
}

/// Largest scroll offset of content `height` high in a viewport `viewport` high.
pub open spec fn max_scroll(height: int, viewport: int) -> int {
    if height > viewport {
        height - viewport
    } else {
        0
    }
}

pub open spec fn min(a: int, b: int) -> int {
    if a < b {
        a
    } else {
        b
    }
}

/// The scroll offset after `key`: a line is 100 pixels, a page the viewport.
pub open spec fn scrolled(key: ScrollKey, scroll: int, height: int, viewport: int) -> int {
    match key {
        ScrollKey::Up => if scroll > 100 { scroll - 100 } else { 0 },
        ScrollKey::Down => min(scroll + 100, max_scroll(height, viewport)),
        ScrollKey::Home => 0,
        ScrollKey::End => max_scroll(height, viewport),
        ScrollKey::PageUp => if scroll > viewport { scroll - viewport } else { 0 },
        ScrollKey::PageDown => min(scroll + viewport, max_scroll(height, viewport)),
    }
}

impl GalleryView {
    /// An empty gallery view, at the top.
    pub fn gallery() -> (r: GalleryView)
        ensures
            r.positions@.len() == 0,
            r.height == 0,
            r.scroll == 0,
    {
        GalleryView { positions: Vec::new(), height: 0, scroll: 0 }
    }

    /// Lays out tiles of `sizes` left to right in rows in a viewport `width`
    /// wide; a tile that would cross the right margin starts a new row.
    pub fn resize(&mut self, width: u32, sizes: &Vec<Vec2>)
        requires
            sizes@.len() <= MAX_TILES,
            forall|i: int| 0 <= i < sizes@.len() ==> (#[trigger] sizes@[i]).x <= MAX_SIDE && sizes@[i].y <= MAX_SIDE,
        ensures
            final(self).scroll == old(self).scroll,
            final(self).positions@.len() == sizes@.len(),
            forall|i: int|
                0 <= i < sizes@.len() ==> (#[trigger] final(self).positions@[i]).x == tile_pos(sizes@, width as int, i).0
                    && final(self).positions@[i].y == tile_pos(sizes@, width as int, i).1,
            final(self).height == content_height(sizes@, width as int),
    {
        let ghost w = width as int;
        let mut left: u64 = GAP as u64;
        let mut top: u64 = GAP as u64;
        let mut row: u64 = 0;
        let mut positions: Vec<Vec2> = Vec::new();
        let mut i: usize = 0;
        while i < sizes.len()
            invariant
                i <= sizes@.len(),
                w == width,
                sizes@.len() <= MAX_TILES,
                forall|k: int| 0 <= k < sizes@.len() ==> (#[trigger] sizes@[k]).x <= MAX_SIDE && sizes@[k].y <= MAX_SIDE,
                cursor_after(sizes@.take(i as int), w) == (Cursor { left: left as int, top: top as int, row: row as int }),
                top <= GAP + i * (MAX_SIDE + GAP),
                row <= MAX_SIDE,
                left <= GAP + i * (MAX_SIDE + GAP),
                positions@.len() == i,
                forall|k: int|
                    0 <= k < i ==> (#[trigger] positions@[k]).x == tile_pos(sizes@, w, k).0
                        && positions@[k].y == tile_pos(sizes@, w, k).1,
            decreases sizes@.len() - i,
        {
            let s = sizes[i];
            assert(i * (MAX_SIDE + GAP) <= 520_000_000) by (nonlinear_arith)
                requires
                    i <= 1_000_000,
                    MAX_SIDE + GAP == 520,
            ;
            assert((i + 1) * (MAX_SIDE + GAP) == i * (MAX_SIDE + GAP) + 520) by (nonlinear_arith)
                requires
                    MAX_SIDE + GAP == 520,
            ;
            assert(sizes@.take(i + 1).drop_last() =~= sizes@.take(i as int));
            assert(sizes@.take(i + 1).last() == s);
            let ghost c0 = cursor_after(sizes@.take(i as int), w);
            assert(cursor_after(sizes@.take(i + 1), w) == advance(c0, s, w));
            assert(tile_pos(sizes@, w, i as int) == place(c0, s, w));
            if left + s.x as u64 + GAP as u64 > width as u64 {
                left = GAP as u64;
                top = top + row + GAP as u64;
                row = 0;
            }
            assert(place(c0, s, w) == (left as int, top as int));
            positions.push(Vec2 { x: left as u32, y: top as u32 });
            left = left + s.x as u64 + GAP as u64;
            if s.y as u64 > row {
                row = s.y as u64;
            }
            assert(advance(c0, s, w) == (Cursor { left: left as int, top: top as int, row: row as int }));
            i = i + 1;
        }
        assert(sizes@.take(i as int) =~= sizes@);
        self.positions = positions;
        self.height = (top + row + GAP as u64) as u32;
    }

    /// Applies a scrolling key for content in a viewport `viewport` high.
    pub fn scroll_by(&mut self, key: ScrollKey, viewport: u32)
        ensures
            final(self).scroll == scrolled(key, old(self).scroll as int, old(self).height as int, viewport as int),
            final(self).height == old(self).height,
            final(self).positions@ == old(self).positions@,
    {
        let max: u32 = if self.height > viewport {
            self.height - viewport
        } else {
            0
        };
        self.scroll = match key {
            ScrollKey::Up => if self.scroll > 100 { self.scroll - 100 } else { 0 },
            ScrollKey::Down => {
                if self.scroll as u64 + 100 < max as u64 { self.scroll + 100 } else { max }
            },
            ScrollKey::Home => 0,
            ScrollKey::End => max,
            ScrollKey::PageUp => if self.scroll > viewport { self.scroll - viewport } else { 0 },
            ScrollKey::PageDown => {
                if (self.scroll as u64) + (viewport as u64) < max as u64 {
                    self.scroll + viewport
                } else {
                    max
                }
            },
        };
    }
}

} // verus!
