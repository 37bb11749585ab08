use vstd::prelude::*;
use crate::buffer::{covers, Buffer, BufferView};
use crate::config::Config;
use crate::gui::{GalleryView, MAX_TILES};
use crate::library::{claim_of, Image, Library, Pool, MAX_SIDE};
use crate::util::Vec2;

verus! {

/// Most decode workers that run at once.
pub const WORKERS: u8 = 6;

/// Row, on the screen, of the top of a tile at `pos_y` when the view is
/// scrolled by `scroll`.
pub open spec fn screen_y(pos_y: u32, scroll: u32) -> int {
    pos_y - scroll
}

/// Whether a tile `height` high at row `y` of the screen shows in a viewport
/// `viewport` high.
pub open spec fn shows(y: int, height: u32, viewport: u32) -> bool {
    -(height as int) < y < viewport
}

/// Pixel `(px, py)` of the screen once the first `k` tiles are drawn over the
/// background: each loaded tile that shows is copied at its place.
pub open spec fn drawn(
    images: Seq<Image>,
    positions: Seq<Vec2>,
    scroll: u32,
    viewport: Vec2,
    background: u32,
    k: int,
    px: int,
    py: int,
) -> u32
    decreases k,
{
    if k <= 0 {
        background
    } else {
        let i = k - 1;
        let img = images[i];
        let y = screen_y(positions[i].y, scroll);
        if shows(y, img.size.y, viewport.y) && img.slot is Loaded && covers(
            img.slot->Loaded_0,
            positions[i].x as int,
            y,
            px,
            py,
        ) {
            img.slot->Loaded_0.pixel(px - positions[i].x, py - y)
        } else {
            drawn(images, positions, scroll, viewport, background, i, px, py)
        }
    }
}

/// Everything the gallery shows, owned by the thread that draws.
pub struct State {
    pub dirty: bool,
    pub config: Config,
    pub library: Library,
    pub buffer: Buffer,
    pub view: GalleryView,
    pub thread_pool: Pool,
}

impl State {
    pub open spec fn well_formed(&self) -> bool {
        &&& self.buffer.well_formed()
        &&& self.view.positions@.len() == self.library.images@.len()
        &&& forall|i: int| 0 <= i < self.library.images@.len() ==> (#[trigger] self.library.images@[i]).well_formed()
    }

    pub fn new() -> (r: State)
        ensures
            r.well_formed(),
            !r.dirty,
            r.config.settings() == crate::config::default_settings(),
            r.buffer.size == Vec2::spec_zero(),
            r.library.images@.len() == 0,
            r.view.scroll == 0,
            r.view.height == 0,
            r.thread_pool.size == 0,
            r.thread_pool.max_size == WORKERS,
    {
        State {
            dirty: false,
            config: Config::default(),
            library: Library::new(),
            buffer: Buffer::new(Vec2::zero()),
            view: GalleryView::gallery(),
            thread_pool: Pool::new(WORKERS),
        }
    }

    /// Marks the screen for redrawing.
    pub fn update(&mut self)
        ensures
            final(self).dirty,
            final(self).config == old(self).config,
            final(self).library == old(self).library,
            final(self).buffer == old(self).buffer,
            final(self).view == old(self).view,
            final(self).thread_pool == old(self).thread_pool,
    {
        self.dirty = true;
    }

    /// Lays the library out again for the width of the screen.
    pub fn resize(&mut self)
        requires
            old(self).well_formed(),
            old(self).library.images@.len() <= MAX_TILES,
            forall|i: int|
                0 <= i < old(self).library.images@.len() ==> (#[trigger] old(self).library.images@[i]).size.x
                    <= MAX_SIDE && old(self).library.images@[i].size.y <= MAX_SIDE,
        ensures
            final(self).well_formed(),
            final(self).library == old(self).library,
            final(self).buffer == old(self).buffer,
            final(self).view.scroll == old(self).view.scroll,
            forall|i: int|
                0 <= i < final(self).library.images@.len() ==> (#[trigger] final(self).view.positions@[i]).x
                    == crate::gui::tile_pos(
                    old(self).library.images@.map_values(|img: Image| img.size),
                    old(self).buffer.size.x as int,
                    i,
                ).0 && final(self).view.positions@[i].y == crate::gui::tile_pos(
                    old(self).library.images@.map_values(|img: Image| img.size),
                    old(self).buffer.size.x as int,
                    i,
                ).1,
            final(self).view.height == crate::gui::content_height(
                old(self).library.images@.map_values(|img: Image| img.size),
                old(self).buffer.size.x as int,
            ),
    {
        let mut sizes: Vec<Vec2> = Vec::new();
        let mut i: usize = 0;
        while i < self.library.images.len()
            invariant
                i <= self.library.images@.len(),
                sizes@ == self.library.images@.take(i as int).map_values(|img: Image| img.size),
            decreases self.library.images@.len() - i,
        {
            sizes.push(self.library.images[i].size);
            assert(self.library.images@.take(i + 1).map_values(|img: Image| img.size) =~= sizes@);
            i = i + 1;
        }
        assert(self.library.images@.take(i as int) =~= self.library.images@);
        let width = self.buffer.size.x;
        self.view.resize(width, &sizes);
    }

    /// Draws a frame: clears the screen to the background colour and copies each
    /// loaded tile that shows at its place. Each tile that shows is asked for
    /// its surface; the result lists, in order, those whose decode must now be
    /// scheduled.
    pub fn draw(&mut self) -> (scheduled: Vec<usize>)
        requires
            old(self).well_formed(),
            forall|i: int| 0 <= i < old(self).view.positions@.len() ==> (#[trigger] old(self).view.positions@[i]).y <= i32::MAX,
            forall|i: int| 0 <= i < old(self).library.images@.len() ==> (#[trigger] old(self).library.images@[i]).size.y <= MAX_SIDE,
        ensures
            final(self).well_formed(),
            final(self).buffer.size == old(self).buffer.size,
            final(self).view == old(self).view,
            final(self).library.images@.len() == old(self).library.images@.len(),
            forall|i: int|
                0 <= i < old(self).library.images@.len() ==> claim_of(
                    old(self).library.images@[i],
                    #[trigger] final(self).library.images@[i],
                    shows(
                        screen_y(old(self).view.positions@[i].y, old(self).view.scroll),
                        old(self).library.images@[i].size.y,
                        old(self).buffer.size.y,
                    ) && old(self).library.images@[i].slot is Unloaded,
                ) || (!shows(
                    screen_y(old(self).view.positions@[i].y, old(self).view.scroll),
                    old(self).library.images@[i].size.y,
                    old(self).buffer.size.y,
                ) && final(self).library.images@[i] == old(self).library.images@[i]),
            forall|k: int|
                0 <= k < scheduled@.len() ==> (#[trigger] scheduled@[k]) < old(self).library.images@.len()
                    && old(self).library.images@[scheduled@[k] as int].slot is Unloaded && shows(
                    screen_y(old(self).view.positions@[scheduled@[k] as int].y, old(self).view.scroll),
                    old(self).library.images@[scheduled@[k] as int].size.y,
                    old(self).buffer.size.y,
                ),
            forall|k: int, m: int| 0 <= k < m < scheduled@.len() ==> scheduled@[k] < scheduled@[m],
            forall|i: int|
                0 <= i < old(self).library.images@.len() && old(self).library.images@[i].slot is Unloaded
                    && shows(
                    screen_y(old(self).view.positions@[i].y, old(self).view.scroll),
                    old(self).library.images@[i].size.y,
                    old(self).buffer.size.y,
                ) ==> scheduled@.contains(i as usize),
            forall|px: int, py: int|
                0 <= px < final(self).buffer.size.x && 0 <= py < final(self).buffer.size.y ==> #[trigger] final(self).buffer.pixel(px, py)
                    == drawn(
                    old(self).library.images@,
                    old(self).view.positions@,
                    old(self).view.scroll,
                    old(self).buffer.size,
                    old(self).config.background_color,
                    old(self).library.images@.len() as int,
                    px,
                    py,
                ),
    {
        self.buffer.clear(self.config.background_color);
        assert forall|px: int, py: int| 0 <= px < self.buffer.size.x && 0 <= py < self.buffer.size.y implies #[trigger] self.buffer.pixel(px, py)
            == old(self).config.background_color by {
            crate::buffer::lemma_idx_bounds(self.buffer.size.x as int, self.buffer.size.y as int, px, py);
        }
        let mut scheduled: Vec<usize> = Vec::new();
        let n = self.library.images.len();
        let mut i: usize = 0;
        while i < n
            invariant
                n == self.library.images@.len(),
                n == old(self).library.images@.len(),
                i <= n,
                self.buffer.well_formed(),
                self.buffer.size == old(self).buffer.size,
                self.view == old(self).view,
                self.config == old(self).config,
                self.view.positions@.len() == n,
                forall|k: int| 0 <= k < n ==> (#[trigger] self.view.positions@[k]).y <= i32::MAX,
                forall|k: int| 0 <= k < n ==> (#[trigger] old(self).library.images@[k]).size.y <= MAX_SIDE,
                forall|k: int| 0 <= k < n ==> (#[trigger] self.library.images@[k]).well_formed(),
                forall|k: int| i <= k < n ==> #[trigger] self.library.images@[k] == old(self).library.images@[k],
                forall|k: int|
                    0 <= k < i ==> claim_of(
                        old(self).library.images@[k],
                        #[trigger] self.library.images@[k],
                        shows(
                            screen_y(old(self).view.positions@[k].y, old(self).view.scroll),
                            old(self).library.images@[k].size.y,
                            old(self).buffer.size.y,
                        ) && old(self).library.images@[k].slot is Unloaded,
                    ) || (!shows(
                        screen_y(old(self).view.positions@[k].y, old(self).view.scroll),
                        old(self).library.images@[k].size.y,
                        old(self).buffer.size.y,
                    ) && self.library.images@[k] == old(self).library.images@[k]),
                forall|k: int|
                    0 <= k < scheduled@.len() ==> (#[trigger] scheduled@[k]) < i
                        && old(self).library.images@[scheduled@[k] as int].slot is Unloaded && shows(
                        screen_y(old(self).view.positions@[scheduled@[k] as int].y, old(self).view.scroll),
                        old(self).library.images@[scheduled@[k] as int].size.y,
                        old(self).buffer.size.y,
                    ),
                forall|k: int, m: int| 0 <= k < m < scheduled@.len() ==> scheduled@[k] < scheduled@[m],
                forall|k: int|
                    0 <= k < i && old(self).library.images@[k].slot is Unloaded && shows(
                        screen_y(old(self).view.positions@[k].y, old(self).view.scroll),
                        old(self).library.images@[k].size.y,
                        old(self).buffer.size.y,
                    ) ==> scheduled@.contains(k as usize),
                forall|px: int, py: int|
                    0 <= px < self.buffer.size.x && 0 <= py < self.buffer.size.y ==> #[trigger] self.buffer.pixel(px, py)
                        == drawn(
                        old(self).library.images@,
                        old(self).view.positions@,
                        old(self).view.scroll,
                        old(self).buffer.size,
                        old(self).config.background_color,
                        i as int,
                        px,
                        py,
                    ),
            decreases n - i,
        {
            let pos = self.view.positions[i];
            let height = self.library.images[i].size.y;
            let y: i64 = pos.y as i64 - self.view.scroll as i64;
            let ghost before = self.buffer;
            if y > -(height as i64) && y < self.buffer.size.y as i64 {
                let ghost old_sched = scheduled@;
                if self.library.claim(i) {
                    scheduled.push(i);
                    assert forall|k: int| 0 <= k < i && old(self).library.images@[k].slot is Unloaded && shows(
                        screen_y(old(self).view.positions@[k].y, old(self).view.scroll),
                        old(self).library.images@[k].size.y,
                        old(self).buffer.size.y,
                    ) implies scheduled@.contains(k as usize) by {
                        assert(old_sched.contains(k as usize));
                        let j = choose|j: int| 0 <= j < old_sched.len() && old_sched[j] == k as usize;
                        assert(scheduled@[j] == k as usize);
                    }
                    assert(scheduled@[scheduled@.len() - 1] == i);
                }
                assert(self.library.images@[i as int].well_formed());
                match self.library.images[i].buffer() {
                    Some(b) => {
                        self.buffer.copy_from(b, pos.x, y as i32);
                    },
                    None => {},
                }
            }
            proof {
                let imgs = old(self).library.images@;
                let ps = old(self).view.positions@;
                let sc = old(self).view.scroll;
                let bg = old(self).config.background_color;
                let vp = old(self).buffer.size;
                assert(self.library.images@[i as int].slot is Loaded ==> self.library.images@[i as int]
                    == imgs[i as int]);
                assert forall|px: int, py: int| 0 <= px < self.buffer.size.x && 0 <= py < self.buffer.size.y implies #[trigger] self.buffer.pixel(px, py)
                    == drawn(imgs, ps, sc, vp, bg, i + 1, px, py) by {
                    assert(before.pixel(px, py) == drawn(imgs, ps, sc, vp, bg, i as int, px, py));
                }
            }
            i = i + 1;
        }
        scheduled
    }
}

} // verus!
