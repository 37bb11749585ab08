use vstd::prelude::*;
use crate::util::Vec2;

verus! {

/// Row-major position of pixel `(x, y)` in a surface `w` pixels wide.
pub open spec fn idx(w: int, x: int, y: int) -> int {
    y * w + x
}

pub proof fn lemma_idx_div_mod(w: int, x: int, y: int)
    requires
        0 <= x < w,
        0 <= y,
    ensures
        idx(w, x, y) % w == x,
        idx(w, x, y) / w == y,
{
    vstd::arithmetic::div_mod::lemma_fundamental_div_mod_converse(idx(w, x, y), w, y, x);
}

pub proof fn lemma_idx_bounds(w: int, h: int, x: int, y: int)
    requires
        0 <= x < w,
        0 <= y < h,
    ensures
        0 <= idx(w, x, y) < w * h,
        idx(w, x, y) + 1 <= w * h,
{
    assert(y * w + x < w * h) by (nonlinear_arith)
        requires
            0 <= x < w,
            0 <= y < h,
    ;
    assert(0 <= y * w) by (nonlinear_arith)
        requires
            0 <= y,
            0 <= w,
    ;
}

/// Read-only access to a raster surface of packed `0xAARRGGBB` pixels.
pub trait BufferView {
    /// Width and height of the surface.
    spec fn dims(&self) -> Vec2;

    /// Colour of the pixel at `(x, y)`, for a position inside `dims`.
    spec fn pixel(&self, x: int, y: int) -> u32;

    /// Whether the surface can be read at every position inside `dims`.
    spec fn well_formed(&self) -> bool;

    fn size(&self) -> (r: Vec2)
        ensures
            r == self.dims(),
    ;

    fn get(&self, pos: Vec2) -> (r: u32)
        requires
            self.well_formed(),
            pos.x < self.dims().x,
            pos.y < self.dims().y,
        ensures
            r == self.pixel(pos.x as int, pos.y as int),
    ;

}

/// Two surfaces of one size that agree on every pixel hold the same data.
pub proof fn lemma_same_pixels(a: Buffer, b: Buffer)
    requires
        a.well_formed(),
        b.well_formed(),
        a.size == b.size,
        forall|x: int, y: int|
            0 <= x < a.size.x && 0 <= y < a.size.y ==> #[trigger] a.pixel(x, y) == b.pixel(x, y),
    ensures
        a.data@ == b.data@,
{
    let w = a.size.x as int;
    let h = a.size.y as int;
    assert forall|k: int| 0 <= k < a.data@.len() implies a.data@[k] == b.data@[k] by {
        vstd::arithmetic::div_mod::lemma_fundamental_div_mod(k, w);
        let x = k % w;
        let y = k / w;
        assert(0 <= y < h) by (nonlinear_arith)
            requires
                0 <= k < w * h,
                k == w * y + x,
                0 <= x < w,
        ;
        assert(idx(w, x, y) == k) by (nonlinear_arith)
            requires
                k == w * y + x,
        ;
        assert(a.pixel(x, y) == b.pixel(x, y));
    }
    assert(a.data@ =~= b.data@);
}

/// Mirroring left to right twice gives back the surface it started from.
pub proof fn lemma_flip_g_involution(b: Buffer, once: Buffer, twice: Buffer)
    requires
        b.well_formed(),
        mirror_g_of(b, once),
        mirror_g_of(once, twice),
    ensures
        twice.size == b.size,
        twice.data@ == b.data@,
{
    assert forall|x: int, y: int|
        0 <= x < b.size.x && 0 <= y < b.size.y implies #[trigger] twice.pixel(x, y) == b.pixel(x, y) by {
        assert(twice.pixel(x, y) == once.pixel(b.size.x - 1 - x, y));
    }
    lemma_same_pixels(twice, b);
}

/// Mirroring top to bottom twice gives back the surface it started from.
pub proof fn lemma_flip_v_involution(b: Buffer, once: Buffer, twice: Buffer)
    requires
        b.well_formed(),
        mirror_v_of(b, once),
        mirror_v_of(once, twice),
    ensures
        twice.size == b.size,
        twice.data@ == b.data@,
{
    assert forall|x: int, y: int|
        0 <= x < b.size.x && 0 <= y < b.size.y implies #[trigger] twice.pixel(x, y) == b.pixel(x, y) by {
        assert(twice.pixel(x, y) == once.pixel(x, b.size.y - 1 - y));
    }
    lemma_same_pixels(twice, b);
}

/// Two quarter turns give the surface turned upside down, at its own size: pixel
/// `(x, y)` comes from `(width - 1 - x, height - 1 - y)`.
pub proof fn lemma_rotate_twice<V: BufferView>(v: V, r1: Buffer, r2: Buffer)
    requires
        rotation_of(v, r1),
        rotation_of(r1, r2),
    ensures
        r2.size == v.dims(),
        forall|x: int, y: int|
            0 <= x < v.dims().x && 0 <= y < v.dims().y ==> #[trigger] r2.pixel(x, y) == v.pixel(
                v.dims().x - 1 - x,
                v.dims().y - 1 - y,
            ),
{
    assert forall|x: int, y: int| 0 <= x < v.dims().x && 0 <= y < v.dims().y implies #[trigger] r2.pixel(
        x,
        y,
    ) == v.pixel(v.dims().x - 1 - x, v.dims().y - 1 - y) by {
        assert(r2.pixel(x, y) == r1.pixel(y, v.dims().x - 1 - x));
    }
}

/// Four quarter turns give back every pixel of the surface, at its own size.
pub proof fn lemma_rotate_four_times_pixels<V: BufferView>(
    v: V,
    r1: Buffer,
    r2: Buffer,
    r3: Buffer,
    r4: Buffer,
)
    requires
        rotation_of(v, r1),
        rotation_of(r1, r2),
        rotation_of(r2, r3),
        rotation_of(r3, r4),
    ensures
        r4.size == v.dims(),
        forall|x: int, y: int|
            0 <= x < v.dims().x && 0 <= y < v.dims().y ==> #[trigger] r4.pixel(x, y) == v.pixel(x, y),
{
    lemma_rotate_twice(v, r1, r2);
    lemma_rotate_twice(r2, r3, r4);
    assert forall|x: int, y: int|
        0 <= x < v.dims().x && 0 <= y < v.dims().y implies #[trigger] r4.pixel(x, y) == v.pixel(x, y) by {
        assert(r4.pixel(x, y) == r2.pixel(v.dims().x - 1 - x, v.dims().y - 1 - y));
    }
}

/// Four quarter turns of an owned surface give back the same data.
pub proof fn lemma_rotate_four_times(b: Buffer, r1: Buffer, r2: Buffer, r3: Buffer, r4: Buffer)
    requires
        b.well_formed(),
        rotation_of(b, r1),
        rotation_of(r1, r2),
        rotation_of(r2, r3),
        rotation_of(r3, r4),
    ensures
        r4.size == b.size,
        r4.data@ == b.data@,
{
    lemma_rotate_four_times_pixels(b, r1, r2, r3, r4);
    lemma_same_pixels(r4, b);
}

/// `(c * alpha + o * (255 - alpha)) / 255`: one channel of `c` laid over `o`.
pub open spec fn mix_spec(c: int, o: int, alpha: int) -> int {
    (c * alpha + o * (255 - alpha)) / 255
}

/// `color` laid over `original` with opacity `alpha / 255`, fully opaque.
pub open spec fn over(original: u32, color: u32, alpha: int) -> int {
    0xFF00_0000 + mix_spec(color as int / 0x1_0000 % 256, original as int / 0x1_0000 % 256, alpha)
        * 0x1_0000 + mix_spec(color as int / 0x100 % 256, original as int / 0x100 % 256, alpha)
        * 0x100 + mix_spec(color as int % 256, original as int % 256, alpha)
}

fn mix(c: u32, o: u32, alpha: u32) -> (r: u32)
    requires
        c <= 255,
        o <= 255,
        alpha <= 255,
    ensures
        r == mix_spec(c as int, o as int, alpha as int),
        r <= 255,
{
    assert(c * alpha + o * (255 - alpha) <= 255 * 255) by (nonlinear_arith)
        requires
            c <= 255,
            o <= 255,
            alpha <= 255,
    ;
    assert((c * alpha + o * (255 - alpha)) / 255 <= 255) by (nonlinear_arith)
        requires
            c * alpha + o * (255 - alpha) <= 255 * 255,
            0 <= c * alpha + o * (255 - alpha),
    ;
    (c * alpha + o * (255 - alpha)) / 255
}

/// Whether `copy_from` of `other` at `(x, y)` writes the pixel `(px, py)`.
pub open spec fn covers<V: BufferView>(other: V, x: int, y: int, px: int, py: int) -> bool {
    &&& py > 0
    &&& 0 <= px - x < other.dims().x
    &&& 0 <= py - y < other.dims().y
}

/// The pixel `(px, py)` after `copy_from` of `other` at `(x, y)` onto `dst`.
pub open spec fn composited<V: BufferView>(dst: Buffer, other: V, x: int, y: int, px: int, py: int) -> u32 {
    if covers(other, x, y, px, py) {
        other.pixel(px - x, py - y)
    } else {
        dst.pixel(px, py)
    }
}

/// Whether `copy_from` has written `(px, py)` once it has done the rows before
/// `j` and the first `i` pixels of row `j` of `other`.
pub open spec fn copied<V: BufferView>(other: V, x: int, y: int, px: int, py: int, j: int, i: int) -> bool {
    &&& covers(other, x, y, px, py)
    &&& (py - y < j || (py - y == j && px - x < i))
}

/// An owned surface: `size.x * size.y` pixels in row-major order.
pub struct Buffer {
    pub size: Vec2,
    pub data: Vec<u32>,
}

/// `r` is a surface of the same size as `v` with the same pixels.
pub open spec fn copy_of<V: BufferView>(v: V, r: Buffer) -> bool {
    &&& r.well_formed()
    &&& r.size == v.dims()
    &&& forall|x: int, y: int|
        0 <= x < r.size.x && 0 <= y < r.size.y ==> #[trigger] r.pixel(x, y) == v.pixel(x, y)
}

/// `r` is `v` turned by a quarter turn: `v`'s pixel `(x, y)` is `r`'s pixel
/// `(v.height - 1 - y, x)`, and `r` is `v.height` wide and `v.width` high.
pub open spec fn rotation_of<V: BufferView>(v: V, r: Buffer) -> bool {
    &&& r.well_formed()
    &&& r.size.x == v.dims().y
    &&& r.size.y == v.dims().x
    &&& forall|x: int, y: int|
        0 <= x < r.size.x && 0 <= y < r.size.y ==> #[trigger] r.pixel(x, y) == v.pixel(
            y,
            v.dims().y - 1 - x,
        )
}

/// `r` is `v` mirrored left to right.
pub open spec fn mirror_g_of<V: BufferView>(v: V, r: Buffer) -> bool {
    &&& r.well_formed()
    &&& r.size == v.dims()
    &&& forall|x: int, y: int|
        0 <= x < r.size.x && 0 <= y < r.size.y ==> #[trigger] r.pixel(x, y) == v.pixel(
            v.dims().x - 1 - x,
            y,
        )
}

/// `r` is `v` mirrored top to bottom.
pub open spec fn mirror_v_of<V: BufferView>(v: V, r: Buffer) -> bool {
    &&& r.well_formed()
    &&& r.size == v.dims()
    &&& forall|x: int, y: int|
        0 <= x < r.size.x && 0 <= y < r.size.y ==> #[trigger] r.pixel(x, y) == v.pixel(
            x,
            v.dims().y - 1 - y,
        )
}

/// A copy of the whole surface, of the same size.
pub fn clone<V: BufferView>(v: &V) -> (r: Buffer)
    requires
        v.well_formed(),
        v.dims().x * v.dims().y <= usize::MAX,
    ensures
        copy_of(*v, r),
{
    let s = v.size();
    let w: u32 = s.x;
    let h: u32 = s.y;
    let mut data: Vec<u32> = Vec::new();
    let mut y: u32 = 0;
    while y < h
        invariant
            s == v.dims(),
            v.well_formed(),
            w == s.x,
            h == s.y,
            y <= h,
            data@.len() == y * w,
            forall|k: int|
                0 <= k < data@.len() ==> #[trigger] data@[k] == v.pixel(
                    (k % (w as int)),
                    (k / (w as int)),
                ),
        decreases h - y,
    {
        let mut x: u32 = 0;
        while x < w
            invariant
                s == v.dims(),
                v.well_formed(),
                w == s.x,
                h == s.y,
                y < h,
                x <= w,
                data@.len() == y * w + x,
                forall|k: int|
                    0 <= k < data@.len() ==> #[trigger] data@[k] == v.pixel(
                        (k % (w as int)),
                        (k / (w as int)),
                    ),
            decreases w - x,
        {
            proof {
                lemma_idx_div_mod(w as int, x as int, y as int);
            }
            let c = v.get(Vec2::from(x, y));
            data.push(c);
            x = x + 1;
        }
        assert(data@.len() == (y + 1) * w) by (nonlinear_arith)
            requires
                data@.len() == y * w + w,
        ;
        y = y + 1;
    }
    let r = Buffer { size: Vec2::from(w, h), data };
    assert(r.data@.len() == w * h) by (nonlinear_arith)
        requires
            r.data@.len() == h * w,
    ;
    assert forall|x: int, y: int| 0 <= x < r.size.x && 0 <= y < r.size.y implies #[trigger] r.pixel(
        x,
        y,
    ) == v.pixel(x, y) by {
        lemma_idx_bounds(w as int, h as int, x, y);
        lemma_idx_div_mod(w as int, x, y);
        assert(r.data@[idx(w as int, x, y)] == data@[idx(w as int, x, y)]);
    }
    r
}

/// The surface turned by a quarter turn: input `(x, y)` lands on
/// `(height - 1 - y, x)` of a surface `height` wide and `width` high.
pub fn rotate<V: BufferView>(v: &V) -> (r: Buffer)
    requires
        v.well_formed(),
        v.dims().x * v.dims().y <= usize::MAX,
    ensures
        rotation_of(*v, r),
{
    let s = v.size();
    let w: u32 = s.y;
    let h: u32 = s.x;
    let mut data: Vec<u32> = Vec::new();
    let mut y: u32 = 0;
    while y < h
        invariant
            s == v.dims(),
            v.well_formed(),
            w == s.y,
            h == s.x,
            y <= h,
            data@.len() == y * w,
            forall|k: int|
                0 <= k < data@.len() ==> #[trigger] data@[k] == v.pixel(
                    (k / (w as int)),
                    s.y as int - 1 - (k % (w as int)),
                ),
        decreases h - y,
    {
        let mut x: u32 = 0;
        while x < w
            invariant
                s == v.dims(),
                v.well_formed(),
                w == s.y,
                h == s.x,
                y < h,
                x <= w,
                data@.len() == y * w + x,
                forall|k: int|
                    0 <= k < data@.len() ==> #[trigger] data@[k] == v.pixel(
                        (k / (w as int)),
                        s.y as int - 1 - (k % (w as int)),
                    ),
            decreases w - x,
        {
            proof {
                lemma_idx_div_mod(w as int, x as int, y as int);
            }
            let c = v.get(Vec2::from(y, s.y - 1 - x));
            data.push(c);
            x = x + 1;
        }
        assert(data@.len() == (y + 1) * w) by (nonlinear_arith)
            requires
                data@.len() == y * w + w,
        ;
        y = y + 1;
    }
    let r = Buffer { size: Vec2::from(w, h), data };
    assert(r.data@.len() == w * h) by (nonlinear_arith)
        requires
            r.data@.len() == h * w,
    ;
    assert forall|x: int, y: int| 0 <= x < r.size.x && 0 <= y < r.size.y implies #[trigger] r.pixel(
        x,
        y,
    ) == v.pixel(y, s.y as int - 1 - x) by {
        lemma_idx_bounds(w as int, h as int, x, y);
        lemma_idx_div_mod(w as int, x, y);
        assert(r.data@[idx(w as int, x, y)] == data@[idx(w as int, x, y)]);
    }
    r
}

/// The surface mirrored left to right.
pub fn flip_g<V: BufferView>(v: &V) -> (r: Buffer)
    requires
        v.well_formed(),
        v.dims().x * v.dims().y <= usize::MAX,
    ensures
        mirror_g_of(*v, r),
{
    let s = v.size();
    let w: u32 = s.x;
    let h: u32 = s.y;
    let mut data: Vec<u32> = Vec::new();
    let mut y: u32 = 0;
    while y < h
        invariant
            s == v.dims(),
            v.well_formed(),
            w == s.x,
            h == s.y,
            y <= h,
            data@.len() == y * w,
            forall|k: int|
                0 <= k < data@.len() ==> #[trigger] data@[k] == v.pixel(
                    s.x as int - 1 - (k % (w as int)),
                    (k / (w as int)),
                ),
        decreases h - y,
    {
        let mut x: u32 = 0;
        while x < w
            invariant
                s == v.dims(),
                v.well_formed(),
                w == s.x,
                h == s.y,
                y < h,
                x <= w,
                data@.len() == y * w + x,
                forall|k: int|
                    0 <= k < data@.len() ==> #[trigger] data@[k] == v.pixel(
                        s.x as int - 1 - (k % (w as int)),
                        (k / (w as int)),
                    ),
            decreases w - x,
        {
            proof {
                lemma_idx_div_mod(w as int, x as int, y as int);
            }
            let c = v.get(Vec2::from(s.x - 1 - x, y));
            data.push(c);
            x = x + 1;
        }
        assert(data@.len() == (y + 1) * w) by (nonlinear_arith)
            requires
                data@.len() == y * w + w,
        ;
        y = y + 1;
    }
    let r = Buffer { size: Vec2::from(w, h), data };
    assert(r.data@.len() == w * h) by (nonlinear_arith)
        requires
            r.data@.len() == h * w,
    ;
    assert forall|x: int, y: int| 0 <= x < r.size.x && 0 <= y < r.size.y implies #[trigger] r.pixel(
        x,
        y,
    ) == v.pixel(s.x as int - 1 - x, y) by {
        lemma_idx_bounds(w as int, h as int, x, y);
        lemma_idx_div_mod(w as int, x, y);
        assert(r.data@[idx(w as int, x, y)] == data@[idx(w as int, x, y)]);
    }
    r
}

/// The surface mirrored top to bottom.
pub fn flip_v<V: BufferView>(v: &V) -> (r: Buffer)
    requires
        v.well_formed(),
        v.dims().x * v.dims().y <= usize::MAX,
    ensures
        mirror_v_of(*v, r),
{
    let s = v.size();
    let w: u32 = s.x;
    let h: u32 = s.y;
    let mut data: Vec<u32> = Vec::new();
    let mut y: u32 = 0;
    while y < h
        invariant
            s == v.dims(),
            v.well_formed(),
            w == s.x,
            h == s.y,
            y <= h,
            data@.len() == y * w,
            forall|k: int|
                0 <= k < data@.len() ==> #[trigger] data@[k] == v.pixel(
                    (k % (w as int)),
                    s.y as int - 1 - (k / (w as int)),
                ),
        decreases h - y,
    {
        let mut x: u32 = 0;
        while x < w
            invariant
                s == v.dims(),
                v.well_formed(),
                w == s.x,
                h == s.y,
                y < h,
                x <= w,
                data@.len() == y * w + x,
                forall|k: int|
                    0 <= k < data@.len() ==> #[trigger] data@[k] == v.pixel(
                        (k % (w as int)),
                        s.y as int - 1 - (k / (w as int)),
                    ),
            decreases w - x,
        {
            proof {
                lemma_idx_div_mod(w as int, x as int, y as int);
            }
            let c = v.get(Vec2::from(x, s.y - 1 - y));
            data.push(c);
            x = x + 1;
        }
        assert(data@.len() == (y + 1) * w) by (nonlinear_arith)
            requires
                data@.len() == y * w + w,
        ;
        y = y + 1;
    }
    let r = Buffer { size: Vec2::from(w, h), data };
    assert(r.data@.len() == w * h) by (nonlinear_arith)
        requires
            r.data@.len() == h * w,
    ;
    assert forall|x: int, y: int| 0 <= x < r.size.x && 0 <= y < r.size.y implies #[trigger] r.pixel(
        x,
        y,
    ) == v.pixel(x, s.y as int - 1 - y) by {
        lemma_idx_bounds(w as int, h as int, x, y);
        lemma_idx_div_mod(w as int, x, y);
        assert(r.data@[idx(w as int, x, y)] == data@[idx(w as int, x, y)]);
    }
    r
}

impl BufferView for Buffer {
    open spec fn dims(&self) -> Vec2 {
        self.size
    }

    open spec fn pixel(&self, x: int, y: int) -> u32 {
        self.data@[idx(self.size.x as int, x, y)]
    }

    open spec fn well_formed(&self) -> bool {
        self.data@.len() == self.size.x * self.size.y
    }

    fn size(&self) -> (r: Vec2) {
        self.size
    }

    fn get(&self, pos: Vec2) -> (r: u32) {
        self.data[self.index_of(pos)]
    }
}

impl Buffer {
    fn index_of(&self, pos: Vec2) -> (r: usize)
        requires
            self.well_formed(),
            pos.x < self.size.x,
            pos.y < self.size.y,
        ensures
            r == idx(self.size.x as int, pos.x as int, pos.y as int),
            r < self.data@.len(),
    {
        let n: usize = self.data.len();
        proof {
            lemma_idx_bounds(self.size.x as int, self.size.y as int, pos.x as int, pos.y as int);
            assert(pos.y * self.size.x <= idx(self.size.x as int, pos.x as int, pos.y as int));
        }
        pos.y as usize * self.size.x as usize + pos.x as usize
    }

    /// A surface of `size` filled with opaque white.
    pub fn new(size: Vec2) -> (r: Buffer)
        requires
            size.x * size.y <= usize::MAX,
        ensures
            r.well_formed(),
            r.size == size,
            forall|i: int| 0 <= i < r.data@.len() ==> r.data@[i] == 0xFFFF_FFFFu32,
    {
        let n: usize = size.x as usize * size.y as usize;
        let mut data: Vec<u32> = Vec::new();
        let mut i: usize = 0;
        while i < n
            invariant
                i <= n,
                data@.len() == i,
                forall|k: int| 0 <= k < i ==> data@[k] == 0xFFFF_FFFFu32,
            decreases n - i,
        {
            data.push(0xFFFF_FFFF);
            i = i + 1;
        }
        Buffer { size, data }
    }

    /// The surface of no pixels.
    pub fn empty() -> (r: Buffer)
        ensures
            r.well_formed(),
            r.size == Vec2::spec_zero(),
            r.data@.len() == 0,
    {
        Buffer { size: Vec2::zero(), data: Vec::new() }
    }

    /// Writes `color` at `pos`; a position outside the surface is ignored.
    pub fn set(&mut self, pos: Vec2, color: u32)
        requires
            old(self).well_formed(),
        ensures
            final(self).well_formed(),
            final(self).size == old(self).size,
            pos.x < old(self).size.x && pos.y < old(self).size.y ==> final(self).data@
                == old(self).data@.update(
                idx(old(self).size.x as int, pos.x as int, pos.y as int),
                color,
            ),
            !(pos.x < old(self).size.x && pos.y < old(self).size.y) ==> final(self).data@
                == old(self).data@,
            forall|a: int, b: int|
                0 <= a < old(self).size.x && 0 <= b < old(self).size.y ==> #[trigger] final(self).pixel(a, b)
                    == if a == pos.x && b == pos.y {
                    color
                } else {
                    old(self).pixel(a, b)
                },
    {
        if pos.x < self.size.x && pos.y < self.size.y {
            let i: usize = self.index_of(pos);
            self.data.set(i, color);
            proof {
                let w = self.size.x as int;
                assert forall|a: int, b: int| 0 <= a < w && 0 <= b < self.size.y && !(a == pos.x && b
                    == pos.y) implies #[trigger] idx(w, a, b) != i by {
                    lemma_idx_div_mod(w, a, b);
                    lemma_idx_div_mod(w, pos.x as int, pos.y as int);
                }
                assert forall|a: int, b: int| 0 <= a < w && 0 <= b < self.size.y implies 0 <= #[trigger] idx(w, a, b) < self.data@.len() by {
                    lemma_idx_bounds(w, self.size.y as int, a, b);
                }
            }
        }
    }

    /// Blends `color` over the pixel at `pos` with opacity `alpha / 255`, each
    /// channel truncated; the result is opaque.
    pub fn set_transparent(&mut self, pos: Vec2, color: u32, alpha: u8)
        requires
            old(self).well_formed(),
            pos.x < old(self).size.x,
            pos.y < old(self).size.y,
        ensures
            final(self).well_formed(),
            final(self).size == old(self).size,
            forall|a: int, b: int|
                0 <= a < old(self).size.x && 0 <= b < old(self).size.y ==> #[trigger] final(self).pixel(a, b)
                    == if a == pos.x && b == pos.y {
                    over(old(self).pixel(a, b), color, alpha as int) as u32
                } else {
                    old(self).pixel(a, b)
                },
    {
        let original = self.get(pos);
        let a: u32 = alpha as u32;
        let r: u32 = mix((color / 0x1_0000) % 256, (original / 0x1_0000) % 256, a);
        let g: u32 = mix((color / 0x100) % 256, (original / 0x100) % 256, a);
        let b: u32 = mix(color % 256, original % 256, a);
        assert(color % 256 == (color / 1) % 256);
        assert(original % 256 == (original / 1) % 256);
        self.set(pos, 0xFF00_0000 + r * 0x1_0000 + g * 0x100 + b);
    }

    /// Overwrites this surface with `other` placed with its top-left corner at
    /// column `x` and row `y`. Rows at or above row zero of this surface, and
    /// whatever falls outside it, are left out; nothing is blended.
    pub fn copy_from<V: BufferView>(&mut self, other: &V, x: u32, y: i32)
        requires
            old(self).well_formed(),
            other.well_formed(),
        ensures
            final(self).well_formed(),
            final(self).size == old(self).size,
            forall|px: int, py: int|
                0 <= px < old(self).size.x && 0 <= py < old(self).size.y ==> #[trigger] final(self).pixel(px, py)
                    == composited(*old(self), *other, x as int, y as int, px, py),
    {
        let os = other.size();
        let mut j: u32 = 0;
        while j < os.y
            invariant
                self.well_formed(),
                other.well_formed(),
                os == other.dims(),
                self.size == old(self).size,
                j <= os.y,
                forall|px: int, py: int|
                    0 <= px < self.size.x && 0 <= py < self.size.y ==> #[trigger] self.pixel(px, py)
                        == if copied(*other, x as int, y as int, px, py, j as int, 0) {
                        other.pixel(px - x, py - y)
                    } else {
                        old(self).pixel(px, py)
                    },
            decreases os.y - j,
        {
            let row: i64 = y as i64 + j as i64;
            let mut i: u32 = 0;
            while i < os.x
                invariant
                    self.well_formed(),
                    other.well_formed(),
                    os == other.dims(),
                    self.size == old(self).size,
                    j < os.y,
                    i <= os.x,
                    row == y + j,
                    forall|px: int, py: int|
                        0 <= px < self.size.x && 0 <= py < self.size.y ==> #[trigger] self.pixel(px, py)
                            == if copied(*other, x as int, y as int, px, py, j as int, i as int) {
                            other.pixel(px - x, py - y)
                        } else {
                            old(self).pixel(px, py)
                        },
                decreases os.x - i,
            {
                let col: u64 = x as u64 + i as u64;
                if row > 0 && row < self.size.y as i64 && col < self.size.x as u64 {
                    let c = other.get(Vec2::from(i, j));
                    self.set(Vec2::from(col as u32, row as u32), c);
                }
                i = i + 1;
            }
            j = j + 1;
        }
    }

    /// A surface of `size` from packed 8-bit red, green and blue samples, row
    /// by row, made fully opaque; `None` when there are not exactly three
    /// samples per pixel.
    pub fn from_rgb(size: Vec2, rgb: &Vec<u8>) -> (r: Option<Buffer>)
        ensures
            r is Some <==> rgb@.len() == 3 * size.x * size.y,
            r is Some ==> r->0.well_formed() && r->0.size == size && forall|i: int|
                0 <= i < size.x * size.y ==> #[trigger] r->0.data@[i] == 0xFF00_0000 + rgb@[3 * i]
                    * 0x1_0000 + rgb@[3 * i + 1] * 0x100 + rgb@[3 * i + 2],
    {
        assert(size.x as u64 * size.y as u64 <= 0xFFFF_FFFFu64 * 0xFFFF_FFFFu64) by (nonlinear_arith);
        let n: u64 = size.x as u64 * size.y as u64;
        assert(3 * size.x * size.y == n * 3) by (nonlinear_arith)
            requires
                n == size.x * size.y,
        ;
        if n > rgb.len() as u64 / 3 || n * 3 != rgb.len() as u64 {
            return None;
        }
        let len: usize = rgb.len();
        let m: usize = len / 3;
        let mut data: Vec<u32> = Vec::new();
        let mut i: usize = 0;
        while i < m
            invariant
                len == rgb@.len(),
                m == n,
                n * 3 == rgb@.len(),
                n == size.x * size.y,
                i <= n,
                data@.len() == i,
                forall|k: int|
                    0 <= k < i ==> #[trigger] data@[k] == 0xFF00_0000 + rgb@[3 * k] * 0x1_0000 + rgb@[3 * k
                        + 1] * 0x100 + rgb@[3 * k + 2],
            decreases n - i,
        {
            assert(3 * i + 2 < rgb@.len()) by (nonlinear_arith)
                requires
                    i < n,
                    n * 3 == rgb@.len(),
            ;
            let p: u32 = 0xFF00_0000 + rgb[3 * i] as u32 * 0x1_0000 + rgb[3 * i + 1] as u32 * 0x100
                + rgb[3 * i + 2] as u32;
            data.push(p);
            i = i + 1;
        }
        Some(Buffer { size, data })
    }

    /// Fills the whole surface with `color`.
    pub fn clear(&mut self, color: u32)
        requires
            old(self).well_formed(),
        ensures
            final(self).well_formed(),
            final(self).size == old(self).size,
            forall|i: int| 0 <= i < final(self).data@.len() ==> final(self).data@[i] == color,
    {
        let n: usize = self.data.len();
        let mut i: usize = 0;
        while i < n
            invariant
                i <= n,
                n == self.data@.len(),
                self.size == old(self).size,
                self.data@.len() == old(self).data@.len(),
                forall|k: int| 0 <= k < i ==> self.data@[k] == color,
            decreases n - i,
        {
            self.data.set(i, color);
            i = i + 1;
        }
    }
}

} // verus!
