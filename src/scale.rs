use vstd::prelude::*;
use crate::buffer::{copy_of, BufferView, Buffer, idx, lemma_idx_bounds, lemma_idx_div_mod};
use crate::util::Vec2;
use crate::weights::{
    axis_nums, compute_weights, lemma_window_bounds, seq_sum, weights_of, window_start,
    Weights,
};

verus! {

/// One 8-bit channel of a packed colour: `divisor` is `1 << 16` for red,
/// `1 << 8` for green and `1` for blue.
pub open spec fn channel(c: u32, divisor: int) -> int {
    (c as int / divisor) % 256
}

/// `floor(c * n / den)`: the truncated contribution of one weighted sample; no
/// contribution where all the weights are zero.
pub open spec fn term(c: int, n: int, den: int) -> int {
    if den == 0 {
        0
    } else {
        c * n / den
    }
}

/// Sum of the truncated contributions of `vals` under the weights `nums / den`.
pub open spec fn blend(vals: Seq<int>, nums: Seq<u64>, den: int) -> int
    decreases nums.len(),
{
    if nums.len() == 0 {
        0
    } else {
        blend(vals, nums.drop_last(), den) + term(vals[nums.len() - 1], nums.last() as int, den)
    }
}

/// The vertical pass: channel `divisor` of source column `x` blended for output
/// row `oy` of a resize of `v` to `target`.
pub open spec fn column_value<V: BufferView>(v: V, target: Vec2, oy: int, x: int, divisor: int) -> int {
    let h = v.dims().y as int;
    let ys = window_start(h, target.y as int, oy);
    let ny = axis_nums(h, target.y as int, oy);
    blend(Seq::new(ny.len(), |k: int| channel(v.pixel(x, ys + k), divisor)), ny, seq_sum(ny))
}

/// The horizontal pass: channel `divisor` of output pixel `(ox, oy)`.
pub open spec fn out_channel<V: BufferView>(v: V, target: Vec2, ox: int, oy: int, divisor: int) -> int {
    let w = v.dims().x as int;
    let xs = window_start(w, target.x as int, ox);
    let nx = axis_nums(w, target.x as int, ox);
    blend(
        Seq::new(nx.len(), |k: int| column_value(v, target, oy, xs + k, divisor)),
        nx,
        seq_sum(nx),
    )
}

/// Output pixel `(ox, oy)` of a resize of `v` to `target`, fully opaque.
pub open spec fn scaled_pixel<V: BufferView>(v: V, target: Vec2, ox: int, oy: int) -> int {
    0xFF00_0000 + out_channel(v, target, ox, oy, 0x1_0000) * 0x1_0000 + out_channel(
        v,
        target,
        ox,
        oy,
        0x100,
    ) * 0x100 + out_channel(v, target, ox, oy, 1)
}

/// `r` is `v` resampled to `target`.
pub open spec fn resample_of<V: BufferView>(v: V, target: Vec2, r: Buffer) -> bool {
    &&& r.well_formed()
    &&& r.size == target
    &&& forall|x: int, y: int|
        0 <= x < target.x && 0 <= y < target.y ==> #[trigger] r.pixel(x, y) == scaled_pixel(
            v,
            target,
            x,
            y,
        )
}

proof fn lemma_seq_sum_take(s: Seq<u64>, k: int)
    requires
        0 <= k <= s.len(),
    ensures
        seq_sum(s.take(k)) <= seq_sum(s),
        0 <= seq_sum(s.take(k)),
    decreases s.len(),
{
    if k == s.len() {
        assert(s.take(k) =~= s);
        lemma_seq_sum_nonneg(s);
    } else {
        lemma_seq_sum_take(s.drop_last(), k);
        assert(s.drop_last().take(k) =~= s.take(k));
    }
}

proof fn lemma_seq_sum_nonneg(s: Seq<u64>)
    ensures
        0 <= seq_sum(s),
    decreases s.len(),
{
    if s.len() > 0 {
        lemma_seq_sum_nonneg(s.drop_last());
    }
}

/// Each truncated contribution is at most its exact share.
proof fn lemma_term_bound(c: int, n: int, den: int)
    requires
        0 <= c <= 255,
        0 <= n,
        0 < den,
    ensures
        0 <= term(c, n, den),
        den * term(c, n, den) <= 255 * n,
{
    let t = c * n / den;
    vstd::arithmetic::div_mod::lemma_fundamental_div_mod(c * n, den);
    assert(0 <= c * n) by (nonlinear_arith)
        requires
            0 <= c,
            0 <= n,
    ;
    assert(c * n <= 255 * n) by (nonlinear_arith)
        requires
            c <= 255,
            0 <= n,
    ;
    assert(0 <= t) by (nonlinear_arith)
        requires
            t == c * n / den,
            0 <= c * n,
            0 < den,
    ;
    assert(den * t <= c * n) by (nonlinear_arith)
        requires
            c * n == den * t + (c * n) % den,
            0 <= (c * n) % den,
    ;
}

/// Blending values of one channel never leaves the channel's range.
pub proof fn lemma_blend_bound(vals: Seq<int>, nums: Seq<u64>, den: int)
    requires
        vals.len() >= nums.len(),
        forall|k: int| 0 <= k < vals.len() ==> 0 <= #[trigger] vals[k] <= 255,
        0 < den,
    ensures
        0 <= blend(vals, nums, den),
        den * blend(vals, nums, den) <= 255 * seq_sum(nums),
    decreases nums.len(),
{
    if nums.len() > 0 {
        lemma_blend_bound(vals, nums.drop_last(), den);
        lemma_term_bound(vals[nums.len() - 1], nums.last() as int, den);
        let b = blend(vals, nums.drop_last(), den);
        let t = term(vals[nums.len() - 1], nums.last() as int, den);
        assert(den * (b + t) == den * b + den * t) by (nonlinear_arith);
    }
}

/// Blends `vals[start..]` under the weights `nums / den`.
fn blend_window(vals: &Vec<u32>, start: usize, nums: &Vec<u64>, den: u128) -> (r: u32)
    requires
        start + nums@.len() <= vals@.len(),
        den == seq_sum(nums@),
        forall|k: int| 0 <= k < vals@.len() ==> #[trigger] vals@[k] <= 255,
    ensures
        r == blend(Seq::new(nums@.len(), |k: int| vals@[start + k] as int), nums@, den as int),
        r <= 255,
{
    let ghost sv = Seq::new(nums@.len(), |k: int| vals@[start + k] as int);
    let nv: usize = vals.len();
    let mut acc: u32 = 0;
    let mut k: usize = 0;
    while k < nums.len()
        invariant
            start + nums@.len() <= vals@.len(),
            den == seq_sum(nums@),
            forall|k: int| 0 <= k < vals@.len() ==> #[trigger] vals@[k] <= 255,
            sv == Seq::new(nums@.len(), |k: int| vals@[start + k] as int),
            k <= nums@.len(),
            nv == vals@.len(),
            acc == blend(sv, nums@.take(k as int), den as int),
            acc <= 255,
        decreases nums@.len() - k,
    {
        assert(nums@.take(k as int + 1).drop_last() =~= nums@.take(k as int));
        let c: u32 = vals[start + k];
        let n: u64 = nums[k];
        proof {
            lemma_seq_sum_take(nums@, k as int + 1);
            if den > 0 {
                lemma_blend_bound(sv, nums@.take(k as int + 1), den as int);
                assert(den * blend(sv, nums@.take(k as int + 1), den as int) <= 255 * den) by (nonlinear_arith)
                    requires
                        den * blend(sv, nums@.take(k as int + 1), den as int) <= 255 * seq_sum(nums@.take(k as int + 1)),
                        seq_sum(nums@.take(k as int + 1)) <= den,
                ;
                assert(blend(sv, nums@.take(k as int + 1), den as int) <= 255) by (nonlinear_arith)
                    requires
                        den * blend(sv, nums@.take(k as int + 1), den as int) <= 255 * den,
                        den > 0,
                ;
            }
        }
        if den != 0 {
            assert(c as u128 * n as u128 <= 255 * 0x1_0000_0000_0000_0000u128) by (nonlinear_arith)
                requires
                    c <= 255,
                    n < 0x1_0000_0000_0000_0000u128,
            ;
            let t: u128 = c as u128 * n as u128 / den;
            acc = acc + t as u32;
        }
        k = k + 1;
    }
    assert(nums@.take(nums@.len() as int) =~= nums@);
    acc
}

/// The vertical pass for one source column: channel `divisor` of the pixels of
/// column `x` in the window of `w`, blended.
fn column_blend<V: BufferView>(v: &V, x: u32, w: &Weights, divisor: u32) -> (r: u32)
    requires
        v.well_formed(),
        x < v.dims().x,
        w.start + w.nums@.len() <= v.dims().y,
        w.den == seq_sum(w.nums@),
        0 < divisor,
    ensures
        r == blend(
            Seq::new(w.nums@.len(), |k: int| channel(v.pixel(x as int, w.start + k), divisor as int)),
            w.nums@,
            w.den as int,
        ),
        r <= 255,
{
    let n: usize = w.nums.len();
    let mut vals: Vec<u32> = Vec::new();
    let mut k: usize = 0;
    while k < n
        invariant
            v.well_formed(),
            x < v.dims().x,
            w.start + w.nums@.len() <= v.dims().y,
            n == w.nums@.len(),
            0 < divisor,
            k <= n,
            vals@.len() == k,
            forall|i: int|
                0 <= i < k ==> #[trigger] vals@[i] == channel(v.pixel(x as int, w.start + i), divisor as int),
        decreases n - k,
    {
        let c: u32 = v.get(Vec2::from(x, w.start + k as u32));
        vals.push((c / divisor) % 256);
        k = k + 1;
    }
    let r = blend_window(&vals, 0, &w.nums, w.den);
    assert(Seq::new(w.nums@.len(), |k: int| vals@[0 + k] as int) =~= Seq::new(
        w.nums@.len(),
        |k: int| channel(v.pixel(x as int, w.start + k), divisor as int),
    ));
    r
}

/// Resamples `v` to `size`. A surface already of `size` comes back as a copy;
/// otherwise each output pixel is the tent-filtered blend of its source window,
/// vertical pass first, with each weighted contribution truncated, and fully
/// opaque.
pub fn scale<V: BufferView>(v: &V, size: Vec2) -> (r: Buffer)
    requires
        v.well_formed(),
        v.dims().x * v.dims().y <= usize::MAX,
        size.x * size.y <= usize::MAX,
        size != v.dims() ==> v.dims().x > 0 && v.dims().y > 0,
    ensures
        size == v.dims() ==> copy_of(*v, r),
        size != v.dims() ==> resample_of(*v, size, r),
{
    let s = v.size();
    if size == s {
        return crate::buffer::clone(v);
    }
    if size.x == 0 || size.y == 0 {
        let r = Buffer::new(size);
        return r;
    }
    let wx = compute_weights(s.x, size.x);
    let wy = compute_weights(s.y, size.y);
    let mut data: Vec<u32> = Vec::new();
    let mut oy: u32 = 0;
    while oy < size.y
        invariant
            v.well_formed(),
            s == v.dims(),
            0 < s.x,
            0 < s.y,
            0 < size.x,
            oy <= size.y,
            wx@.len() == size.x,
            wy@.len() == size.y,
            forall|o: int| 0 <= o < size.x ==> weights_of(#[trigger] wx@[o], s.x as int, size.x as int, o),
            forall|o: int| 0 <= o < size.y ==> weights_of(#[trigger] wy@[o], s.y as int, size.y as int, o),
            data@.len() == oy * size.x,
            forall|k: int|
                0 <= k < data@.len() ==> #[trigger] data@[k] == scaled_pixel(
                    *v,
                    size,
                    k % (size.x as int),
                    k / (size.x as int),
                ),
        decreases size.y - oy,
    {
        let wyo: &Weights = &wy[oy as usize];
        proof {
            lemma_window_bounds(s.y as int, size.y as int, oy as int);
        }
        let mut rr: Vec<u32> = Vec::new();
        let mut gg: Vec<u32> = Vec::new();
        let mut bb: Vec<u32> = Vec::new();
        let mut x: u32 = 0;
        while x < s.x
            invariant
                v.well_formed(),
                s == v.dims(),
                oy < size.y,
                weights_of(*wyo, s.y as int, size.y as int, oy as int),
                wyo.start + wyo.nums@.len() <= s.y,
                x <= s.x,
                rr@.len() == x,
                gg@.len() == x,
                bb@.len() == x,
                forall|i: int| 0 <= i < x ==> #[trigger] rr@[i] == column_value(*v, size, oy as int, i, 0x1_0000),
                forall|i: int| 0 <= i < x ==> #[trigger] gg@[i] == column_value(*v, size, oy as int, i, 0x100),
                forall|i: int| 0 <= i < x ==> #[trigger] bb@[i] == column_value(*v, size, oy as int, i, 1),
                forall|i: int| 0 <= i < x ==> #[trigger] rr@[i] <= 255,
                forall|i: int| 0 <= i < x ==> #[trigger] gg@[i] <= 255,
                forall|i: int| 0 <= i < x ==> #[trigger] bb@[i] <= 255,
            decreases s.x - x,
        {
            rr.push(column_blend(v, x, wyo, 0x1_0000));
            gg.push(column_blend(v, x, wyo, 0x100));
            bb.push(column_blend(v, x, wyo, 1));
            x = x + 1;
        }
        let mut ox: u32 = 0;
        while ox < size.x
            invariant
                v.well_formed(),
                s == v.dims(),
                oy < size.y,
                0 < size.x,
                0 < s.x,
                ox <= size.x,
                wx@.len() == size.x,
                forall|o: int| 0 <= o < size.x ==> weights_of(#[trigger] wx@[o], s.x as int, size.x as int, o),
                rr@.len() == s.x,
                gg@.len() == s.x,
                bb@.len() == s.x,
                forall|i: int| 0 <= i < s.x ==> #[trigger] rr@[i] == column_value(*v, size, oy as int, i, 0x1_0000),
                forall|i: int| 0 <= i < s.x ==> #[trigger] gg@[i] == column_value(*v, size, oy as int, i, 0x100),
                forall|i: int| 0 <= i < s.x ==> #[trigger] bb@[i] == column_value(*v, size, oy as int, i, 1),
                forall|i: int| 0 <= i < rr@.len() ==> #[trigger] rr@[i] <= 255,
                forall|i: int| 0 <= i < gg@.len() ==> #[trigger] gg@[i] <= 255,
                forall|i: int| 0 <= i < bb@.len() ==> #[trigger] bb@[i] <= 255,
                data@.len() == oy * size.x + ox,
                forall|k: int|
                    0 <= k < data@.len() ==> #[trigger] data@[k] == scaled_pixel(
                        *v,
                        size,
                        k % (size.x as int),
                        k / (size.x as int),
                    ),
            decreases size.x - ox,
        {
            let wxo: &Weights = &wx[ox as usize];
            proof {
                lemma_window_bounds(s.x as int, size.x as int, ox as int);
                lemma_idx_div_mod(size.x as int, ox as int, oy as int);
            }
            let r = blend_window(&rr, wxo.start as usize, &wxo.nums, wxo.den);
            let g = blend_window(&gg, wxo.start as usize, &wxo.nums, wxo.den);
            let b = blend_window(&bb, wxo.start as usize, &wxo.nums, wxo.den);
            assert(Seq::new(wxo.nums@.len(), |k: int| rr@[wxo.start + k] as int) =~= Seq::new(
                wxo.nums@.len(),
                |k: int| column_value(*v, size, oy as int, wxo.start + k, 0x1_0000),
            ));
            assert(Seq::new(wxo.nums@.len(), |k: int| gg@[wxo.start + k] as int) =~= Seq::new(
                wxo.nums@.len(),
                |k: int| column_value(*v, size, oy as int, wxo.start + k, 0x100),
            ));
            assert(Seq::new(wxo.nums@.len(), |k: int| bb@[wxo.start + k] as int) =~= Seq::new(
                wxo.nums@.len(),
                |k: int| column_value(*v, size, oy as int, wxo.start + k, 1),
            ));
            data.push(0xFF00_0000 + r * 0x1_0000 + g * 0x100 + b);
            ox = ox + 1;
        }
        assert(data@.len() == (oy + 1) * size.x) by (nonlinear_arith)
            requires
                data@.len() == oy * size.x + size.x,
        ;
        oy = oy + 1;
    }
    let r = Buffer { size, data };
    assert(r.data@.len() == size.x * size.y) by (nonlinear_arith)
        requires
            r.data@.len() == size.y * size.x,
    ;
    assert forall|x: int, y: int| 0 <= x < size.x && 0 <= y < size.y implies #[trigger] r.pixel(x, y)
        == scaled_pixel(*v, size, x, y) by {
        lemma_idx_bounds(size.x as int, size.y as int, x, y);
        lemma_idx_div_mod(size.x as int, x, y);
        assert(r.data@[idx(size.x as int, x, y)] == data@[idx(size.x as int, x, y)]);
    }
    r
}

} // verus!
