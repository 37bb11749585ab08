use vstd::prelude::*;

verus! {

/// The resampling weights of one output sample: the first source index of its
/// window and, for each source index of the window, the numerator of its weight.
/// The weight of the `k`-th source sample is `nums[k] / den`; `den` is the sum of
/// the numerators, so the weights add up to one unless all of them are zero.
pub struct Weights {
    pub start: u32,
    pub nums: Vec<u64>,
    pub den: u128,
}

/// Sum of a sequence of numerators.
pub open spec fn seq_sum(s: Seq<u64>) -> int
    decreases s.len(),
{
    if s.len() == 0 {
        0
    } else {
        seq_sum(s.drop_last()) + s.last()
    }
}

/// Twice the filter support, measured in units of half an output sample:
/// `2 * max(src, target)`.
pub open spec fn support2(src: int, target: int) -> int {
    if src < target {
        2 * target
    } else {
        2 * src
    }
}

/// Distance between source index `i` (shifted back by half a sample) and the
/// centre of output sample `o`, in units of `1 / (2 * target)`.
pub open spec fn offset(src: int, target: int, o: int, i: int) -> int {
    let d = (2 * i - 1) * target - (2 * o + 1) * src;
    if d < 0 {
        -d
    } else {
        d
    }
}

/// Unnormalised tent-filter weight of source index `i` for output `o`:
/// `max(0, 1 - |i - centre - 1/2| / support)`, scaled by `support2`.
pub open spec fn raw_weight(src: int, target: int, o: int, i: int) -> int {
    let n = offset(src, target, o, i);
    if n < support2(src, target) {
        support2(src, target) - n
    } else {
        0
    }
}

/// `clamp(floor(centre - support), 0, src - 1)`.
pub open spec fn window_start(src: int, target: int, o: int) -> int {
    let num = (2 * o + 1) * src - support2(src, target);
    if num <= 0 {
        0
    } else if num / (2 * target) > src - 1 {
        src - 1
    } else {
        num / (2 * target)
    }
}

/// `clamp(ceil(centre + support), start + 1, src)`.
pub open spec fn window_end(src: int, target: int, o: int) -> int {
    let c = ((2 * o + 1) * src + support2(src, target) + 2 * target - 1) / (2 * target);
    let lo = window_start(src, target, o) + 1;
    if c < lo {
        lo
    } else if c > src {
        src
    } else {
        c
    }
}

/// The weight numerators of output `o`, one per source index of its window.
pub open spec fn axis_nums(src: int, target: int, o: int) -> Seq<u64> {
    Seq::new(
        (window_end(src, target, o) - window_start(src, target, o)) as nat,
        |k: int| raw_weight(src, target, o, window_start(src, target, o) + k) as u64,
    )
}

/// What `w` holds when it is the weight list of output `o`.
pub open spec fn weights_of(w: Weights, src: int, target: int, o: int) -> bool {
    &&& w.start == window_start(src, target, o)
    &&& w.nums@ == axis_nums(src, target, o)
    &&& w.den == seq_sum(w.nums@)
}

proof fn lemma_seq_sum_push(s: Seq<u64>, v: u64)
    ensures
        seq_sum(s.push(v)) == seq_sum(s) + v,
{
    assert(s.push(v).drop_last() =~= s);
}

pub proof fn lemma_window_bounds(src: int, target: int, o: int)
    requires
        0 < src,
        0 < target,
        0 <= o < target,
    ensures
        0 <= window_start(src, target, o) < window_end(src, target, o) <= src,
{
}

/// Whenever the window of an output holds any weight, its normalised weights
/// `nums[k] / den` add up to exactly one.
pub proof fn lemma_weights_sum_to_one(w: Weights, src: int, target: int, o: int)
    requires
        0 < src,
        0 < target,
        0 <= o < target,
        weights_of(w, src, target, o),
        seq_sum(w.nums@) > 0,
    ensures
        w.den > 0,
        seq_sum(w.nums@) == w.den,
{
}

proof fn lemma_seq_sum_single(s: Seq<u64>, j: int)
    requires
        0 <= j < s.len(),
        forall|k: int| 0 <= k < s.len() && k != j ==> #[trigger] s[k] == 0,
    ensures
        seq_sum(s) == s[j],
    decreases s.len(),
{
    if s.len() - 1 == j {
        lemma_seq_sum_zero(s.drop_last());
    } else {
        lemma_seq_sum_single(s.drop_last(), j);
    }
}

proof fn lemma_seq_sum_zero(s: Seq<u64>)
    requires
        forall|k: int| 0 <= k < s.len() ==> #[trigger] s[k] == 0,
    ensures
        seq_sum(s) == 0,
    decreases s.len(),
{
    if s.len() > 0 {
        lemma_seq_sum_zero(s.drop_last());
    }
}

/// Resampling to the same length: the window of output `o` holds exactly one
/// non-zero weight, on source index `o + 1`, and it is the whole of the sum, so
/// its normalised weight is one. (The last output, whose window holds no weight,
/// is left out.)
pub proof fn lemma_same_length_weights(n: int, o: int)
    requires
        0 < n <= u32::MAX,
        0 <= o,
        o + 1 < n,
    ensures
        window_start(n, n, o) <= o + 1 < window_end(n, n, o),
        forall|k: int|
            0 <= k < axis_nums(n, n, o).len() ==> (#[trigger] axis_nums(n, n, o)[k] != 0 <==> window_start(n, n, o) + k == o + 1),
        seq_sum(axis_nums(n, n, o)) == axis_nums(n, n, o)[o + 1 - window_start(n, n, o)],
        seq_sum(axis_nums(n, n, o)) == 2 * n,
{
    let st = window_start(n, n, o);
    let nums = axis_nums(n, n, o);
    assert((2 * o + 1) * n - 2 * n == (2 * o - 1) * n) by (nonlinear_arith);
    assert((2 * o + 1) * n + 2 * n + 2 * n - 1 == (2 * o + 4) * n + n - 1) by (nonlinear_arith);
    if o == 0 {
        assert((2 * o + 1) * n == n) by (nonlinear_arith)
            requires
                o == 0,
        ;
        assert(st == 0);
    } else {
        assert((2 * o - 1) * n > 0) by (nonlinear_arith)
            requires
                o >= 1,
                n > 0,
        ;
        assert((2 * o - 1) * n == (o - 1) * (2 * n) + n) by (nonlinear_arith);
        vstd::arithmetic::div_mod::lemma_fundamental_div_mod_converse((2 * o - 1) * n, 2 * n, o - 1, n);
    }
    assert(st <= o + 1);
    assert((2 * o + 4) * n + n - 1 == (o + 2) * (2 * n) + (n - 1)) by (nonlinear_arith);
    vstd::arithmetic::div_mod::lemma_fundamental_div_mod_converse(
        (2 * o + 4) * n + n - 1,
        2 * n,
        o + 2,
        n - 1,
    );
    assert(window_end(n, n, o) == o + 2);
    assert forall|k: int| 0 <= k < nums.len() implies (#[trigger] nums[k] != 0 <==> st + k == o + 1) by {
        let i = st + k;
        assert(nums[k] == raw_weight(n, n, o, i) as u64);
        assert((2 * i - 1) * n - (2 * o + 1) * n == 2 * n * (i - o - 1)) by (nonlinear_arith);
        if i < o + 1 {
            assert(2 * n * (i - o - 1) <= -2 * n) by (nonlinear_arith)
                requires
                    i <= o,
                    n > 0,
            ;
        } else if i > o + 1 {
            assert(2 * n * (i - o - 1) >= 2 * n) by (nonlinear_arith)
                requires
                    i >= o + 2,
                    n > 0,
            ;
        }
    }
    lemma_seq_sum_single(nums, o + 1 - st);
    assert(offset(n, n, o, o + 1) == 0) by (nonlinear_arith);
}

/// Computes, for one axis of a resize from `src` samples to `target` samples,
/// the weight list of every output sample.
pub fn compute_weights(src: u32, target: u32) -> (r: Vec<Weights>)
    requires
        0 < src,
        0 < target,
    ensures
        r@.len() == target,
        forall|o: int| 0 <= o < target ==> weights_of(#[trigger] r@[o], src as int, target as int, o),
{
    let s2: u128 = if src < target { 2 * target as u128 } else { 2 * src as u128 };
    let d: u128 = 2 * target as u128;
    let mut out: Vec<Weights> = Vec::new();
    let mut o: u32 = 0;
    while o < target
        invariant
            0 < src,
            0 < target,
            o <= target,
            s2 == support2(src as int, target as int),
            d == 2 * target,
            out@.len() == o,
            forall|p: int| 0 <= p < o ==> weights_of(#[trigger] out@[p], src as int, target as int, p),
        decreases target - o,
    {
        proof {
            lemma_window_bounds(src as int, target as int, o as int);
        }
        let co: u128 = 2 * o as u128 + 1;
        assert(co * src <= 0x2_0000_0000u128 * 0x1_0000_0000u128) by (nonlinear_arith)
            requires
                co <= 0x2_0000_0000u128,
                src < 0x1_0000_0000,
        ;
        let c: u128 = co * src as u128;
        let start: u32 = if c <= s2 {
            0
        } else if (c - s2) / d > src as u128 - 1 {
            src - 1
        } else {
            ((c - s2) / d) as u32
        };
        let ce: u128 = (c + s2 + d - 1) / d;
        let end: u32 = if ce < start as u128 + 1 {
            start + 1
        } else if ce > src as u128 {
            src
        } else {
            ce as u32
        };
        assert(start == window_start(src as int, target as int, o as int));
        assert(end == window_end(src as int, target as int, o as int));
        let mut nums: Vec<u64> = Vec::new();
        let mut den: u128 = 0;
        let mut i: u32 = start;
        while i < end
            invariant
                0 < src,
                0 < target,
                o < target,
                start <= i <= end,
                end <= src,
                s2 == support2(src as int, target as int),
                c == (2 * o + 1) * src,
                c <= 0x2_0000_0000u128 * 0x1_0000_0000u128,
                nums@.len() == i - start,
                forall|k: int|
                    0 <= k < nums@.len() ==> #[trigger] nums@[k] == raw_weight(
                        src as int,
                        target as int,
                        o as int,
                        start + k,
                    ),
                den == seq_sum(nums@),
                den <= (i - start) * s2,
                forall|k: int| 0 <= k < nums@.len() ==> #[trigger] nums@[k] <= s2,
            decreases end - i,
        {
            let ci: u128 = 2 * i as u128 + 1;
            assert(ci * target <= 0x2_0000_0000u128 * 0x1_0000_0000u128) by (nonlinear_arith)
                requires
                    ci <= 0x2_0000_0000u128,
                    target < 0x1_0000_0000,
            ;
            // `a - 2 * target` is `(2i - 1) * target`
            let a: u128 = ci * target as u128;
            let n: u128 = if a >= c + 2 * target as u128 {
                a - 2 * target as u128 - c
            } else {
                c + 2 * target as u128 - a
            };
            assert(n == offset(src as int, target as int, o as int, i as int)) by (nonlinear_arith)
                requires
                    a == (2 * i + 1) * target,
                    c == (2 * o + 1) * src,
                    n == (if a >= c + 2 * target { a - 2 * target - c } else { c + 2 * target - a }),
            ;
            let w: u64 = if n < s2 {
                (s2 - n) as u64
            } else {
                0
            };
            assert(w == raw_weight(src as int, target as int, o as int, i as int));
            proof {
                lemma_seq_sum_push(nums@, w);
            }
            assert((i + 1 - start) * s2 == (i - start) * s2 + s2) by (nonlinear_arith);
            assert((i + 1 - start) * s2 <= 0x1_0000_0000u128 * 0x2_0000_0000u128) by (nonlinear_arith)
                requires
                    i + 1 - start <= 0x1_0000_0000,
                    s2 <= 0x2_0000_0000u128,
            ;
            nums.push(w);
            den = den + w as u128;
            i = i + 1;
        }
        assert(nums@ =~= axis_nums(src as int, target as int, o as int));
        out.push(Weights { start, nums, den });
        o = o + 1;
    }
    out
}

} // verus!
