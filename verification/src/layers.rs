use vstd::prelude::*;

verus! {

/// Centipawns per unit of network output.
pub const UNITS: i16 = 400;

/// Scale of the feature transformer's activations.
pub const FT_SCALE: i16 = 255;

/// Scale of the output layer's weights.
pub const SCALE: i16 = 64;

/// The activation's right shift.
pub const SHIFT: u32 = 8;

/// The 16-bit two's-complement value that `v` wraps to.
pub open spec fn wrap16(v: int) -> int {
    (v + 32768) % 65536 - 32768
}

/// Wrapping twice is wrapping once, whatever is added in between.
pub proof fn lemma_wrap16_add(a: int, b: int)
    ensures
        wrap16(wrap16(a) + b) == wrap16(a + b),
        -32768 <= wrap16(a) < 32768,
        -32768 <= a < 32768 ==> wrap16(a) == a,
{
    vstd::arithmetic::div_mod::lemma_add_mod_noop(a + 32768, b, 65536);
    vstd::arithmetic::div_mod::lemma_add_mod_noop((a + 32768) % 65536, b, 65536);
    vstd::arithmetic::div_mod::lemma_mod_twice(a + 32768, 65536);
    if -32768 <= a < 32768 {
        vstd::arithmetic::div_mod::lemma_small_mod((a + 32768) as nat, 65536);
    }
}

/// The first layer: one row of `OUTPUT` weights per input feature, and a
/// bias per output. Inputs are bits, so the layer is applied by adding and
/// taking away rows.
#[derive(Debug, Clone)]
pub struct BitLinear<const INPUT: usize, const OUTPUT: usize> {
    pub weights: Box<[[i16; OUTPUT]; INPUT]>,
    pub biases: [i16; OUTPUT],
}

impl<const INPUT: usize, const OUTPUT: usize> BitLinear<INPUT, OUTPUT> {
    /// Adds `change` times the row of feature `index` to `outputs`, in
    /// wrapping 16-bit arithmetic.
    pub fn modify_feature(&self, index: usize, outputs: &mut [i16; OUTPUT], change: i16)
        requires
            index < INPUT,
        ensures
            forall|j: int|
                0 <= j < OUTPUT ==> #[trigger] final(outputs)@[j] == wrap16(
                    old(outputs)@[j] + self.weights@[index as int]@[j] * change,
                ),
    {
        let mut j: usize = 0;
        while j < OUTPUT
            invariant
                j <= OUTPUT,
                index < INPUT,
                forall|k: int|
                    0 <= k < j ==> #[trigger] outputs@[k] == wrap16(
                        old(outputs)@[k] + self.weights@[index as int]@[k] * change,
                    ),
                forall|k: int| j <= k < OUTPUT ==> #[trigger] outputs@[k] == old(outputs)@[k],
            decreases OUTPUT - j,
        {
            let weight: i16 = self.weights[index][j];
            let before: i16 = outputs[j];
            assert(-32768 * 32768 <= weight * change <= 32768 * 32768) by (nonlinear_arith)
                requires
                    -32768 <= weight <= 32767,
                    -32768 <= change <= 32767,
            ;
            let step: i32 = weight as i32 * change as i32;
            outputs[j] = wrap_to_i16(before as i64 + step as i64);
            j += 1;
        }
    }
}

/// Wraps a number to 16 bits.
pub fn wrap_to_i16(v: i64) -> (r: i16)
    requires
        -0x1_0000_0000_0000 <= v <= 0x1_0000_0000_0000,
    ensures
        r == wrap16(v as int),
{
    let m: i64 = (v + 32768) % 65536;
    let low: i64 = if m < 0 {
        m + 65536
    } else {
        m
    };
    assert(low == (v + 32768) % 65536);
    (low - 32768) as i16
}

/// Sum of the products of the first `n` weights and inputs.
pub open spec fn dot(weights: Seq<i8>, inputs: Seq<u8>, n: int) -> int
    decreases n,
{
    if n <= 0 {
        0
    } else {
        dot(weights, inputs, n - 1) + weights[n - 1] * inputs[n - 1]
    }
}

pub proof fn lemma_dot_bounds(weights: Seq<i8>, inputs: Seq<u8>, n: int)
    requires
        0 <= n <= weights.len(),
        n <= inputs.len(),
    ensures
        -32640 * n <= dot(weights, inputs, n) <= 32640 * n,
    decreases n,
{
    if n > 0 {
        lemma_dot_bounds(weights, inputs, n - 1);
        let w = weights[n - 1];
        let x = inputs[n - 1];
        assert(-32640 <= w * x <= 32640) by (nonlinear_arith)
            requires
                -128 <= w <= 127,
                0 <= x <= 255,
        ;
    }
}

/// A dense layer over 8-bit inputs with 8-bit weights and 32-bit biases.
#[derive(Debug, Clone)]
pub struct Linear<const INPUT: usize, const OUTPUT: usize> {
    pub weights: [[i8; INPUT]; OUTPUT],
    pub biases: [i32; OUTPUT],
}

impl<const INPUT: usize, const OUTPUT: usize> Linear<INPUT, OUTPUT> {
    /// No output can leave the 32-bit range, whatever the inputs.
    pub open spec fn fits(&self) -> bool {
        forall|j: int|
            0 <= j < OUTPUT ==> i32::MIN + 32640 * INPUT <= #[trigger] self.biases@[j] <= i32::MAX
                - 32640 * INPUT
    }

    /// Whether no output can leave the 32-bit range.
    pub fn is_fit(&self) -> (r: bool)
        ensures
            r == self.fits(),
    {
        let reach: i128 = 32640 * (INPUT as i128);
        let mut j: usize = 0;
        while j < OUTPUT
            invariant
                j <= OUTPUT,
                reach == 32640 * INPUT,
                forall|k: int|
                    0 <= k < j ==> i32::MIN + 32640 * INPUT <= #[trigger] self.biases@[k]
                        <= i32::MAX - 32640 * INPUT,
            decreases OUTPUT - j,
        {
            let bias: i128 = self.biases[j] as i128;
            if bias < -0x8000_0000 + reach || bias > 0x7fff_ffff - reach {
                return false;
            }
            j += 1;
        }
        true
    }

    /// What output `j` is for `inputs`: its bias and the weighted sum.
    pub open spec fn output(&self, inputs: Seq<u8>, j: int) -> int {
        self.biases@[j] + dot(self.weights@[j]@, inputs, INPUT as int)
    }

    pub fn forward(&self, inputs: &[u8; INPUT]) -> (out: [i32; OUTPUT])
        requires
            self.fits(),
        ensures
            forall|j: int| 0 <= j < OUTPUT ==> #[trigger] out@[j] == self.output(inputs@, j),
    {
        let mut out: [i32; OUTPUT] = self.biases;
        let mut j: usize = 0;
        while j < OUTPUT
            invariant
                j <= OUTPUT,
                self.fits(),
                forall|k: int| 0 <= k < j ==> #[trigger] out@[k] == self.output(inputs@, k),
                forall|k: int| j <= k < OUTPUT ==> #[trigger] out@[k] == self.biases@[k],
            decreases OUTPUT - j,
        {
            let mut sum: i32 = out[j];
            let mut i: usize = 0;
            while i < INPUT
                invariant
                    i <= INPUT,
                    j < OUTPUT,
                    self.fits(),
                    sum == self.biases@[j as int] + dot(
                        self.weights@[j as int]@,
                        inputs@,
                        i as int,
                    ),
                decreases INPUT - i,
            {
                let weight: i8 = self.weights[j][i];
                let input: u8 = inputs[i];
                proof {
                    lemma_dot_bounds(self.weights@[j as int]@, inputs@, i as int);
                    lemma_dot_bounds(self.weights@[j as int]@, inputs@, i + 1);
                    assert(-32640 <= weight * input <= 32640) by (nonlinear_arith)
                        requires
                            -128 <= weight <= 127,
                            0 <= input <= 255,
                    ;
                    assert(32640 * (i + 1) <= 32640 * INPUT) by (nonlinear_arith)
                        requires
                            i < INPUT,
                    ;
                    assert(self.biases@[j as int] <= i32::MAX - 32640 * INPUT);
                }
                sum = sum + weight as i32 * input as i32;
                i += 1;
            }
            out[j] = sum;
            j += 1;
        }
        out
    }
}

/// The network's output in centipawns: `x` times `UNITS` over
/// `FT_SCALE * SCALE`, rounded toward zero and kept within 16 bits.
pub open spec fn centipawns(x: int) -> int {
    let q = crate::tapered::trunc_div(x * UNITS, FT_SCALE * SCALE);
    if q > i16::MAX {
        i16::MAX as int
    } else if q < i16::MIN {
        i16::MIN as int
    } else {
        q
    }
}

pub fn out(x: i32) -> (r: i16)
    ensures
        r == centipawns(x as int),
{
    let q: i64 = (x as i64 * 400) / 16320;
    if q > 32767 {
        32767
    } else if q < -32768 {
        -32768
    } else {
        q as i16
    }
}

/// The activation between the two layers: the input clipped to
/// `0..=FT_SCALE`, squared, and shifted right by `SHIFT`.
pub open spec fn activation(x: i16) -> int {
    let c: int = if x < 0 {
        0
    } else if x > FT_SCALE {
        FT_SCALE as int
    } else {
        x as int
    };
    (c * c) / 256
}

pub fn sq_clipped_relu<const N: usize>(input: &[i16; N], output: &mut [u8; N])
    ensures
        forall|i: int| 0 <= i < N ==> #[trigger] final(output)@[i] == activation(input@[i]),
{
    let mut i: usize = 0;
    while i < N
        invariant
            i <= N,
            forall|k: int| 0 <= k < i ==> #[trigger] output@[k] == activation(input@[k]),
        decreases N - i,
    {
        let x: i16 = input[i];
        let clamped: u16 = if x < 0 {
            0
        } else if x > FT_SCALE {
            255
        } else {
            x as u16
        };
        assert(clamped * clamped <= 65025) by (nonlinear_arith)
            requires
                0 <= clamped <= 255,
        ;
        let squared: u16 = clamped * clamped;
        let shifted: u16 = squared >> 8;
        assert(shifted == squared / 256) by (bit_vector)
            requires
                shifted == squared >> 8,
        ;
        output[i] = shifted as u8;
        i += 1;
    }
}

} // verus!
