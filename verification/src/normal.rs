use vstd::prelude::*;
use crate::tapered::{fits_i32, trunc_div};

verus! {

/// Centipawns per unit of network output.
pub const UNITS: i16 = 170;

/// Scale of the activations and of the weights.
pub const SCALE: i16 = 64;

/// Piece-square sums kept up to date feature by feature.
#[derive(Debug, Clone)]
pub struct Psqt<'a, const INPUT: usize, const OUTPUT: usize> {
    pub weights: &'a [[i32; OUTPUT]; INPUT],
    pub out: [i32; OUTPUT],
}

impl<'a, const INPUT: usize, const OUTPUT: usize> Psqt<'a, INPUT, OUTPUT> {
    pub fn new(weights: &'a [[i32; OUTPUT]; INPUT]) -> (r: Self)
        ensures
            r.weights == weights,
            forall|j: int| 0 <= j < OUTPUT ==> #[trigger] r.out@[j] == 0,
    {
        Psqt { weights, out: [0i32; OUTPUT] }
    }

    /// Adds `change` times the row of feature `index` to the outputs.
    pub fn incr_ff(&mut self, index: usize, change: i32)
        requires
            index < INPUT,
            forall|j: int|
                0 <= j < OUTPUT ==> fits_i32(#[trigger] old(self).weights@[index as int]@[j] * change)
                    && fits_i32(old(self).out@[j] + old(self).weights@[index as int]@[j] * change),
        ensures
            final(self).weights == old(self).weights,
            forall|j: int|
                0 <= j < OUTPUT ==> #[trigger] final(self).out@[j] == old(self).out@[j] + old(
                    self,
                ).weights@[index as int]@[j] * change,
    {
        let mut j: usize = 0;
        while j < OUTPUT
            invariant
                j <= OUTPUT,
                index < INPUT,
                self.weights == old(self).weights,
                forall|k: int|
                    0 <= k < OUTPUT ==> fits_i32(
                        #[trigger] old(self).weights@[index as int]@[k] * change,
                    ) && fits_i32(old(self).out@[k] + old(self).weights@[index as int]@[k] * change),
                forall|k: int|
                    0 <= k < j ==> #[trigger] self.out@[k] == old(self).out@[k] + old(
                        self,
                    ).weights@[index as int]@[k] * change,
                forall|k: int| j <= k < OUTPUT ==> #[trigger] self.out@[k] == old(self).out@[k],
            decreases OUTPUT - j,
        {
            let weight: i32 = self.weights[index][j];
            assert(fits_i32(old(self).weights@[index as int]@[j as int] * change));
            self.out[j] = self.out[j] + weight * change;
            j += 1;
        }
    }

    pub fn get(&self) -> (r: &[i32; OUTPUT])
        ensures
            *r == self.out,
    {
        &self.out
    }
}

/// Whether `v` fits a signed 16-bit integer.
pub open spec fn fits_i16(v: int) -> bool {
    i16::MIN <= v <= i16::MAX
}

/// A first layer kept up to date feature by feature.
#[derive(Debug, Clone)]
pub struct Incremental<'a, const INPUT: usize, const OUTPUT: usize> {
    pub weights: &'a [[i8; OUTPUT]; INPUT],
    pub out: [i16; OUTPUT],
}

impl<'a, const INPUT: usize, const OUTPUT: usize> Incremental<'a, INPUT, OUTPUT> {
    pub fn new(weights: &'a [[i8; OUTPUT]; INPUT], bias: [i16; OUTPUT]) -> (r: Self)
        ensures
            r.weights == weights,
            r.out == bias,
    {
        Incremental { weights, out: bias }
    }

    /// Adds `change` times the row of feature `index` to the outputs.
    pub fn incr_ff(&mut self, index: usize, change: i16)
        requires
            index < INPUT,
            forall|j: int|
                0 <= j < OUTPUT ==> fits_i16(#[trigger] old(self).weights@[index as int]@[j] * change)
                    && fits_i16(old(self).out@[j] + old(self).weights@[index as int]@[j] * change),
        ensures
            final(self).weights == old(self).weights,
            forall|j: int|
                0 <= j < OUTPUT ==> #[trigger] final(self).out@[j] == old(self).out@[j] + old(
                    self,
                ).weights@[index as int]@[j] * change,
    {
        let mut j: usize = 0;
        while j < OUTPUT
            invariant
                j <= OUTPUT,
                index < INPUT,
                self.weights == old(self).weights,
                forall|k: int|
                    0 <= k < OUTPUT ==> fits_i16(
                        #[trigger] old(self).weights@[index as int]@[k] * change,
                    ) && fits_i16(old(self).out@[k] + old(self).weights@[index as int]@[k] * change),
                forall|k: int|
                    0 <= k < j ==> #[trigger] self.out@[k] == old(self).out@[k] + old(
                        self,
                    ).weights@[index as int]@[k] * change,
                forall|k: int| j <= k < OUTPUT ==> #[trigger] self.out@[k] == old(self).out@[k],
            decreases OUTPUT - j,
        {
            let weight: i8 = self.weights[index][j];
            assert(fits_i16(old(self).weights@[index as int]@[j as int] * change));
            self.out[j] = self.out[j] + weight as i16 * change;
            j += 1;
        }
    }

    pub fn get(&self) -> (r: &[i16; OUTPUT])
        ensures
            *r == self.out,
    {
        &self.out
    }
}

/// Sum over the first `n` inputs of input times the weight that leads
/// from it to output `bucket`.
pub open spec fn column_dot<const O: usize>(
    weights: Seq<[i8; O]>,
    inputs: Seq<i8>,
    bucket: int,
    n: int,
) -> int
    decreases n,
{
    if n <= 0 {
        0
    } else {
        column_dot(weights, inputs, bucket, n - 1) + weights[n - 1]@[bucket] * inputs[n - 1]
    }
}

/// Sum over the first `n` inputs of the weight that leads to output
/// `bucket` times half the difference of the two sides' inputs, each
/// product halved toward zero.
pub open spec fn column_sym<const O: usize>(
    weights: Seq<[i8; O]>,
    w_inputs: Seq<i8>,
    b_inputs: Seq<i8>,
    bucket: int,
    n: int,
) -> int
    decreases n,
{
    if n <= 0 {
        0
    } else {
        column_sym(weights, w_inputs, b_inputs, bucket, n - 1) + trunc_div(
            weights[n - 1]@[bucket] * (w_inputs[n - 1] - b_inputs[n - 1]),
            2,
        )
    }
}

/// A dense layer of which one output, the bucket, is computed at a time.
#[derive(Debug, Clone)]
pub struct Dense<'a, const INPUT: usize, const OUTPUT: usize> {
    pub weights: &'a [[i8; OUTPUT]; INPUT],
    pub bias: [i32; OUTPUT],
}

impl<'a, const INPUT: usize, const OUTPUT: usize> Dense<'a, INPUT, OUTPUT> {
    pub fn new(weights: &'a [[i8; OUTPUT]; INPUT], bias: [i16; OUTPUT]) -> (r: Self)
        ensures
            r.weights == weights,
            forall|j: int| 0 <= j < OUTPUT ==> #[trigger] r.bias@[j] == bias@[j],
    {
        Dense { weights, bias: i16_to_i32(bias) }
    }

    /// The bias and the weighted sum of the inputs for output `bucket`;
    /// the other outputs are their biases.
    pub fn ff(&self, inputs: &[i8; INPUT], bucket: usize) -> (out: [i32; OUTPUT])
        requires
            bucket < OUTPUT,
            i32::MIN + 16384 * INPUT <= self.bias@[bucket as int] <= i32::MAX - 16384 * INPUT,
        ensures
            out@[bucket as int] == self.bias@[bucket as int] + column_dot(
                self.weights@,
                inputs@,
                bucket as int,
                INPUT as int,
            ),
            forall|j: int| 0 <= j < OUTPUT && j != bucket ==> #[trigger] out@[j] == self.bias@[j],
    {
        let mut out: [i32; OUTPUT] = self.bias;
        let mut sum: i32 = out[bucket];
        let mut i: usize = 0;
        while i < INPUT
            invariant
                i <= INPUT,
                bucket < OUTPUT,
                i32::MIN + 16384 * INPUT <= self.bias@[bucket as int] <= i32::MAX - 16384 * INPUT,
                sum == self.bias@[bucket as int] + column_dot(
                    self.weights@,
                    inputs@,
                    bucket as int,
                    i as int,
                ),
                -16384 * i <= column_dot(self.weights@, inputs@, bucket as int, i as int) <= 16384
                    * i,
            decreases INPUT - i,
        {
            let weight: i8 = self.weights[i][bucket];
            let input: i8 = inputs[i];
            assert(-16384 <= weight * input <= 16384) by (nonlinear_arith)
                requires
                    -128 <= weight <= 127,
                    -128 <= input <= 127,
            ;
            assert(16384 * (i + 1) <= 16384 * INPUT) by (nonlinear_arith)
                requires
                    i < INPUT,
            ;
            sum = sum + weight as i32 * input as i32;
            i += 1;
        }
        out[bucket] = sum;
        out
    }

    /// For output `bucket`, the weighted sum of half the difference of the
    /// two sides' inputs; the other outputs are 0.
    pub fn ff_sym(&self, w_inputs: &[i8; INPUT], b_inputs: &[i8; INPUT], bucket: usize) -> (out: [
        i32;
        OUTPUT
    ])
        requires
            bucket < OUTPUT,
            16384 * INPUT <= i32::MAX,
        ensures
            out@[bucket as int] == column_sym(
                self.weights@,
                w_inputs@,
                b_inputs@,
                bucket as int,
                INPUT as int,
            ),
            forall|j: int| 0 <= j < OUTPUT && j != bucket ==> #[trigger] out@[j] == 0,
    {
        let mut out: [i32; OUTPUT] = [0i32; OUTPUT];
        let mut sum: i32 = 0;
        let mut i: usize = 0;
        while i < INPUT
            invariant
                i <= INPUT,
                bucket < OUTPUT,
                16384 * INPUT <= i32::MAX,
                sum == column_sym(self.weights@, w_inputs@, b_inputs@, bucket as int, i as int),
                -16384 * i <= sum <= 16384 * i,
            decreases INPUT - i,
        {
            let weight: i8 = self.weights[i][bucket];
            let diff: i32 = w_inputs[i] as i32 - b_inputs[i] as i32;
            assert(-32768 <= weight * diff <= 32768) by (nonlinear_arith)
                requires
                    -128 <= weight <= 127,
                    -255 <= diff <= 255,
            ;
            assert(16384 * (i + 1) <= 16384 * INPUT) by (nonlinear_arith)
                requires
                    i < INPUT,
            ;
            sum = sum + weight as i32 * diff / 2;
            i += 1;
        }
        out[bucket] = sum;
        out
    }
}

/// The network's output in centipawns: `x` times `UNITS` over the square
/// of `SCALE`, rounded toward zero and kept within 16 bits.
pub open spec fn centipawns(x: int) -> int {
    let q = trunc_div(x * UNITS, SCALE * SCALE);
    if q > i16::MAX {
        i16::MAX as int
    } else if q < i16::MIN {
        i16::MIN as int
    } else {
        q
    }
}

pub fn out(x: i32) -> (r: i16)
    ensures
        r == centipawns(x as int),
{
    let q: i64 = (x as i64 * 170) / 4096;
    if q > 32767 {
        32767
    } else if q < -32768 {
        -32768
    } else {
        q as i16
    }
}

/// The same numbers in 32 bits.
pub fn i16_to_i32<const N: usize>(array: [i16; N]) -> (out: [i32; N])
    ensures
        forall|j: int| 0 <= j < N ==> #[trigger] out@[j] == array@[j],
{
    let mut out: [i32; N] = [0i32; N];
    let mut index: usize = 0;
    while index < N
        invariant
            index <= N,
            forall|j: int| 0 <= j < index ==> #[trigger] out@[j] == array@[j],
        decreases N - index,
    {
        out[index] = array[index] as i32;
        index += 1;
    }
    out
}

/// An input clipped to `0..=SCALE`.
pub open spec fn clipped(x: i16) -> int {
    if x < 0 {
        0
    } else if x > SCALE {
        SCALE as int
    } else {
        x as int
    }
}

pub fn clipped_relu<const N: usize>(array: [i16; N]) -> (out: [i8; N])
    ensures
        forall|j: int| 0 <= j < N ==> #[trigger] out@[j] == clipped(array@[j]),
{
    let mut out: [i8; N] = [0i8; N];
    let mut index: usize = 0;
    while index < N
        invariant
            index <= N,
            forall|j: int| 0 <= j < index ==> #[trigger] out@[j] == clipped(array@[j]),
        decreases N - index,
    {
        let x: i16 = array[index];
        out[index] = if x < 0 {
            0
        } else if x > SCALE {
            64
        } else {
            x as i8
        };
        index += 1;
    }
    out
}

} // verus!
