use vstd::prelude::*;
use crate::layers::{BitLinear, Linear};

verus! {

/// Number of input features: king square, piece color, piece kind, piece
/// square.
pub const INPUT: usize = 49152;

/// Width of the hidden layer, per perspective.
pub const MID: usize = 256;

/// Both perspectives side by side.
pub const MID2: usize = 512;

/// Number of outputs.
pub const OUTPUT: usize = 1;

/// The little-endian unsigned value of two bytes.
pub open spec fn le_u16(b0: u8, b1: u8) -> int {
    b0 + 256 * b1
}

/// The little-endian two's-complement value of two bytes.
pub open spec fn le_i16(b0: u8, b1: u8) -> int {
    if le_u16(b0, b1) < 32768 {
        le_u16(b0, b1)
    } else {
        le_u16(b0, b1) - 65536
    }
}

/// The two's-complement value of one byte.
pub open spec fn as_i8(b: u8) -> int {
    if b < 128 {
        b as int
    } else {
        b - 256
    }
}

/// The little-endian unsigned value of the four bytes of `bytes` at `at`.
pub open spec fn le_u32_at(bytes: Seq<u8>, at: int) -> int {
    bytes[at] + 256 * bytes[at + 1] + 65536 * bytes[at + 2] + 16777216 * bytes[at + 3]
}

/// The signed 16-bit numbers of `bytes` from `start` on, number `n`.
pub open spec fn i16_at(bytes: Seq<u8>, start: int, n: int) -> int {
    le_i16(bytes[start + 2 * n], bytes[start + 2 * n + 1])
}

/// Number of bytes that a first layer of `i` inputs and `o` outputs takes.
pub open spec fn ft_len(i: int, o: int) -> int {
    2 * (i * o + o)
}

/// Number of bytes that a dense layer of `i` inputs and `o` outputs takes.
pub open spec fn linear_len(i: int, o: int) -> int {
    o * i + 2 * o
}

/// Whether `ft` holds what `bytes` spell from `start` on: the rows of
/// weights one after the other, then the biases, 16 bits each.
pub open spec fn ft_decodes<const I: usize, const O: usize>(
    bytes: Seq<u8>,
    start: int,
    ft: BitLinear<I, O>,
) -> bool {
    &&& forall|i: int, j: int|
        0 <= i < I && 0 <= j < O ==> (#[trigger] ft.weights@[i]@[j]) == i16_at(
            bytes,
            start,
            i * O + j,
        )
    &&& forall|j: int| 0 <= j < O ==> (#[trigger] ft.biases@[j]) == i16_at(bytes, start, I * O + j)
}

/// Whether `linear` holds what `bytes` spell from `start` on: for each
/// output its row of 8-bit weights, then the biases, 16 bits each, read as
/// unsigned.
pub open spec fn linear_decodes<const I: usize, const O: usize>(
    bytes: Seq<u8>,
    start: int,
    linear: Linear<I, O>,
) -> bool {
    &&& forall|o: int, k: int|
        0 <= o < O && 0 <= k < I ==> (#[trigger] linear.weights@[o]@[k]) == as_i8(
            bytes[start + o * I + k],
        )
    &&& forall|o: int|
        0 <= o < O ==> (#[trigger] linear.biases@[o]) == le_u16(
            bytes[start + O * I + 2 * o],
            bytes[start + O * I + 2 * o + 1],
        )
}

/// Reads a signed 16-bit number.
fn read_i16(src: &[u8], at: usize) -> (r: i16)
    requires
        at + 2 <= src@.len(),
    ensures
        r == le_i16(src@[at as int], src@[at + 1]),
{
    let u: i32 = src[at] as i32 + 256 * (src[at + 1] as i32);
    if u < 32768 {
        u as i16
    } else {
        (u - 65536) as i16
    }
}

/// Reads an unsigned 32-bit number.
fn read_u32(src: &[u8], at: usize) -> (r: u32)
    requires
        at + 4 <= src@.len(),
    ensures
        r == le_u32_at(src@, at as int),
{
    let b0: u32 = src[at] as u32;
    let b1: u32 = src[at + 1] as u32;
    let b2: u32 = src[at + 2] as u32;
    let b3: u32 = src[at + 3] as u32;
    b0 + 256 * b1 + 65536 * b2 + 16777216 * b3
}

/// Calls `bytemuck::zeroed_box`, which allocates on the heap and fills the
/// allocation with zero bytes; for an array of integers that is an array
/// of zeros.
#[verifier::external_body]
fn zeroed_rows<const I: usize, const O: usize>() -> (r: Box<[[i16; O]; I]>)
    ensures
        forall|i: int, j: int| 0 <= i < I && 0 <= j < O ==> (#[trigger] r@[i]@[j]) == 0,
{
    bytemuck::zeroed_box()
}

/// Reads a first layer from `src` at `start`; `None` where `src` ends
/// before the layer does.
pub fn read_ft<const I: usize, const O: usize>(src: &[u8], start: usize) -> (r: Option<
    BitLinear<I, O>,
>)
    requires
        start <= src@.len(),
    ensures
        r is Some <==> start + ft_len(I as int, O as int) <= src@.len(),
        r matches Some(ft) ==> ft_decodes(src@, start as int, ft),
{
    let mut ft = BitLinear { weights: zeroed_rows::<I, O>(), biases: [0i16; O] };
    let mut pos: usize = start;
    let mut i: usize = 0;
    while i < I
        invariant
            i <= I,
            start <= pos <= src@.len(),
            pos == start + 2 * (i * O),
            forall|a: int, b: int|
                0 <= a < i && 0 <= b < O ==> (#[trigger] ft.weights@[a]@[b]) == i16_at(
                    src@,
                    start as int,
                    a * O + b,
                ),
        decreases I - i,
    {
        let mut j: usize = 0;
        while j < O
            invariant
                i < I,
                j <= O,
                start <= pos <= src@.len(),
                pos == start + 2 * (i * O + j),
                forall|a: int, b: int|
                    0 <= a < i && 0 <= b < O ==> (#[trigger] ft.weights@[a]@[b]) == i16_at(
                        src@,
                        start as int,
                        a * O + b,
                    ),
                forall|b: int|
                    0 <= b < j ==> (#[trigger] ft.weights@[i as int]@[b]) == i16_at(
                        src@,
                        start as int,
                        i * O + b,
                    ),
            decreases O - j,
        {
            if src.len() - pos < 2 {
                proof {
                    lemma_within(i as int, j as int, I as int, O as int);
                }
                return None;
            }
            let v: i16 = read_i16(src, pos);
            ft.weights[i][j] = v;
            pos += 2;
            j += 1;
        }
        proof {
            assert((i + 1) * O == i * O + O) by (nonlinear_arith);
        }
        i += 1;
    }
    let mut j: usize = 0;
    while j < O
        invariant
            j <= O,
            start <= pos <= src@.len(),
            pos == start + 2 * (I * O + j),
            forall|a: int, b: int|
                0 <= a < I && 0 <= b < O ==> (#[trigger] ft.weights@[a]@[b]) == i16_at(
                    src@,
                    start as int,
                    a * O + b,
                ),
            forall|b: int|
                0 <= b < j ==> (#[trigger] ft.biases@[b]) == i16_at(src@, start as int, I * O + b),
        decreases O - j,
    {
        if src.len() - pos < 2 {
            return None;
        }
        let v: i16 = read_i16(src, pos);
        ft.biases[j] = v;
        pos += 2;
        j += 1;
    }
    Some(ft)
}

/// Entry `j` of row `i` comes before the end of `rows` rows of `width`.
proof fn lemma_within(i: int, j: int, rows: int, width: int)
    requires
        0 <= i < rows,
        0 <= j < width,
    ensures
        i * width + j < rows * width,
{
    assert(i * width + j < rows * width) by (nonlinear_arith)
        requires
            0 <= i < rows,
            0 <= j < width,
    ;
}

/// Reads a dense layer from `src` at `start`; `None` where `src` ends
/// before the layer does.
pub fn read_linear<const I: usize, const O: usize>(src: &[u8], start: usize) -> (r: Option<
    Linear<I, O>,
>)
    requires
        start <= src@.len(),
    ensures
        r is Some <==> start + linear_len(I as int, O as int) <= src@.len(),
        r matches Some(linear) ==> linear_decodes(src@, start as int, linear),
{
    let mut linear = Linear { weights: [[0i8; I]; O], biases: [0i32; O] };
    let mut pos: usize = start;
    let mut o: usize = 0;
    while o < O
        invariant
            o <= O,
            start <= pos <= src@.len(),
            pos == start + o * I,
            forall|a: int, b: int|
                0 <= a < o && 0 <= b < I ==> (#[trigger] linear.weights@[a]@[b]) == as_i8(
                    src@[start + a * I + b],
                ),
        decreases O - o,
    {
        let mut k: usize = 0;
        while k < I
            invariant
                o < O,
                k <= I,
                start <= pos <= src@.len(),
                pos == start + o * I + k,
                forall|a: int, b: int|
                    0 <= a < o && 0 <= b < I ==> (#[trigger] linear.weights@[a]@[b]) == as_i8(
                        src@[start + a * I + b],
                    ),
                forall|b: int|
                    0 <= b < k ==> (#[trigger] linear.weights@[o as int]@[b]) == as_i8(
                        src@[start + o * I + b],
                    ),
            decreases I - k,
        {
            if src.len() - pos < 1 {
                proof {
                    lemma_within(o as int, k as int, O as int, I as int);
                }
                return None;
            }
            let b: u8 = src[pos];
            let v: i8 = if b < 128 {
                b as i8
            } else {
                (b as i16 - 256) as i8
            };
            linear.weights[o][k] = v;
            pos += 1;
            k += 1;
        }
        proof {
            assert((o + 1) * I == o * I + I) by (nonlinear_arith);
        }
        o += 1;
    }
    let mut o: usize = 0;
    while o < O
        invariant
            o <= O,
            start <= pos <= src@.len(),
            pos == start + O * I + 2 * o,
            forall|a: int, b: int|
                0 <= a < O && 0 <= b < I ==> (#[trigger] linear.weights@[a]@[b]) == as_i8(
                    src@[start + a * I + b],
                ),
            forall|a: int|
                0 <= a < o ==> (#[trigger] linear.biases@[a]) == le_u16(
                    src@[start + O * I + 2 * a],
                    src@[start + O * I + 2 * a + 1],
                ),
        decreases O - o,
    {
        if src.len() - pos < 2 {
            return None;
        }
        let v: i32 = src[pos] as i32 + 256 * (src[pos + 1] as i32);
        linear.biases[o] = v;
        pos += 2;
        o += 1;
    }
    Some(linear)
}

/// Number of bytes of a network file.
pub const FILE_LEN: usize = 25166862;

/// Where the output layer starts in a network file.
pub const L1_START: usize = 25166348;

/// Why a network could not be loaded.
#[derive(Clone, Copy, Debug, PartialEq, Eq, Structural)]
pub enum LoadError {
    /// The bytes are not a network of this architecture: they end before
    /// the network does, or their header names another architecture.
    InvalidData,
}

/// The network: the first layer over the board's features, and the output
/// layer over both perspectives' activations.
#[derive(Debug, Clone)]
pub struct Nnue {
    pub ft: BitLinear<INPUT, MID>,
    pub l1: Linear<MID2, OUTPUT>,
}

/// Whether the three words at the start of `bytes` name this architecture.
pub open spec fn header_matches(bytes: Seq<u8>) -> bool {
    &&& le_u32_at(bytes, 0) == INPUT
    &&& le_u32_at(bytes, 4) == MID
    &&& le_u32_at(bytes, 8) == OUTPUT
}

/// Whether `nnue` holds what `bytes` spell: the header, then the first
/// layer, then the output layer. What follows them is not looked at.
pub open spec fn decodes(bytes: Seq<u8>, nnue: Nnue) -> bool {
    &&& bytes.len() >= FILE_LEN
    &&& header_matches(bytes)
    &&& ft_decodes(bytes, 12, nnue.ft)
    &&& linear_decodes(bytes, L1_START as int, nnue.l1)
}

/// What loading `bytes` gives: a network that holds what the bytes spell,
/// or an error where they end too early or name another architecture.
pub open spec fn is_load_of(bytes: Seq<u8>, r: Result<Nnue, LoadError>) -> bool {
    match r {
        Ok(nnue) => decodes(bytes, nnue),
        Err(LoadError::InvalidData) => bytes.len() < FILE_LEN || !header_matches(bytes),
    }
}

impl Nnue {
    /// Output-layer biases are stored in 16 bits.
    pub open spec fn wf(&self) -> bool {
        forall|o: int| 0 <= o < OUTPUT ==> 0 <= #[trigger] self.l1.biases@[o] < 65536
    }

    /// Every weight and bias of `self` is that of `other`.
    pub open spec fn same_weights(&self, other: &Nnue) -> bool {
        &&& forall|i: int, j: int|
            0 <= i < INPUT && 0 <= j < MID ==> (#[trigger] self.ft.weights@[i]@[j])
                == other.ft.weights@[i]@[j]
        &&& forall|j: int| 0 <= j < MID ==> (#[trigger] self.ft.biases@[j]) == other.ft.biases@[j]
        &&& forall|o: int, k: int|
            0 <= o < OUTPUT && 0 <= k < MID2 ==> (#[trigger] self.l1.weights@[o]@[k])
                == other.l1.weights@[o]@[k]
        &&& forall|o: int|
            0 <= o < OUTPUT ==> (#[trigger] self.l1.biases@[o]) == other.l1.biases@[o]
    }

    /// Whether the output-layer biases fit 16 bits.
    pub fn is_wf(&self) -> (r: bool)
        ensures
            r == self.wf(),
    {
        0 <= self.l1.biases[0] && self.l1.biases[0] < 65536
    }

    /// Loads a network from the bytes of its file.
    pub fn read_from(src: &[u8]) -> (r: Result<Nnue, LoadError>)
        ensures
            is_load_of(src@, r),
            r matches Ok(nnue) ==> nnue.wf(),
    {
        if src.len() < 12 {
            return Err(LoadError::InvalidData);
        }
        let input_size: u32 = read_u32(src, 0);
        let mid_size: u32 = read_u32(src, 4);
        let out_size: u32 = read_u32(src, 8);
        if input_size != 49152 || mid_size != 256 || out_size != 1 {
            return Err(LoadError::InvalidData);
        }
        let ft = match read_ft::<INPUT, MID>(src, 12) {
            Some(ft) => ft,
            None => {
                return Err(LoadError::InvalidData);
            },
        };
        let l1 = match read_linear::<MID2, OUTPUT>(src, L1_START) {
            Some(l1) => l1,
            None => {
                return Err(LoadError::InvalidData);
            },
        };
        Ok(Nnue { ft, l1 })
    }
}

/// Appends the two little-endian bytes of `v` wrapped to 16 bits.
fn push_16(out: &mut Vec<u8>, v: i32)
    requires
        -32768 <= v < 65536,
    ensures
        final(out)@.len() == old(out)@.len() + 2,
        final(out)@.take(old(out)@.len() as int) == old(out)@,
        v < 32768 ==> le_i16(
            final(out)@[old(out)@.len() as int],
            final(out)@[old(out)@.len() as int + 1],
        ) == v,
        v >= 0 ==> le_u16(final(out)@[old(out)@.len() as int], final(out)@[old(out)@.len() as int + 1])
            == v,
{
    let u: i32 = if v < 0 {
        v + 65536
    } else {
        v
    };
    out.push((u % 256) as u8);
    out.push((u / 256) as u8);
    assert(final(out)@.take(old(out)@.len() as int) =~= old(out)@);
}

/// Appends the four little-endian bytes of `v`.
fn push_u32(out: &mut Vec<u8>, v: u32)
    ensures
        final(out)@.len() == old(out)@.len() + 4,
        final(out)@.take(old(out)@.len() as int) == old(out)@,
        le_u32_at(final(out)@, old(out)@.len() as int) == v,
{
    out.push((v % 256) as u8);
    out.push(((v / 256) % 256) as u8);
    out.push(((v / 65536) % 256) as u8);
    out.push((v / 16777216) as u8);
    assert(final(out)@.take(old(out)@.len() as int) =~= old(out)@);
}

impl Nnue {
    /// The bytes of the network's file.
    pub fn to_bytes(&self) -> (out: Vec<u8>)
        requires
            self.wf(),
        ensures
            out@.len() == FILE_LEN,
            decodes(out@, *self),
    {
        let mut out: Vec<u8> = Vec::new();
        push_u32(&mut out, 49152);
        push_u32(&mut out, 256);
        push_u32(&mut out, 1);
        let ghost header = out@;
        let mut i: usize = 0;
        while i < INPUT
            invariant
                i <= INPUT,
                out@.len() == 12 + 2 * (i * MID),
                out@.take(12) == header,
                forall|a: int, b: int|
                    0 <= a < i && 0 <= b < MID ==> (#[trigger] self.ft.weights@[a]@[b]) == i16_at(
                        out@,
                        12,
                        a * MID + b,
                    ),
            decreases INPUT - i,
        {
            let mut j: usize = 0;
            while j < MID
                invariant
                    i < INPUT,
                    j <= MID,
                    out@.len() == 12 + 2 * (i * MID + j),
                    out@.take(12) == header,
                    forall|a: int, b: int|
                        0 <= a < i && 0 <= b < MID ==> (#[trigger] self.ft.weights@[a]@[b])
                            == i16_at(out@, 12, a * MID + b),
                    forall|b: int|
                        0 <= b < j ==> (#[trigger] self.ft.weights@[i as int]@[b]) == i16_at(
                            out@,
                            12,
                            i * MID + b,
                        ),
                decreases MID - j,
            {
                let ghost before = out@;
                push_16(&mut out, self.ft.weights[i][j] as i32);
                proof {
                    lemma_take_keeps(before, out@, 12);
                    assert forall|a: int, b: int| 0 <= a < i && 0 <= b < MID implies (
                    #[trigger] self.ft.weights@[a]@[b]) == i16_at(out@, 12, a * MID + b) by {
                        lemma_within(a, b, i as int, MID as int);
                        lemma_i16_at_keeps(before, out@, 12, a * MID + b);
                    }
                    assert forall|b: int| 0 <= b < j implies (#[trigger] self.ft.weights@[i as int]@[b])
                        == i16_at(out@, 12, i * MID + b) by {
                        lemma_i16_at_keeps(before, out@, 12, i * MID + b);
                    }
                }
                j += 1;
            }
            i += 1;
        }
        let mut j: usize = 0;
        while j < MID
            invariant
                j <= MID,
                out@.len() == 12 + 2 * (INPUT * MID + j),
                out@.take(12) == header,
                forall|a: int, b: int|
                    0 <= a < INPUT && 0 <= b < MID ==> (#[trigger] self.ft.weights@[a]@[b])
                        == i16_at(out@, 12, a * MID + b),
                forall|b: int|
                    0 <= b < j ==> (#[trigger] self.ft.biases@[b]) == i16_at(
                        out@,
                        12,
                        INPUT * MID + b,
                    ),
            decreases MID - j,
        {
            let ghost before = out@;
            push_16(&mut out, self.ft.biases[j] as i32);
            proof {
                lemma_take_keeps(before, out@, 12);
                assert forall|a: int, b: int| 0 <= a < INPUT && 0 <= b < MID implies (
                #[trigger] self.ft.weights@[a]@[b]) == i16_at(out@, 12, a * MID + b) by {
                    lemma_within(a, b, INPUT as int, MID as int);
                    lemma_i16_at_keeps(before, out@, 12, a * MID + b);
                }
                assert forall|b: int| 0 <= b < j implies (#[trigger] self.ft.biases@[b]) == i16_at(
                    out@,
                    12,
                    INPUT * MID + b,
                ) by {
                    lemma_i16_at_keeps(before, out@, 12, INPUT * MID + b);
                }
            }
            j += 1;
        }
        let ghost first = out@;
        let mut k: usize = 0;
        while k < MID2
            invariant
                k <= MID2,
                out@.len() == L1_START + k,
                out@.take(L1_START as int) == first,
                forall|b: int|
                    0 <= b < k ==> (#[trigger] self.l1.weights@[0]@[b]) == as_i8(
                        out@[L1_START + b],
                    ),
            decreases MID2 - k,
        {
            let ghost before = out@;
            let w: i8 = self.l1.weights[0][k];
            let b: u8 = if w < 0 {
                (w as i16 + 256) as u8
            } else {
                w as u8
            };
            out.push(b);
            proof {
                assert(out@.take(before.len() as int) =~= before);
                lemma_take_keeps(before, out@, L1_START as int);
            }
            k += 1;
        }
        let ghost weights = out@;
        push_16(&mut out, self.l1.biases[0]);
        proof {
            let s = out@;
            assert(s.take(12) =~= header) by {
                lemma_take_keeps(weights, s, L1_START as int);
                lemma_take_keeps(first, s, 12);
            }
            assert(header_matches(s)) by {
                assert(forall|a: int| 0 <= a < 12 ==> s[a] == s.take(12)[a]);
            }
            assert(s.take(L1_START as int) == first) by {
                lemma_take_keeps(weights, s, L1_START as int);
            }
            assert forall|a: int, b: int| 0 <= a < INPUT && 0 <= b < MID implies (
            #[trigger] self.ft.weights@[a]@[b]) == i16_at(s, 12, a * MID + b) by {
                lemma_within(a, b, INPUT as int, MID as int);
                lemma_i16_at_keeps(first, s, 12, a * MID + b);
            }
            assert forall|b: int| 0 <= b < MID implies (#[trigger] self.ft.biases@[b]) == i16_at(
                s,
                12,
                INPUT * MID + b,
            ) by {
                lemma_i16_at_keeps(first, s, 12, INPUT * MID + b);
            }
            assert forall|o: int, b: int| 0 <= o < OUTPUT && 0 <= b < MID2 implies (
            #[trigger] self.l1.weights@[o]@[b]) == as_i8(s[L1_START + o * MID2 + b]) by {
                assert(s.take(weights.len() as int)[L1_START + b] == s[L1_START + b]);
            }
        }
        out
    }
}

/// A sequence that starts with `before` starts with each of its starts.
proof fn lemma_take_keeps(before: Seq<u8>, after: Seq<u8>, n: int)
    requires
        0 <= n <= before.len() <= after.len(),
        after.take(before.len() as int) == before,
    ensures
        after.take(n) == before.take(n),
{
    assert forall|a: int| 0 <= a < n implies after.take(n)[a] == before.take(n)[a] by {
        assert(after.take(before.len() as int)[a] == after[a]);
    }
    assert(after.take(n) =~= before.take(n));
}

/// A number that `before` holds whole is the same in what `before` starts.
proof fn lemma_i16_at_keeps(before: Seq<u8>, after: Seq<u8>, start: int, n: int)
    requires
        0 <= start,
        0 <= n,
        start + 2 * n + 2 <= before.len() <= after.len(),
        after.take(before.len() as int) == before,
    ensures
        i16_at(after, start, n) == i16_at(before, start, n),
{
    assert(after.take(before.len() as int)[start + 2 * n] == after[start + 2 * n]);
    assert(after.take(before.len() as int)[start + 2 * n + 1] == after[start + 2 * n + 1]);
}

/// Loading the bytes that a network was written to gives a network with
/// every weight and bias of the first.
pub proof fn lemma_round_trip(nnue: Nnue, bytes: Seq<u8>, loaded: Result<Nnue, LoadError>)
    requires
        decodes(bytes, nnue),
        is_load_of(bytes, loaded),
    ensures
        loaded is Ok,
        loaded->Ok_0.same_weights(&nnue),
{
}

} // verus!
