use bm_core::layers::{BitLinear, Linear};
use bm_core::model::{read_ft, read_linear, LoadError, Nnue, FILE_LEN, INPUT, L1_START, MID, MID2, OUTPUT};

fn header() -> Vec<u8> {
    let mut bytes = Vec::new();
    bytes.extend_from_slice(&49152u32.to_le_bytes());
    bytes.extend_from_slice(&256u32.to_le_bytes());
    bytes.extend_from_slice(&1u32.to_le_bytes());
    bytes
}

/// A file whose body is a repeating pattern.
fn sample_file() -> Vec<u8> {
    let mut bytes = header();
    let mut state: u32 = 99;
    while bytes.len() < FILE_LEN {
        state = state.wrapping_mul(1103515245).wrapping_add(12345);
        bytes.push((state >> 16) as u8);
    }
    bytes
}

fn error_of(r: Result<Nnue, LoadError>) -> LoadError {
    match r {
        Ok(_) => panic!("loaded"),
        Err(e) => e,
    }
}

#[test]
fn architecture_constants() {
    assert_eq!(INPUT, 64 * 2 * 6 * 64);
    assert_eq!(MID2, MID * 2);
    assert_eq!(OUTPUT, 1);
    assert_eq!(L1_START, 12 + 2 * INPUT * MID + 2 * MID);
    assert_eq!(FILE_LEN, 12 + 2 * INPUT * MID + 2 * MID + OUTPUT * MID * 2 + 2 * OUTPUT);
}

#[test]
fn read_from_short_header_is_invalid_data() {
    assert_eq!(error_of(Nnue::read_from(&[])), LoadError::InvalidData);
    assert_eq!(error_of(Nnue::read_from(&header()[..11])), LoadError::InvalidData);
}

#[test]
fn read_from_other_input_size_is_invalid_data() {
    let mut bytes = sample_file();
    bytes[0] = 1;
    assert_eq!(error_of(Nnue::read_from(&bytes)), LoadError::InvalidData);
}

#[test]
fn read_from_other_mid_size_is_invalid_data() {
    let mut bytes = header();
    bytes[5] = 2;
    assert_eq!(error_of(Nnue::read_from(&bytes)), LoadError::InvalidData);
}

#[test]
fn read_from_other_output_size_is_invalid_data() {
    let mut bytes = sample_file();
    bytes[8] = 2;
    assert_eq!(error_of(Nnue::read_from(&bytes)), LoadError::InvalidData);
    bytes[8] = 1;
    bytes[11] = 1;
    assert_eq!(error_of(Nnue::read_from(&bytes)), LoadError::InvalidData);
}

#[test]
fn read_from_header_alone_is_invalid_data() {
    assert_eq!(error_of(Nnue::read_from(&header())), LoadError::InvalidData);
}

#[test]
fn read_from_one_byte_short_is_invalid_data() {
    let bytes = sample_file();
    assert_eq!(error_of(Nnue::read_from(&bytes[..FILE_LEN - 1])), LoadError::InvalidData);
    assert_eq!(error_of(Nnue::read_from(&bytes[..L1_START])), LoadError::InvalidData);
    assert_eq!(error_of(Nnue::read_from(&bytes[..L1_START - 1])), LoadError::InvalidData);
}

#[test]
fn read_from_decodes_every_field_little_endian() {
    let mut bytes = sample_file();
    // first weight: -2
    bytes[12] = 0xfe;
    bytes[13] = 0xff;
    // weight of feature 1, output 2: 0x1234
    let at = 12 + 2 * (256 + 2);
    bytes[at] = 0x34;
    bytes[at + 1] = 0x12;
    // last weight: -32768
    let last = 12 + 2 * (49152 * 256 - 1);
    bytes[last] = 0x00;
    bytes[last + 1] = 0x80;
    // bias 0: 32767, bias 255: -1
    let bias = 12 + 2 * 49152 * 256;
    bytes[bias] = 0xff;
    bytes[bias + 1] = 0x7f;
    bytes[bias + 510] = 0xff;
    bytes[bias + 511] = 0xff;
    // output weights: -128 first, 127 last
    bytes[L1_START] = 0x80;
    bytes[L1_START + 511] = 0x7f;
    // output bias: the two bytes read as unsigned
    bytes[L1_START + 512] = 0xfe;
    bytes[L1_START + 513] = 0xff;
    let nnue = match Nnue::read_from(&bytes) {
        Ok(n) => n,
        Err(_) => panic!("not loaded"),
    };
    assert_eq!(nnue.ft.weights[0][0], -2);
    assert_eq!(nnue.ft.weights[1][2], 0x1234);
    assert_eq!(nnue.ft.weights[49151][255], -32768);
    assert_eq!(nnue.ft.biases[0], 32767);
    assert_eq!(nnue.ft.biases[255], -1);
    assert_eq!(nnue.l1.weights[0][0], -128);
    assert_eq!(nnue.l1.weights[0][511], 127);
    assert_eq!(nnue.l1.biases[0], 65534);
    assert!(nnue.is_wf());
    // an entry that was left as the pattern wrote it
    let w = i16::from_le_bytes([bytes[12 + 2 * 777], bytes[12 + 2 * 777 + 1]]);
    assert_eq!(nnue.ft.weights[3][9], w);
}

#[test]
fn read_from_ignores_what_follows_the_network() {
    let mut bytes = sample_file();
    let short = match Nnue::read_from(&bytes) {
        Ok(n) => n,
        Err(_) => panic!("not loaded"),
    };
    bytes.extend_from_slice(&[1, 2, 3]);
    let long = match Nnue::read_from(&bytes) {
        Ok(n) => n,
        Err(_) => panic!("not loaded"),
    };
    assert_eq!(short.ft.weights, long.ft.weights);
    assert_eq!(short.l1.biases, long.l1.biases);
}

#[test]
fn load_serialize_round_trip_preserves_every_weight() {
    let bytes = sample_file();
    let nnue = match Nnue::read_from(&bytes) {
        Ok(n) => n,
        Err(_) => panic!("not loaded"),
    };
    let written = nnue.to_bytes();
    assert_eq!(written.len(), FILE_LEN);
    assert!(written == bytes);
    let again = match Nnue::read_from(&written) {
        Ok(n) => n,
        Err(_) => panic!("not loaded"),
    };
    assert!(again.ft.weights == nnue.ft.weights);
    assert_eq!(again.ft.biases, nnue.ft.biases);
    assert_eq!(again.l1.weights, nnue.l1.weights);
    assert_eq!(again.l1.biases, nnue.l1.biases);
}

#[test]
fn is_wf_tells_biases_that_do_not_fit_sixteen_bits() {
    let rows: Vec<[i16; 256]> = vec![[0i16; 256]; 49152];
    let weights: Box<[[i16; 256]; 49152]> = match rows.into_boxed_slice().try_into() {
        Ok(b) => b,
        Err(_) => panic!("wrong number of rows"),
    };
    let mut nnue = Nnue {
        ft: BitLinear { weights, biases: [0; 256] },
        l1: Linear { weights: [[0; 512]; 1], biases: [65535] },
    };
    assert!(nnue.is_wf());
    nnue.l1.biases[0] = 65536;
    assert!(!nnue.is_wf());
    nnue.l1.biases[0] = -1;
    assert!(!nnue.is_wf());
}

#[test]
fn read_ft_reads_rows_then_biases() {
    // two inputs of three outputs, from offset 1
    let bytes2: [u8; 23] =
        [9, 1, 0, 2, 0, 3, 0, 0xff, 0xff, 0, 0x80, 5, 1, 10, 0, 20, 0, 0xfe, 0xff, 7, 7, 7, 7];
    let ft2 = match read_ft::<2, 3>(&bytes2, 1) {
        Some(ft) => ft,
        None => panic!("short"),
    };
    assert_eq!(ft2.biases, [10, 20, -2]);
    assert_eq!(*ft2.weights, [[1, 2, 3], [-1, -32768, 261]]);
}

#[test]
fn read_ft_needs_every_byte() {
    let bytes = [0u8; 20];
    // two inputs of three outputs take 2 * (2 * 3 + 3) = 18 bytes
    assert!(read_ft::<2, 3>(&bytes, 2).is_some());
    assert!(read_ft::<2, 3>(&bytes, 3).is_none());
    assert!(read_ft::<2, 3>(&bytes, 20).is_none());
    assert!(read_ft::<0, 0>(&bytes, 20).is_some());
}

#[test]
fn read_linear_reads_rows_then_unsigned_biases() {
    // four inputs, two outputs, from offset 2
    let bytes: [u8; 14] = [0, 0, 1, 0xff, 0x7f, 0x80, 5, 6, 7, 8, 0x34, 0x12, 0xff, 0xff];
    let linear = match read_linear::<4, 2>(&bytes, 2) {
        Some(l) => l,
        None => panic!("short"),
    };
    assert_eq!(linear.weights, [[1, -1, 127, -128], [5, 6, 7, 8]]);
    assert_eq!(linear.biases, [0x1234, 65535]);
    assert!(read_linear::<4, 2>(&bytes, 3).is_none());
    assert!(read_linear::<4, 2>(&bytes[..13], 2).is_none());
}
