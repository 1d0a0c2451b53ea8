use flt2dec2flt::dec2flt::{convert, ParseFloatError};
use flt2dec2flt::decoder::{decode_f32, decode_f64};
use flt2dec2flt::flt2dec::{
    estimate_max_buf_len, format_exact, format_shortest, round_up, Decoded, FullDecoded,
};
use flt2dec2flt::{
    double_layout, from_preparsed, preformat_exact_exp, preformat_exact_fixed,
    preformat_shortest, single_layout, PreFormatted, PreParsed,
    PREFORMAT_EXACT_FIXED_BASE_BUF_LEN, PREFORMAT_SHORTEST_BUF_LEN,
};

fn shortest32(v: f32) -> (bool, Vec<u8>, usize, i16) {
    let (sign, full) = decode_f32(v.to_bits());
    let mut buf = vec![0u8; PREFORMAT_SHORTEST_BUF_LEN];
    match preformat_shortest(sign, full, &mut buf) {
        PreFormatted::Finite(s, d, z, k) => (s, d.to_vec(), z, k),
        other => panic!("not finite: {:?}", other),
    }
}

fn shortest64(v: f64) -> (bool, Vec<u8>, usize, i16) {
    let (sign, full) = decode_f64(v.to_bits());
    let mut buf = vec![0u8; PREFORMAT_SHORTEST_BUF_LEN];
    match preformat_shortest(sign, full, &mut buf) {
        PreFormatted::Finite(s, d, z, k) => (s, d.to_vec(), z, k),
        other => panic!("not finite: {:?}", other),
    }
}

fn exact32(v: f32, n: usize) -> PreFormatted<'static> {
    let (sign, full) = decode_f32(v.to_bits());
    let buf: &'static mut [u8] = Box::leak(vec![0u8; n].into_boxed_slice());
    preformat_exact_exp(sign, full, buf, n)
}

fn fixed32(v: f32, n: usize) -> PreFormatted<'static> {
    let (sign, full) = decode_f32(v.to_bits());
    let buf: &'static mut [u8] =
        Box::leak(vec![0u8; PREFORMAT_EXACT_FIXED_BASE_BUF_LEN + n].into_boxed_slice());
    preformat_exact_fixed(sign, full, buf, n)
}

fn parse64(sign: bool, int: &[u8], frac: &[u8], exp: i16) -> Option<u64> {
    from_preparsed(double_layout(), &PreParsed { sign, int_digits: int, frac_digits: frac, exp })
}

fn parse32(sign: bool, int: &[u8], frac: &[u8], exp: i16) -> Option<u32> {
    from_preparsed(single_layout(), &PreParsed { sign, int_digits: int, frac_digits: frac, exp })
        .map(|b| b as u32)
}

#[test]
fn shortest_tenth_f32() {
    assert_eq!(shortest32(0.1), (false, b"1".to_vec(), 0, 0));
}

#[test]
fn shortest_large_f32() {
    assert_eq!(shortest32(1.25e20), (false, b"125".to_vec(), 0, 21));
}

#[test]
fn shortest_documented_f32() {
    assert_eq!(shortest32(12.34), (false, b"1234".to_vec(), 0, 2));
    assert_eq!(shortest32(0.00401), (false, b"401".to_vec(), 0, -2));
    assert_eq!(shortest32(330.0), (false, b"33".to_vec(), 0, 3));
    assert_eq!(shortest32(4.58e31), (false, b"458".to_vec(), 0, 32));
    assert_eq!(shortest32(4.58e-31), (false, b"458".to_vec(), 0, -30));
}

#[test]
fn shortest_min_subnormal_f64() {
    let v = f64::from_bits(1);
    assert_eq!(shortest64(v), (false, b"5".to_vec(), 0, -323));
    assert_eq!(parse64(false, b"", b"5", -323), Some(1));
}

#[test]
fn shortest_extremes_f64() {
    assert_eq!(shortest64(f64::MAX), (false, b"17976931348623157".to_vec(), 0, 309));
    assert_eq!(shortest64(f64::MIN_POSITIVE), (false, b"22250738585072014".to_vec(), 0, -307));
    assert_eq!(shortest64(1.0), (false, b"1".to_vec(), 0, 1));
    assert_eq!(shortest64(-2.5), (true, b"25".to_vec(), 0, 1));
}

#[test]
fn shortest_round_trips() {
    let values: [f64; 9] = [0.1, 0.3, 1.0 / 3.0, 2.0 / 3.0, 1e23, 5e-324, 1.7976931348623157e308, 123.456, 9007199254740993.0];
    for &v in values.iter() {
        let (sign, digits, _, k) = shortest64(v);
        assert!(digits.len() <= 17);
        let bits = parse64(sign, b"", &digits, k).unwrap();
        assert_eq!(bits, v.to_bits());
        if digits.len() > 1 {
            // one digit fewer no longer reads back
            let shorter = &digits[..digits.len() - 1];
            assert_ne!(parse64(sign, b"", shorter, k), Some(v.to_bits()));
        }
    }
    let singles: [f32; 5] = [0.1, 3.4028235e38, 1e-45, 16777216.0, 0.333];
    for &v in singles.iter() {
        let (sign, digits, _, k) = shortest32(v);
        assert!(digits.len() <= 9);
        assert_eq!(parse32(sign, b"", &digits, k), Some(v.to_bits()));
    }
}

#[test]
fn exact_exp_rounds_half_even() {
    assert_eq!(exact32(12.3456, 5), PreFormatted::Finite(false, b"12346", 0, 2));
}

#[test]
fn exact_exp_caps_digits() {
    assert_eq!(
        exact32(4.0, 100),
        PreFormatted::Finite(false, b"40000000000000000000000000000000000000", 62, 1)
    );
}

#[test]
fn exact_exp_documented() {
    assert_eq!(exact32(200.0, 2), PreFormatted::Finite(false, b"20", 0, 3));
    assert_eq!(exact32(0.012, 3), PreFormatted::Finite(false, b"120", 0, -1));
    assert_eq!(exact32(12.34, 5), PreFormatted::Finite(false, b"12340", 0, 2));
    assert_eq!(exact32(4.0, 10), PreFormatted::Finite(false, b"4000000000", 0, 1));
}

#[test]
fn exact_exp_pads_shortest_with_zeros() {
    let (sign, full) = decode_f64(0.5f64.to_bits());
    let mut buf = vec![0u8; 10];
    assert_eq!(
        preformat_exact_exp(sign, full, &mut buf, 10),
        PreFormatted::Finite(false, b"5000000000", 0, 0)
    );
}

#[test]
fn exact_exp_carry_moves_exponent() {
    // 9.99 to two digits is 10
    let (sign, full) = decode_f64(9.99f64.to_bits());
    let mut buf = vec![0u8; 2];
    assert_eq!(preformat_exact_exp(sign, full, &mut buf, 2), PreFormatted::Finite(false, b"10", 0, 2));
}

#[test]
fn fixed_documented() {
    assert_eq!(fixed32(12.34, 4), PreFormatted::Finite(false, b"123400", 0, 2));
    assert_eq!(fixed32(12.3456, 2), PreFormatted::Finite(false, b"1235", 0, 2));
    assert_eq!(fixed32(200.0, 2), PreFormatted::Finite(false, b"20000", 0, 3));
    assert_eq!(fixed32(0.03, 3), PreFormatted::Finite(false, b"30", 0, -1));
}

#[test]
fn fixed_pads_value_below_one() {
    // the digit budget of 0.5 is 40 digits; the other 60 come as zeros
    let mut digits = vec![b'5'];
    digits.extend(std::iter::repeat(b'0').take(39));
    match fixed32(0.5, 100) {
        PreFormatted::Finite(false, ds, 60, 0) => assert_eq!(ds, &digits[..]),
        other => panic!("unexpected {:?}", other),
    }
    // a value below 0.1 folds its leading zeros into k
    match fixed32(0.03, 100) {
        PreFormatted::Finite(false, ds, z, -1) => assert_eq!(ds.len() + z, 99),
        other => panic!("unexpected {:?}", other),
    }
}

#[test]
fn formatting_leaves_rest_of_buffer() {
    let (sign, full) = decode_f64(0.25f64.to_bits());
    let mut buf = vec![b'x'; 20];
    match preformat_shortest(sign, full, &mut buf) {
        PreFormatted::Finite(false, ds, 0, 0) => assert_eq!(ds, b"25"),
        other => panic!("unexpected {:?}", other),
    }
    assert_eq!(&buf[..2], b"25");
    assert!(buf[2..].iter().all(|&c| c == b'x'));
    let (sign, full) = decode_f64(f64::NAN.to_bits());
    let mut buf = vec![b'x'; PREFORMAT_EXACT_FIXED_BASE_BUF_LEN];
    assert_eq!(preformat_exact_fixed(sign, full, &mut buf[..], 0), PreFormatted::NaN);
    assert!(buf.iter().all(|&c| c == b'x'));
}

#[test]
fn fixed_rounds_to_zero() {
    assert_eq!(fixed32(0.3e-4, 2), PreFormatted::Zero(false));
}

#[test]
fn fixed_rounds_up_to_limit() {
    // 0.006 to two places is 0.01
    assert_eq!(fixed32(0.006, 2), PreFormatted::Finite(false, b"1", 0, -1));
}

#[test]
fn from_preparsed_exact() {
    assert_eq!(parse32(false, b"1", b"25", 20), Some(1.25e20f32.to_bits()));
}

#[test]
fn from_preparsed_negative_zero() {
    assert_eq!(parse32(true, b"", b"", 0), Some((-0.0f32).to_bits()));
    assert_eq!(parse64(true, b"0", b"000", 5), Some((-0.0f64).to_bits()));
}

#[test]
fn from_preparsed_halfway_to_even() {
    // 2^24 + 1 lies halfway between 2^24 and 2^24 + 2
    assert_eq!(parse32(false, b"16777217", b"", 0), Some(16777216f32.to_bits()));
    assert_eq!(parse32(false, b"16777219", b"", 0), Some(16777220f32.to_bits()));
    assert_eq!(parse64(false, b"9007199254740993", b"", 0), Some(9007199254740992f64.to_bits()));
}

#[test]
fn from_preparsed_underflow_is_zero() {
    assert_eq!(parse64(false, b"1", b"", -400), Some(0));
    assert_eq!(parse64(true, b"1", b"", -400), Some((-0.0f64).to_bits()));
    // just above half the smallest subnormal rounds up to it
    assert_eq!(parse64(false, b"", b"25", -323), Some(1));
}

#[test]
fn convert_errors() {
    assert_eq!(convert(double_layout(), false, b"1a", b"", 0), Err(ParseFloatError::Invalid));
    assert_eq!(convert(double_layout(), false, b"1", b"", 400), Err(ParseFloatError::PosOverflow));
    assert_eq!(convert(double_layout(), true, b"1", b"", 400), Err(ParseFloatError::NegOverflow));
    assert_eq!(convert(single_layout(), false, b"34028236", b"", 31), Err(ParseFloatError::PosOverflow));
    assert_eq!(convert(single_layout(), false, b"34028235", b"", 31), Ok(f32::MAX.to_bits() as u64));
    assert_eq!(parse64(false, b"1", b"", 400), None);
    assert_eq!(convert(double_layout(), false, b"7", b"", i64::MAX), Err(ParseFloatError::PosOverflow));
    assert_eq!(convert(double_layout(), true, b"7", b"5", i64::MIN), Ok((-0.0f64).to_bits()));
}

#[test]
fn decode_classifies() {
    assert_eq!(decode_f64((-0.0f64).to_bits()), (true, FullDecoded::Zero));
    assert_eq!(decode_f64(f64::NAN.to_bits()).1, FullDecoded::Nan);
    assert_eq!(decode_f32(f32::NEG_INFINITY.to_bits()), (true, FullDecoded::Infinite));
    assert_eq!(
        decode_f64(1.0f64.to_bits()),
        (false, FullDecoded::Finite(Decoded { mant: 1 << 54, minus: 1, plus: 2, exp: -54, inclusive: true }))
    );
    assert_eq!(
        decode_f64(1),
        (false, FullDecoded::Finite(Decoded { mant: 2, minus: 1, plus: 1, exp: -1075, inclusive: false }))
    );
    assert_eq!(
        decode_f32(1.5f32.to_bits()),
        (false, FullDecoded::Finite(Decoded { mant: 3 << 23, minus: 1, plus: 1, exp: -24, inclusive: true }))
    );
}

#[test]
fn round_up_cases() {
    let mut d = *b"129";
    assert_eq!(round_up(&mut d), None);
    assert_eq!(&d, b"130");
    let mut d = *b"999";
    assert_eq!(round_up(&mut d), Some(b'0'));
    assert_eq!(&d, b"100");
    let mut d: [u8; 0] = [];
    assert_eq!(round_up(&mut d), Some(b'1'));
}

#[test]
fn estimate_values() {
    assert_eq!(estimate_max_buf_len(-1074), 826);
    assert_eq!(estimate_max_buf_len(0), 21);
    assert_eq!(estimate_max_buf_len(971), 324);
}

#[test]
fn kernels_direct() {
    let d = Decoded { mant: 2, minus: 1, plus: 1, exp: -1075, inclusive: false };
    let mut buf = [0u8; 17];
    assert_eq!(format_shortest(&d, &mut buf), (1, -323));
    assert_eq!(buf[0], b'5');
    let mut buf = [0u8; 3];
    assert_eq!(format_exact(&d, &mut buf, i16::MIN), (3, -323));
    assert_eq!(&buf, b"494");
}
