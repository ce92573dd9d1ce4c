//! Round trips through the bit cursor layer.

use replication::stream::{GameIoError, InputMemoryStream, OutputMemoryStream};

fn transfer(out: &OutputMemoryStream) -> InputMemoryStream {
    InputMemoryStream::new(out.buffer().clone())
}

#[test]
fn roundtrip_all_widths() {
    for w in 1..=64u32 {
        let max_value: u64 = if w == 64 { u64::MAX } else { (1u64 << w) - 1 };
        let probe: u64 = max_value & 0xA5A5_A5A5_A5A5_A5A5;
        for &v in &[0u64, 1 & max_value, max_value, probe] {
            let mut out = OutputMemoryStream::new();
            out.write_u64_bits(v, w as usize).unwrap();
            let mut inp = transfer(&out);
            assert_eq!(inp.read_u64_bits(w as usize).unwrap(), v);
        }
    }
}

#[test]
fn roundtrip_every_byte_offset() {
    // Push the cursor to each offset 0..8, then write a boundary-crossing
    // value and check that both come back intact.
    for offset in 0..8usize {
        let mut out = OutputMemoryStream::new();
        if offset > 0 {
            out.write_u8_bits((1 << offset) - 1, offset).unwrap();
        }
        out.write_u64_bits(0x2AA, 10).unwrap();
        out.write_u8_bits(0x15, 5).unwrap();
        let mut inp = transfer(&out);
        if offset > 0 {
            assert_eq!(inp.read_u8_bits(offset).unwrap(), (1 << offset) - 1);
        }
        assert_eq!(inp.read_u64_bits(10).unwrap(), 0x2AA);
        assert_eq!(inp.read_u8_bits(5).unwrap(), 0x15);
    }
}

#[test]
fn exact_fill_does_not_touch_next_byte() {
    let mut out = OutputMemoryStream::new();
    out.write_u8_bits(0b101, 3).unwrap();
    out.write_u8_bits(0b10111, 5).unwrap();
    // Exactly one byte was needed: the second write filled the remainder.
    assert_eq!(out.buffer().len(), 1);
    assert_eq!(out.buffer()[0], 0b10111_101);
}

#[test]
fn read_to_exact_end_then_eof() {
    let mut out = OutputMemoryStream::new();
    out.write_u8_bits(0b11, 2).unwrap();
    out.write_u8_bits(0b111111, 6).unwrap();
    let mut inp = transfer(&out);
    assert_eq!(inp.read_u8_bits(2).unwrap(), 0b11);
    assert_eq!(inp.read_u8_bits(6).unwrap(), 0b111111);
    assert_eq!(inp.remaining_bit_count(), 0);
    match inp.read_u8_bits(1) {
        Err(GameIoError::UnexpectedEof(requested, remaining)) => {
            assert_eq!(requested, 1);
            assert_eq!(remaining, 0);
        }
        other => panic!("expected end of stream, got {:?}", other),
    }
}

#[test]
fn bool_flag_single_bit() {
    let mut out = OutputMemoryStream::new();
    out.write_bool_bits(true, 1).unwrap();
    out.write_bool_bits(false, 1).unwrap();
    out.write_bool_bits(true, 1).unwrap();
    let mut inp = transfer(&out);
    assert!(inp.read_bool_bits(1).unwrap());
    assert!(!inp.read_bool_bits(1).unwrap());
    assert!(inp.read_bool_bits(1).unwrap());
}

#[test]
fn signed_full_width_roundtrip() {
    let mut out = OutputMemoryStream::new();
    out.write_i8(-5).unwrap();
    out.write_i16(-12345).unwrap();
    out.write_i32(-123456789).unwrap();
    out.write_i64(i64::MIN).unwrap();
    out.write_isize(-42).unwrap();
    let mut inp = transfer(&out);
    assert_eq!(inp.read_i8().unwrap(), -5);
    assert_eq!(inp.read_i16().unwrap(), -12345);
    assert_eq!(inp.read_i32().unwrap(), -123456789);
    assert_eq!(inp.read_i64().unwrap(), i64::MIN);
    assert_eq!(inp.read_isize().unwrap(), -42);
}

#[test]
fn unsigned_full_width_roundtrip() {
    let mut out = OutputMemoryStream::new();
    out.write_bool(true).unwrap();
    out.write_u8(0xAB).unwrap();
    out.write_u16(0xBEEF).unwrap();
    out.write_u32(0xDEADBEEF).unwrap();
    out.write_u64(0x0123_4567_89AB_CDEF).unwrap();
    out.write_usize(usize::MAX).unwrap();
    let mut inp = transfer(&out);
    assert!(inp.read_bool().unwrap());
    assert_eq!(inp.read_u8().unwrap(), 0xAB);
    assert_eq!(inp.read_u16().unwrap(), 0xBEEF);
    assert_eq!(inp.read_u32().unwrap(), 0xDEADBEEF);
    assert_eq!(inp.read_u64().unwrap(), 0x0123_4567_89AB_CDEF);
    assert_eq!(inp.read_usize().unwrap(), usize::MAX);
}

#[test]
fn block_write_aligned_and_unaligned() {
    let payload = [0x11u8, 0x22, 0x33, 0x44];
    // Aligned: the bytes land verbatim.
    let mut out = OutputMemoryStream::new();
    out.write_any(&payload).unwrap();
    assert_eq!(out.buffer().as_slice(), &payload);
    // Unaligned: one flag bit first, still byte-exact on read.
    let mut out = OutputMemoryStream::new();
    out.write_bool_bits(true, 1).unwrap();
    out.write_any(&payload).unwrap();
    let mut inp = transfer(&out);
    assert!(inp.read_bool_bits(1).unwrap());
    let got = inp.read_any(4).unwrap();
    assert_eq!(got.as_slice(), &payload);
}

#[test]
fn any_bits_partial_final_byte() {
    let payload = [0xFFu8, 0x0F];
    let mut out = OutputMemoryStream::new();
    out.write_any_bits(&payload, 12).unwrap();
    let mut inp = transfer(&out);
    let got = inp.read_any_bits(12).unwrap();
    assert_eq!(got, vec![0xFF, 0x0F]);
}

#[test]
fn owned_receive_window() {
    let inp = InputMemoryStream::owned();
    assert_eq!(inp.remaining_bit_count(), 1470 * 8);
}

#[test]
fn partial_width_u16_u32() {
    let mut out = OutputMemoryStream::new();
    out.write_u16_bits(0x3FF, 10).unwrap();
    out.write_u32_bits(0x1FFFF, 17).unwrap();
    out.write_usize_bits(0x7, 3).unwrap();
    let mut inp = transfer(&out);
    assert_eq!(inp.read_u16_bits(10).unwrap(), 0x3FF);
    assert_eq!(inp.read_u32_bits(17).unwrap(), 0x1FFFF);
    assert_eq!(inp.read_usize_bits(3).unwrap(), 0x7);
}
