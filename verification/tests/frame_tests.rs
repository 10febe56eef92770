use led_glasses::frame::{BitFrame, FrameHelpers, PwmFrame, FRAME_COLS, FRAME_ROWS};

fn bit_frame_of(bytes: &[u8]) -> BitFrame {
    assert_eq!(bytes.len(), FRAME_COLS);
    BitFrame { bytes: bytes.to_vec() }
}

fn pwm_frame_of(bytes: &[u8]) -> PwmFrame {
    assert_eq!(bytes.len(), FRAME_ROWS * FRAME_COLS);
    PwmFrame { bytes: bytes.to_vec() }
}

#[test]
fn new_frames_are_blank() {
    let bit = BitFrame::new();
    assert_eq!(bit.bytes, vec![0u8; 12]);
    let pwm = PwmFrame::new();
    assert_eq!(pwm.bytes, vec![0u8; 96]);
}

#[test]
fn bit_buffer_layout() {
    let frame = bit_frame_of(&[
        0x01, 0x80, 0xFF, 0x00, 0x55, 0xAA, 0x0F, 0xF0, 0x3C, 0xC3, 0x7E, 0x81,
    ]);
    let buffer = FrameHelpers::create_bit_buffer(&frame);
    assert_eq!(buffer.len(), 25);
    assert_eq!(buffer[0], 0);
    for c in 0..12 {
        let b = frame.bytes[c];
        assert_eq!(buffer[1 + 2 * c], b << 2, "low slot of column {c}");
        assert_eq!(buffer[2 + 2 * c], b >> 6, "high slot of column {c}");
    }
}

#[test]
fn bit_buffer_round_trip() {
    let frame = bit_frame_of(&[
        0x00, 0x01, 0x7F, 0x80, 0x55, 0xAA, 0xFF, 0xC3, 0x3C, 0x99, 0x66, 0x42,
    ]);
    let buffer = FrameHelpers::create_bit_buffer(&frame);
    for c in 0..12 {
        let lo = buffer[1 + 2 * c];
        let hi = buffer[2 + 2 * c];
        assert_eq!((hi << 6) | (lo >> 2), frame.bytes[c], "column {c}");
    }
}

#[test]
fn pwm_buffer_layout() {
    let bytes: Vec<u8> = (0..96).map(|i| (i * 2 + 1) as u8).collect();
    let frame = pwm_frame_of(&bytes);
    let buffer = FrameHelpers::create_pwm_buffer(&frame);
    assert_eq!(buffer.len(), 108);
    for c in 0..12 {
        assert_eq!(buffer[9 * c], 26 + 11 * c as u8, "page address of column {c}");
        for r in 0..8 {
            assert_eq!(buffer[9 * c + 1 + r], frame.bytes[8 * c + r], "column {c} row {r}");
        }
    }
}

#[test]
fn pwm_page_addresses_are_fixed() {
    let frame = PwmFrame::new();
    let buffer = FrameHelpers::create_pwm_buffer(&frame);
    let expected: Vec<u8> = (0..12).map(|c| 26 + 11 * c as u8).collect();
    let got: Vec<u8> = (0..12).map(|c| buffer[9 * c]).collect();
    assert_eq!(got, expected);
}

#[test]
fn fill_bit_frame_on_and_off() {
    let mut frame = BitFrame::new();
    FrameHelpers::fill_bit_frame(&mut frame, true);
    assert_eq!(frame.bytes, vec![0xFFu8; 12]);
    FrameHelpers::fill_bit_frame(&mut frame, false);
    assert_eq!(frame.bytes, vec![0x00u8; 12]);
}

#[test]
fn fill_pwm_frame_to_level() {
    let mut frame = PwmFrame::new();
    FrameHelpers::fill_pwm_frame(&mut frame, 0x42);
    assert_eq!(frame.bytes, vec![0x42u8; 96]);
    FrameHelpers::fill_pwm_frame(&mut frame, 0);
    assert_eq!(frame.bytes, vec![0x00u8; 96]);
}

#[test]
fn invert_bit_frame_complements_each_byte() {
    let mut frame = bit_frame_of(&[
        0x00, 0xFF, 0x55, 0xAA, 0x0F, 0xF0, 0x01, 0x80, 0x3C, 0xC3, 0x99, 0x66,
    ]);
    FrameHelpers::invert_bit_frame(&mut frame);
    assert_eq!(
        frame.bytes,
        vec![0xFF, 0x00, 0xAA, 0x55, 0xF0, 0x0F, 0xFE, 0x7F, 0xC3, 0x3C, 0x66, 0x99]
    );
}

#[test]
fn invert_bit_frame_twice_restores() {
    let original: Vec<u8> = vec![0x00, 0x01, 0x7F, 0x80, 0x55, 0xAA, 0xFF, 0xC3, 0x3C, 0x99, 0x66, 0x42];
    let mut frame = bit_frame_of(&original);
    FrameHelpers::invert_bit_frame(&mut frame);
    FrameHelpers::invert_bit_frame(&mut frame);
    assert_eq!(frame.bytes, original);
}

#[test]
fn invert_pwm_frame_mirrors_each_level() {
    let bytes: Vec<u8> = (0..96).map(|i| (i * 3) as u8).collect();
    let mut frame = pwm_frame_of(&bytes);
    FrameHelpers::invert_pwm_frame(&mut frame);
    for i in 0..96 {
        assert_eq!(frame.bytes[i], 255 - bytes[i], "index {i}");
    }
}

#[test]
fn invert_pwm_frame_twice_restores() {
    let original: Vec<u8> = (0..96).map(|i| (i * 7 + 13) as u8).collect();
    let mut frame = pwm_frame_of(&original);
    FrameHelpers::invert_pwm_frame(&mut frame);
    FrameHelpers::invert_pwm_frame(&mut frame);
    assert_eq!(frame.bytes, original);
}

#[test]
fn fill_on_then_invert_is_all_off() {
    let mut frame = BitFrame::new();
    FrameHelpers::fill_bit_frame(&mut frame, true);
    FrameHelpers::invert_bit_frame(&mut frame);
    assert_eq!(frame.bytes, vec![0x00u8; 12]);
}

#[test]
fn fill_off_then_invert_is_all_on() {
    let mut frame = BitFrame::new();
    FrameHelpers::fill_bit_frame(&mut frame, false);
    FrameHelpers::invert_bit_frame(&mut frame);
    assert_eq!(frame.bytes, vec![0xFFu8; 12]);
}
