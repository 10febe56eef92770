use led_glasses::bus::{BusError, FailingBus, RecordingBus};
use led_glasses::glasses::{DrawType, Glasses};

const L: u8 = 0x30;
const R: u8 = 0x37;

fn reg(addr: u8, register: u8, value: u8) -> (u8, Vec<u8>) {
    (addr, vec![register, value])
}

fn control(addr: u8, register: u8, value: u8) -> Vec<(u8, Vec<u8>)> {
    vec![reg(addr, 0xFD, 0xC0), reg(addr, register, value)]
}

fn empty_bit_buffer() -> Vec<u8> {
    vec![0u8; 25]
}

fn solid_bit_buffer() -> Vec<u8> {
    let mut buffer = vec![0u8];
    for _ in 0..12 {
        buffer.push(0xFC);
        buffer.push(0x03);
    }
    buffer
}

fn pwm_buffer(level: u8) -> Vec<u8> {
    let mut buffer = Vec::new();
    for c in 0..12u8 {
        buffer.push(26 + 11 * c);
        for _ in 0..8 {
            buffer.push(level);
        }
    }
    buffer
}

fn expected_init_writes() -> Vec<(u8, Vec<u8>)> {
    let mut writes = Vec::new();
    // Shutdown/test released, then the full init flag combination.
    writes.extend(control(L, 0x09, 0x00));
    writes.extend(control(R, 0x09, 0x00));
    writes.extend(control(L, 0x09, 0b11011));
    writes.extend(control(R, 0x09, 0b11011));
    // LED error correction with memory config one.
    writes.extend(control(L, 0x06, 0b00100001));
    writes.extend(control(R, 0x06, 0b00100001));
    // Movie disabled, timing cleared, loop count one.
    for addr in [L, R] {
        writes.extend(vec![
            reg(addr, 0xFD, 0xC0),
            reg(addr, 0x01, 0x00),
            reg(addr, 0x02, 0x80),
        ]);
    }
    writes.extend(control(L, 0x03, 0x00));
    writes.extend(control(R, 0x03, 0x00));
    writes.extend(control(L, 0x04, 0x2B));
    writes.extend(control(R, 0x04, 0x2B));
    // Startup brightness.
    writes.extend(control(L, 0x05, 16));
    writes.extend(control(R, 0x05, 16));
    // Interrupts cleared, watchdog on, clock sync: left out, right in.
    writes.extend(control(L, 0x07, 0x00));
    writes.extend(control(R, 0x07, 0x00));
    writes.extend(control(L, 0x08, 0x00));
    writes.extend(control(R, 0x08, 0x00));
    writes.extend(control(L, 0x0A, 0x01));
    writes.extend(control(R, 0x0A, 0x01));
    writes.extend(control(L, 0x0B, 0b10));
    writes.extend(control(R, 0x0B, 0b01));
    // All-on PWM frame and all-off bit frame into slot zero, then a
    // cleared blink frame.
    writes.push(reg(L, 0xFD, 0x40));
    writes.push((L, pwm_buffer(0xFF)));
    writes.push(reg(R, 0xFD, 0x40));
    writes.push((R, pwm_buffer(0xFF)));
    writes.push(reg(L, 0xFD, 0x01));
    writes.push((L, empty_bit_buffer()));
    writes.push(reg(R, 0xFD, 0x01));
    writes.push((R, empty_bit_buffer()));
    // Blink memory cleared with the same all-off frame.
    writes.push(reg(L, 0xFD, 0x40));
    writes.push((L, empty_bit_buffer()));
    writes.push(reg(R, 0xFD, 0x40));
    writes.push((R, empty_bit_buffer()));
    // Display frame zero.
    writes.extend(control(L, 0x00, 0b01000000));
    writes.extend(control(R, 0x00, 0b01000000));
    writes
}

#[test]
fn new_glasses_defaults() {
    let glasses = Glasses::new(RecordingBus::new());
    assert_eq!(glasses.left.addr, 0x30);
    assert_eq!(glasses.right.addr, 0x37);
    assert_eq!(glasses.brightness, 16);
    assert_eq!(glasses.bit_frame_l.bytes, vec![0u8; 12]);
    assert_eq!(glasses.bit_frame_r.bytes, vec![0u8; 12]);
    assert_eq!(glasses.pwm_frame_l.bytes, vec![0u8; 96]);
    assert_eq!(glasses.pwm_frame_r.bytes, vec![0u8; 96]);
    assert!(glasses.bus.writes.is_empty());
}

#[test]
fn init_issues_exact_write_sequence() {
    let mut glasses = Glasses::new(RecordingBus::new());
    glasses.init().unwrap();
    let expected = expected_init_writes();
    assert_eq!(glasses.bus.writes.len(), expected.len());
    for (i, (got, want)) in glasses.bus.writes.iter().zip(expected.iter()).enumerate() {
        assert_eq!(got, want, "write {i}");
    }
    // The landmarks the sequence must hit, in order: a zero shutdown/test
    // value first, the combined flags after the delay, the config byte,
    // movie disable, and a final picture enable on each chip.
    assert_eq!(glasses.bus.writes[1], reg(L, 0x09, 0x00));
    assert_eq!(glasses.bus.writes[5], reg(L, 0x09, 0b11011));
    assert_eq!(glasses.bus.writes[9], reg(L, 0x06, 0b00100001));
    assert_eq!(glasses.bus.writes[13], reg(L, 0x01, 0x00));
    let n = glasses.bus.writes.len();
    assert_eq!(glasses.bus.writes[n - 3], reg(L, 0x00, 0b01000000));
    assert_eq!(glasses.bus.writes[n - 1], reg(R, 0x00, 0b01000000));
}

#[test]
fn init_leaves_buffers_all_on_pwm_all_off_bit() {
    let mut glasses = Glasses::new(RecordingBus::new());
    glasses.init().unwrap();
    assert_eq!(glasses.pwm_frame_l.bytes, vec![0xFFu8; 96]);
    assert_eq!(glasses.pwm_frame_r.bytes, vec![0xFFu8; 96]);
    assert_eq!(glasses.bit_frame_l.bytes, vec![0x00u8; 12]);
    assert_eq!(glasses.bit_frame_r.bytes, vec![0x00u8; 12]);
    assert_eq!(glasses.brightness, 16);
}

#[test]
fn init_aborts_at_first_failed_write() {
    let mut glasses = Glasses::new(FailingBus::new(10, 0x42));
    let result = glasses.init();
    assert_eq!(result, Err(BusError { code: 0x42 }));
    // The bus saw exactly the writes before the failed one; the failed
    // attempt carried the next command of the sequence, and nothing was
    // attempted after it.
    let expected = expected_init_writes();
    assert_eq!(glasses.bus.writes.len(), 10);
    for i in 0..10 {
        assert_eq!(glasses.bus.writes[i], expected[i], "write {i}");
    }
    assert_eq!(glasses.bus.tried.len(), 11);
    assert_eq!(glasses.bus.tried[10], expected[10]);
    // The failure fell in the control commands, so no buffer was touched.
    assert_eq!(glasses.pwm_frame_l.bytes, vec![0x00u8; 96]);
    assert_eq!(glasses.bit_frame_l.bytes, vec![0x00u8; 12]);
}

#[test]
fn init_failure_staging_of_buffers() {
    // The buffers are filled in step with the sequence. 46 control commands
    // precede the frame data; the two PWM-frame writes are commands 46-49.
    let mut glasses = Glasses::new(FailingBus::new(47, 0x42));
    glasses.bit_frame_l.bytes = vec![0xAB; 12];
    glasses.bit_frame_r.bytes = vec![0xAB; 12];
    assert!(glasses.init().is_err());
    // Failure during the PWM writes: PWM pair already filled, bit pair not
    // yet touched.
    assert_eq!(glasses.pwm_frame_l.bytes, vec![0xFFu8; 96]);
    assert_eq!(glasses.pwm_frame_r.bytes, vec![0xFFu8; 96]);
    assert_eq!(glasses.bit_frame_l.bytes, vec![0xABu8; 12]);
    assert_eq!(glasses.bit_frame_r.bytes, vec![0xABu8; 12]);

    let mut glasses = Glasses::new(FailingBus::new(51, 0x42));
    glasses.bit_frame_l.bytes = vec![0xAB; 12];
    assert!(glasses.init().is_err());
    // Failure after the PWM writes: the bit pair was blanked too.
    assert_eq!(glasses.pwm_frame_l.bytes, vec![0xFFu8; 96]);
    assert_eq!(glasses.bit_frame_l.bytes, vec![0x00u8; 12]);
}

#[test]
fn switch_to_bit_issues_exact_write_sequence() {
    let mut glasses = Glasses::new(RecordingBus::new());
    glasses.init().unwrap();
    let before = glasses.bus.writes.len();
    glasses.switch_draw_type(5, DrawType::Bit).unwrap();
    let writes = &glasses.bus.writes[before..];
    let expected = vec![
        reg(L, 0xFD, 0x06),
        (L, empty_bit_buffer()),
        reg(R, 0xFD, 0x06),
        (R, empty_bit_buffer()),
        reg(L, 0xFD, 0x40),
        (L, pwm_buffer(0xFF)),
        reg(R, 0xFD, 0x40),
        (R, pwm_buffer(0xFF)),
    ];
    assert_eq!(writes, expected.as_slice());
}

#[test]
fn switch_to_pwm_issues_exact_write_sequence() {
    let mut glasses = Glasses::new(RecordingBus::new());
    glasses.init().unwrap();
    let before = glasses.bus.writes.len();
    glasses.switch_draw_type(0, DrawType::Pwm).unwrap();
    let writes = &glasses.bus.writes[before..];
    let expected = vec![
        reg(L, 0xFD, 0x40),
        (L, pwm_buffer(0x00)),
        reg(R, 0xFD, 0x40),
        (R, pwm_buffer(0x00)),
        reg(L, 0xFD, 0x01),
        (L, solid_bit_buffer()),
        reg(R, 0xFD, 0x01),
        (R, solid_bit_buffer()),
    ];
    assert_eq!(writes, expected.as_slice());
}

#[test]
fn switch_round_trip_restores_buffers() {
    let mut glasses = Glasses::new(RecordingBus::new());
    glasses.init().unwrap();
    // After power-on the buffers hold the all-on PWM / all-off bit state.
    glasses.switch_draw_type(0, DrawType::Pwm).unwrap();
    let bit_l = glasses.bit_frame_l.bytes.clone();
    let bit_r = glasses.bit_frame_r.bytes.clone();
    let pwm_l = glasses.pwm_frame_l.bytes.clone();
    let pwm_r = glasses.pwm_frame_r.bytes.clone();
    // Away to bit mode and back to PWM mode.
    glasses.switch_draw_type(0, DrawType::Bit).unwrap();
    assert_ne!(glasses.bit_frame_l.bytes, bit_l);
    glasses.switch_draw_type(0, DrawType::Pwm).unwrap();
    assert_eq!(glasses.bit_frame_l.bytes, bit_l);
    assert_eq!(glasses.bit_frame_r.bytes, bit_r);
    assert_eq!(glasses.pwm_frame_l.bytes, pwm_l);
    assert_eq!(glasses.pwm_frame_r.bytes, pwm_r);
}

#[test]
fn switch_back_to_bit_restores_power_on_buffers() {
    let mut glasses = Glasses::new(RecordingBus::new());
    glasses.init().unwrap();
    let pwm_before = glasses.pwm_frame_l.bytes.clone();
    let bit_before = glasses.bit_frame_l.bytes.clone();
    glasses.switch_draw_type(0, DrawType::Pwm).unwrap();
    glasses.switch_draw_type(0, DrawType::Bit).unwrap();
    // Restored to all-on PWM and all-off bit.
    assert_eq!(glasses.pwm_frame_l.bytes, pwm_before);
    assert_eq!(glasses.bit_frame_l.bytes, bit_before);
    assert_eq!(glasses.pwm_frame_l.bytes, vec![0xFFu8; 96]);
    assert_eq!(glasses.bit_frame_l.bytes, vec![0x00u8; 12]);
}

#[test]
fn switch_aborts_at_first_failed_write() {
    let mut glasses = Glasses::new(FailingBus::new(2, 0x07));
    let result = glasses.switch_draw_type(0, DrawType::Pwm);
    assert_eq!(result, Err(BusError { code: 0x07 }));
    assert_eq!(
        glasses.bus.writes,
        vec![reg(L, 0xFD, 0x40), (L, pwm_buffer(0x00))]
    );
    // The failed attempt carried the right chip's bank select, and nothing
    // was attempted after it.
    assert_eq!(glasses.bus.tried.len(), 3);
    assert_eq!(glasses.bus.tried[2], reg(R, 0xFD, 0x40));
}

#[test]
fn switch_failure_staging_of_buffers() {
    // A failure during the first pair of frame writes leaves the other
    // memory's buffers holding their old content.
    let mut glasses = Glasses::new(FailingBus::new(1, 0x07));
    glasses.bit_frame_l.bytes = vec![0x5A; 12];
    glasses.bit_frame_r.bytes = vec![0x5A; 12];
    assert!(glasses.switch_draw_type(0, DrawType::Pwm).is_err());
    assert_eq!(glasses.pwm_frame_l.bytes, vec![0x00u8; 96]);
    assert_eq!(glasses.bit_frame_l.bytes, vec![0x5Au8; 12]);
    assert_eq!(glasses.bit_frame_r.bytes, vec![0x5Au8; 12]);

    // A failure during the second pair happens after both fills.
    let mut glasses = Glasses::new(FailingBus::new(5, 0x07));
    glasses.bit_frame_l.bytes = vec![0x5A; 12];
    assert!(glasses.switch_draw_type(0, DrawType::Pwm).is_err());
    assert_eq!(glasses.pwm_frame_l.bytes, vec![0x00u8; 96]);
    assert_eq!(glasses.bit_frame_l.bytes, vec![0xFFu8; 12]);
}
