use led_glasses::as1130::{As1130, ClockSpeed, ConfigFlags, SyncDir};
use led_glasses::bus::{BusError, FailingBus, RecordingBus};
use led_glasses::frame::{BitFrame, PwmFrame};

const ADDR: u8 = 0x30;

fn chip() -> As1130 {
    As1130 { addr: ADDR }
}

fn select_control() -> (u8, Vec<u8>) {
    (ADDR, vec![0xFD, 0xC0])
}

fn reg(register: u8, value: u8) -> (u8, Vec<u8>) {
    (ADDR, vec![register, value])
}

#[test]
fn raw_write_sends_bytes_verbatim() {
    let mut bus = RecordingBus::new();
    chip().write(&mut bus, &[1, 2, 3]).unwrap();
    assert_eq!(bus.writes, vec![(ADDR, vec![1, 2, 3])]);
}

#[test]
fn write_register_sends_address_then_value() {
    let mut bus = RecordingBus::new();
    chip().write_register(&mut bus, 0x05, 0x99).unwrap();
    assert_eq!(bus.writes, vec![reg(0x05, 0x99)]);
}

#[test]
fn select_control_memory_bytes() {
    let mut bus = RecordingBus::new();
    chip().select_control_memory(&mut bus).unwrap();
    assert_eq!(bus.writes, vec![select_control()]);
}

#[test]
fn set_frame_bytes() {
    let mut bus = RecordingBus::new();
    chip().set_frame(&mut bus, 3, true).unwrap();
    assert_eq!(bus.writes, vec![select_control(), reg(0x00, 0x43)]);
}

#[test]
fn set_frame_masks_wide_index() {
    let mut bus = RecordingBus::new();
    chip().set_frame(&mut bus, 0xFF, false).unwrap();
    assert_eq!(bus.writes, vec![select_control(), reg(0x00, 0x1F)]);
}

#[test]
fn set_movie_bytes() {
    let mut bus = RecordingBus::new();
    chip().set_movie(&mut bus, 5, 10, true, true).unwrap();
    assert_eq!(
        bus.writes,
        vec![select_control(), reg(0x01, 0x45), reg(0x02, 0xCA)]
    );
}

#[test]
fn set_movie_disable_bytes() {
    let mut bus = RecordingBus::new();
    chip().set_movie(&mut bus, 0, 0, false, false).unwrap();
    assert_eq!(
        bus.writes,
        vec![select_control(), reg(0x01, 0x00), reg(0x02, 0x80)]
    );
}

#[test]
fn set_movie_options_bytes() {
    let mut bus = RecordingBus::new();
    chip().set_movie_options(&mut bus, true, false, true, 0x1F).unwrap();
    assert_eq!(bus.writes, vec![select_control(), reg(0x03, 0x9F)]);
}

#[test]
fn set_movie_looping_bytes() {
    let mut bus = RecordingBus::new();
    chip().set_movie_looping(&mut bus, 2).unwrap();
    assert_eq!(bus.writes, vec![select_control(), reg(0x04, 0x4B)]);
}

#[test]
fn set_movie_looping_masks_count() {
    let mut bus = RecordingBus::new();
    chip().set_movie_looping(&mut bus, 9).unwrap();
    assert_eq!(bus.writes, vec![select_control(), reg(0x04, 0x2B)]);
}

#[test]
fn set_brightness_bytes() {
    let mut bus = RecordingBus::new();
    chip().set_brightness(&mut bus, 0x55).unwrap();
    assert_eq!(bus.writes, vec![select_control(), reg(0x05, 0x55)]);
}

#[test]
fn set_configs_bytes() {
    let mut bus = RecordingBus::new();
    chip().set_configs(&mut bus, 0x20, 0b101).unwrap();
    assert_eq!(bus.writes, vec![select_control(), reg(0x06, 0x25)]);
}

#[test]
fn set_interrupt_mask_bytes() {
    let mut bus = RecordingBus::new();
    chip().set_interrupt_mask(&mut bus, 0xA5).unwrap();
    assert_eq!(bus.writes, vec![select_control(), reg(0x07, 0xA5)]);
}

#[test]
fn set_interrupt_frame_masks_index() {
    let mut bus = RecordingBus::new();
    chip().set_interrupt_frame(&mut bus, 0x3F).unwrap();
    assert_eq!(bus.writes, vec![select_control(), reg(0x08, 0x1F)]);
}

#[test]
fn set_shutdown_test_masks_flags() {
    let mut bus = RecordingBus::new();
    chip().set_shutdown_test(&mut bus, 0xFF).unwrap();
    assert_eq!(bus.writes, vec![select_control(), reg(0x09, 0x1F)]);
}

#[test]
fn set_i2c_watchdog_bytes() {
    let mut bus = RecordingBus::new();
    chip().set_i2c_watchdog(&mut bus, 5, true).unwrap();
    assert_eq!(bus.writes, vec![select_control(), reg(0x0A, 0x0B)]);
}

#[test]
fn set_i2c_watchdog_masks_timeout() {
    let mut bus = RecordingBus::new();
    // 64 has no bits inside the five-bit field, so only the enable bit stays.
    chip().set_i2c_watchdog(&mut bus, 64, true).unwrap();
    assert_eq!(bus.writes, vec![select_control(), reg(0x0A, 0x01)]);
}

#[test]
fn set_clock_sync_bytes() {
    let mut bus = RecordingBus::new();
    chip()
        .set_clock_sync(&mut bus, ClockSpeed::Khz125.bits(), SyncDir::In.bits())
        .unwrap();
    assert_eq!(bus.writes, vec![select_control(), reg(0x0B, 0x09)]);
}

#[test]
fn clock_speed_and_sync_dir_codes() {
    assert_eq!(ClockSpeed::Mhz1.bits(), 0b00);
    assert_eq!(ClockSpeed::Khz500.bits(), 0b01);
    assert_eq!(ClockSpeed::Khz125.bits(), 0b10);
    assert_eq!(ClockSpeed::Khz32.bits(), 0b11);
    assert_eq!(SyncDir::In.bits(), 0b01);
    assert_eq!(SyncDir::Out.bits(), 0b10);
}

#[test]
fn config_flags_with_mem_config() {
    let flags = ConfigFlags::from_bits(0xFF).with_mem_config(0b010);
    assert_eq!(flags.bits, 0xFA);
    let flags = ConfigFlags::empty().with_mem_config(0xFF);
    assert_eq!(flags.bits, 0b111);
    let flags = ConfigFlags::from_bits(0x20).with_mem_config(0b001);
    assert_eq!(flags.bits, 0x21);
}

#[test]
fn write_bit_frame_bytes() {
    let mut bus = RecordingBus::new();
    let frame = BitFrame { bytes: vec![0xFF; 12] };
    chip().write_bit_frame(&mut bus, 2, &frame).unwrap();
    assert_eq!(bus.writes.len(), 2);
    assert_eq!(bus.writes[0], (ADDR, vec![0xFD, 0x03]));
    let mut expected = vec![0u8];
    for _ in 0..12 {
        expected.push(0xFC);
        expected.push(0x03);
    }
    assert_eq!(bus.writes[1], (ADDR, expected));
}

#[test]
fn write_pwm_frame_bytes() {
    let mut bus = RecordingBus::new();
    let frame = PwmFrame { bytes: (0..96).map(|i| i as u8).collect() };
    chip().write_pwm_frame(&mut bus, 1, &frame).unwrap();
    assert_eq!(bus.writes.len(), 2);
    assert_eq!(bus.writes[0], (ADDR, vec![0xFD, 0x41]));
    let mut expected: Vec<u8> = Vec::new();
    for c in 0..12u8 {
        expected.push(26 + 11 * c);
        for r in 0..8u8 {
            expected.push(8 * c + r);
        }
    }
    assert_eq!(bus.writes[1], (ADDR, expected));
}

#[test]
fn write_blink_frame_bytes() {
    let mut bus = RecordingBus::new();
    let frame = BitFrame { bytes: vec![0; 12] };
    chip().write_blink_frame(&mut bus, 0, &frame).unwrap();
    assert_eq!(bus.writes.len(), 2);
    assert_eq!(bus.writes[0], (ADDR, vec![0xFD, 0x40]));
    assert_eq!(bus.writes[1], (ADDR, vec![0u8; 25]));
}

#[test]
fn movie_config_aborts_on_second_write_failure() {
    // The bus accepts the bank-select write and rejects the next one.
    let mut bus = FailingBus::new(1, 0x17);
    let result = chip().set_movie(&mut bus, 0, 6, true, true);
    assert_eq!(result, Err(BusError { code: 0x17 }));
    // Only the first write reached the bus; the failed attempt carried the
    // movie register bytes, and nothing was attempted after it.
    assert_eq!(bus.writes, vec![select_control()]);
    assert_eq!(bus.tried, vec![select_control(), reg(0x01, 0x40)]);
}

#[test]
fn control_write_aborts_on_first_write_failure() {
    let mut bus = FailingBus::new(0, 0x01);
    let result = chip().set_brightness(&mut bus, 10);
    assert_eq!(result, Err(BusError { code: 0x01 }));
    assert_eq!(bus.writes.len(), 0);
    assert_eq!(bus.tried, vec![select_control()]);
}
