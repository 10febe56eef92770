//! The AS1130 register protocol: one operation per logical setting, each
//! encoded as the exact register writes the chip requires.
//!
//! Every control operation first selects the control-register memory bank
//! (the chip keeps separate on/off, blink/PWM, dot-correction and control
//! banks behind one register-select address), then writes one or two control
//! registers. Caller values wider than their bit field are masked, never
//! rejected, matching the device's own tolerant register semantics. Each
//! operation's contract gives the full command sequence it appends to the
//! bus log on success; on failure the log holds a strict prefix of that
//! sequence, so a failed write aborts the rest of the operation.

use vstd::prelude::*;

use crate::bus::{lemma_ok_unit, ok_attempts, Bus, BusError};
use crate::frame::{bit_buffer_spec, pwm_buffer_spec, BitFrame, FrameHelpers, PwmFrame};

verus! {

/// Entry register for switching memory banks.
pub const REGISTER_SELECT: u8 = 0xFD;

/// Memory-bank base values written to the register-select address.
pub const MEMORY_ON_OFF_START: u8 = 0x01;

pub const MEMORY_BLINK_PWM_START: u8 = 0x40;

pub const MEMORY_DOT_CORRECTION: u8 = 0x80;

pub const MEMORY_CONTROL_REGISTERS: u8 = 0xC0;

/// Control-register addresses, valid once the control bank is selected.
pub const CONTROL_PICTURE: u8 = 0x00;

pub const CONTROL_MOVIE: u8 = 0x01;

pub const CONTROL_MOVIE_MODE: u8 = 0x02;

pub const CONTROL_FRAME_TIME: u8 = 0x03;

pub const CONTROL_DISPLAY_OPTION: u8 = 0x04;

pub const CONTROL_CURRENT_SOURCE: u8 = 0x05;

pub const CONTROL_AS1130_CONFIG: u8 = 0x06;

pub const CONTROL_INTERRUPT_MASK: u8 = 0x07;

pub const CONTROL_INTERRUPT_FRAME_DEF: u8 = 0x08;

pub const CONTROL_SHUTDOWN_OPEN_SHORT: u8 = 0x09;

pub const CONTROL_I2C_INTERFACE_MON: u8 = 0x0A;

pub const CONTROL_CLK_SYNC: u8 = 0x0B;

/// Device-configuration flag bits (`CONTROL_AS1130_CONFIG`).
pub const CONFIG_LOW_VDD_RST: u8 = 0x80;

pub const CONFIG_LOW_VDD_STAT: u8 = 0x40;

pub const CONFIG_LED_ERROR_CORR: u8 = 0x20;

pub const CONFIG_DOT_CORR: u8 = 0x10;

pub const CONFIG_COMMON_ADDR: u8 = 0x08;

/// Interrupt-mask flag bits (`CONTROL_INTERRUPT_MASK`).
pub const INTERRUPT_SELECTED_PIC: u8 = 0x80;

pub const INTERRUPT_WATCHDOG: u8 = 0x40;

pub const INTERRUPT_POR: u8 = 0x20;

pub const INTERRUPT_OVERTEMP: u8 = 0x10;

pub const INTERRUPT_LOW_VDD: u8 = 0x08;

pub const INTERRUPT_OPEN_ERR: u8 = 0x04;

pub const INTERRUPT_SHORT_ERR: u8 = 0x02;

pub const INTERRUPT_MOVIE_FIN: u8 = 0x01;

/// Shutdown/test flag bits (`CONTROL_SHUTDOWN_OPEN_SHORT`).
pub const SHUTDOWN_TEST_ALL: u8 = 0x10;

pub const SHUTDOWN_AUTO_TEST: u8 = 0x08;

pub const SHUTDOWN_MANUAL_TEST: u8 = 0x04;

pub const SHUTDOWN_INIT: u8 = 0x02;

pub const SHUTDOWN_SHDN: u8 = 0x01;

/// Device-configuration flags with the memory-config sub-field kept apart:
/// bits 3-7 are caller flags, bits 0-2 select the memory configuration.
#[derive(Clone, Copy, Debug, PartialEq, Eq, Structural)]
pub struct ConfigFlags {
    pub bits: u8,
}

impl ConfigFlags {
    /// No flags set.
    pub fn empty() -> (f: ConfigFlags)
        ensures
            f.bits == 0,
    {
        ConfigFlags { bits: 0 }
    }

    /// Flags taken verbatim from a raw byte.
    pub fn from_bits(bits: u8) -> (f: ConfigFlags)
        ensures
            f.bits == bits,
    {
        ConfigFlags { bits }
    }

    /// Replace the three memory-config bits with `mem_config`, leaving the
    /// flag bits above them untouched.
    pub fn with_mem_config(self, mem_config: u8) -> (r: ConfigFlags)
        ensures
            r.bits == (self.bits & 0xF8) | (mem_config & 0b111),
    {
        ConfigFlags { bits: (self.bits & 0xF8) | (mem_config & 0b111) }
    }
}

/// The chip's internal clock speeds, as coded in the clock-sync register.
#[derive(Clone, Copy, Debug, PartialEq, Eq, Structural)]
pub enum ClockSpeed {
    Mhz1,
    Khz500,
    Khz125,
    Khz32,
}

impl ClockSpeed {
    /// The two-bit register code for this speed.
    pub open spec fn bits_spec(self) -> u8 {
        match self {
            ClockSpeed::Mhz1 => 0b00,
            ClockSpeed::Khz500 => 0b01,
            ClockSpeed::Khz125 => 0b10,
            ClockSpeed::Khz32 => 0b11,
        }
    }

    pub fn bits(self) -> (b: u8)
        ensures
            b == self.bits_spec(),
    {
        match self {
            ClockSpeed::Mhz1 => 0b00,
            ClockSpeed::Khz500 => 0b01,
            ClockSpeed::Khz125 => 0b10,
            ClockSpeed::Khz32 => 0b11,
        }
    }
}

/// Clock-sync direction: follower (input) or source (output).
#[derive(Clone, Copy, Debug, PartialEq, Eq, Structural)]
pub enum SyncDir {
    In,
    Out,
}

impl SyncDir {
    /// The two-bit register code for this direction.
    pub open spec fn bits_spec(self) -> u8 {
        match self {
            SyncDir::In => 0b01,
            SyncDir::Out => 0b10,
        }
    }

    pub fn bits(self) -> (b: u8)
        ensures
            b == self.bits_spec(),
    {
        match self {
            SyncDir::In => 0b01,
            SyncDir::Out => 0b10,
        }
    }
}

/// The picture register's value: enable flag in bit 6, 5-bit frame index.
pub open spec fn picture_value(frame_index: u8, enable: bool) -> u8 {
    (if enable {
        0x40u8
    } else {
        0x00u8
    }) | (frame_index & 0b11111)
}

/// The movie register's value: enable flag in bit 6, 5-bit start index.
pub open spec fn movie_value(start_frame_index: u8, enable: bool) -> u8 {
    (if enable {
        0x40u8
    } else {
        0x00u8
    }) | (start_frame_index & 0b11111)
}

/// The movie-mode register's value: bit 7 fixed to one, loop flag in bit 6,
/// 5-bit frame count.
pub open spec fn movie_mode_value(frame_count: u8, loop_frame: bool) -> u8 {
    0x80u8 | (if loop_frame {
        0x40u8
    } else {
        0x00u8
    }) | (frame_count & 0b11111)
}

/// The frame-time register's value: fading bit 7, scroll direction bit 6,
/// scroll enable bit 4, 4-bit frame delay.
pub open spec fn frame_time_value(fading: bool, scroll_dir: bool, enable_scroll: bool, frame_delay: u8) -> u8 {
    (if fading {
        0x80u8
    } else {
        0x00u8
    }) | (if scroll_dir {
        0x40u8
    } else {
        0x00u8
    }) | (if enable_scroll {
        0x10u8
    } else {
        0x00u8
    }) | (frame_delay & 0b1111)
}

/// The display-option register's value: 3-bit loop count in bits 5-7 over
/// the documented fixed low bits.
pub open spec fn display_option_value(num_loops: u8) -> u8 {
    ((num_loops & 0b111) << 5) | 0b1011
}

/// The config register's value: caller flags merged with the 3-bit
/// memory-config selector.
pub open spec fn config_value(options: u8, mem_config: u8) -> u8 {
    options | (mem_config & 0b111)
}

/// The interrupt-frame register's value: a 5-bit frame index.
pub open spec fn interrupt_frame_value(frame: u8) -> u8 {
    frame & 0b11111
}

/// The shutdown/test register's value: its five defined flag bits.
pub open spec fn shutdown_value(options: u8) -> u8 {
    options & 0b11111
}

/// The interface-monitor register's value: 5-bit timeout in bits 1-5,
/// enable in bit 0.
pub open spec fn watchdog_value(timeout: u8, enable: bool) -> u8 {
    ((timeout & 0b11111) << 1) | (if enable {
        0x01u8
    } else {
        0x00u8
    })
}

/// The clock-sync register's value: 2-bit clock speed in bits 2-3, 2-bit
/// sync direction in bits 0-1.
pub open spec fn clock_sync_value(clock_speed: u8, sync_dir: u8) -> u8 {
    ((clock_speed & 0b11) << 2) | (sync_dir & 0b11)
}

/// One bus transaction: a register address followed by its value, sent to
/// the chip at `addr`.
pub open spec fn reg_write_cmd(addr: u8, target_register: u8, value: u8) -> (u8, Seq<u8>) {
    (addr, seq![target_register, value])
}

/// The bank switch that precedes every control-register access.
pub open spec fn select_control_cmd(addr: u8) -> (u8, Seq<u8>) {
    reg_write_cmd(addr, REGISTER_SELECT, MEMORY_CONTROL_REGISTERS)
}

/// Bank switch plus a single control-register write.
pub open spec fn control_write_cmds(addr: u8, target_register: u8, value: u8) -> Seq<(u8, Seq<u8>)> {
    seq![select_control_cmd(addr), reg_write_cmd(addr, target_register, value)]
}

pub open spec fn set_frame_cmds(addr: u8, frame_index: u8, enable: bool) -> Seq<(u8, Seq<u8>)> {
    control_write_cmds(addr, CONTROL_PICTURE, picture_value(frame_index, enable))
}

pub open spec fn set_movie_cmds(
    addr: u8,
    start_frame_index: u8,
    frame_count: u8,
    loop_frame: bool,
    enable: bool,
) -> Seq<(u8, Seq<u8>)> {
    seq![
        select_control_cmd(addr),
        reg_write_cmd(addr, CONTROL_MOVIE, movie_value(start_frame_index, enable)),
        reg_write_cmd(addr, CONTROL_MOVIE_MODE, movie_mode_value(frame_count, loop_frame)),
    ]
}

pub open spec fn set_movie_options_cmds(
    addr: u8,
    fading: bool,
    scroll_dir: bool,
    enable_scroll: bool,
    frame_delay: u8,
) -> Seq<(u8, Seq<u8>)> {
    control_write_cmds(
        addr,
        CONTROL_FRAME_TIME,
        frame_time_value(fading, scroll_dir, enable_scroll, frame_delay),
    )
}

pub open spec fn set_movie_looping_cmds(addr: u8, num_loops: u8) -> Seq<(u8, Seq<u8>)> {
    control_write_cmds(addr, CONTROL_DISPLAY_OPTION, display_option_value(num_loops))
}

pub open spec fn set_brightness_cmds(addr: u8, brightness: u8) -> Seq<(u8, Seq<u8>)> {
    control_write_cmds(addr, CONTROL_CURRENT_SOURCE, brightness)
}

pub open spec fn set_configs_cmds(addr: u8, options: u8, mem_config: u8) -> Seq<(u8, Seq<u8>)> {
    control_write_cmds(addr, CONTROL_AS1130_CONFIG, config_value(options, mem_config))
}

pub open spec fn set_interrupt_mask_cmds(addr: u8, options: u8) -> Seq<(u8, Seq<u8>)> {
    control_write_cmds(addr, CONTROL_INTERRUPT_MASK, options)
}

pub open spec fn set_interrupt_frame_cmds(addr: u8, frame: u8) -> Seq<(u8, Seq<u8>)> {
    control_write_cmds(addr, CONTROL_INTERRUPT_FRAME_DEF, interrupt_frame_value(frame))
}

pub open spec fn set_shutdown_test_cmds(addr: u8, options: u8) -> Seq<(u8, Seq<u8>)> {
    control_write_cmds(addr, CONTROL_SHUTDOWN_OPEN_SHORT, shutdown_value(options))
}

pub open spec fn set_i2c_watchdog_cmds(addr: u8, timeout: u8, enable: bool) -> Seq<(u8, Seq<u8>)> {
    control_write_cmds(addr, CONTROL_I2C_INTERFACE_MON, watchdog_value(timeout, enable))
}

pub open spec fn set_clock_sync_cmds(addr: u8, clock_speed: u8, sync_dir: u8) -> Seq<(u8, Seq<u8>)> {
    control_write_cmds(addr, CONTROL_CLK_SYNC, clock_sync_value(clock_speed, sync_dir))
}

/// Bank switch into the on/off page of frame `frame_index`, then the encoded
/// bit buffer.
pub open spec fn write_bit_frame_cmds(addr: u8, frame_index: u8, f: Seq<u8>) -> Seq<(u8, Seq<u8>)> {
    seq![
        reg_write_cmd(addr, REGISTER_SELECT, (frame_index + MEMORY_ON_OFF_START) as u8),
        (addr, bit_buffer_spec(f)),
    ]
}

/// Bank switch into the blink/PWM page of frame `frame_index`, then the
/// encoded PWM buffer.
pub open spec fn write_pwm_frame_cmds(addr: u8, frame_index: u8, f: Seq<u8>) -> Seq<(u8, Seq<u8>)> {
    seq![
        reg_write_cmd(addr, REGISTER_SELECT, (frame_index + MEMORY_BLINK_PWM_START) as u8),
        (addr, pwm_buffer_spec(f)),
    ]
}

/// Bank switch into the blink page of frame `frame_index`, then the encoded
/// bit buffer.
pub open spec fn write_blink_frame_cmds(addr: u8, frame_index: u8, f: Seq<u8>) -> Seq<(u8, Seq<u8>)> {
    seq![
        reg_write_cmd(addr, REGISTER_SELECT, (frame_index + MEMORY_BLINK_PWM_START) as u8),
        (addr, bit_buffer_spec(f)),
    ]
}

/// One AS1130 chip, identified by its fixed device address. Both chips of
/// the device share this operation set; only the address differs.
#[derive(Clone, Copy, Debug, PartialEq, Eq, Structural)]
pub struct As1130 {
    pub addr: u8,
}

impl As1130 {
    /// Raw multi-byte write to this chip.
    pub fn write<B: Bus>(&self, bus: &mut B, bytes: &[u8]) -> (r: Result<(), BusError>)
        ensures
            final(bus).attempts() == old(bus).attempts().push(((self.addr, bytes@), r)),
            r is Ok ==> final(bus).log() == old(bus).log().push((self.addr, bytes@)),
            r is Err ==> final(bus).log() == old(bus).log(),
            B::infallible() ==> r is Ok,
    {
        bus.write(self.addr, bytes)
    }

    /// Raw single-register write: the register address followed by its value.
    pub fn write_register<B: Bus>(&self, bus: &mut B, target_register: u8, value: u8) -> (r: Result<
        (),
        BusError,
    >)
        ensures
            final(bus).attempts() == old(bus).attempts().push(
                (reg_write_cmd(self.addr, target_register, value), r),
            ),
            r is Ok ==> final(bus).log() == old(bus).log().push(
                reg_write_cmd(self.addr, target_register, value),
            ),
            r is Err ==> final(bus).log() == old(bus).log(),
            B::infallible() ==> r is Ok,
    {
        let mut bytes: Vec<u8> = Vec::new();
        bytes.push(target_register);
        bytes.push(value);
        proof {
            assert(bytes@ =~= seq![target_register, value]);
        }
        self.write(bus, bytes.as_slice())
    }

    /// Select the control-register memory bank for subsequent writes.
    pub fn select_control_memory<B: Bus>(&self, bus: &mut B) -> (r: Result<(), BusError>)
        ensures
            final(bus).attempts() == old(bus).attempts().push((select_control_cmd(self.addr), r)),
            r is Ok ==> final(bus).log() == old(bus).log().push(select_control_cmd(self.addr)),
            r is Err ==> final(bus).log() == old(bus).log(),
            B::infallible() ==> r is Ok,
    {
        self.write_register(bus, REGISTER_SELECT, MEMORY_CONTROL_REGISTERS)
    }

    /// Select the control bank, then write one control register. Every
    /// single-register operation below goes through this.
    fn control_write<B: Bus>(&self, bus: &mut B, target_register: u8, value: u8) -> (r: Result<
        (),
        BusError,
    >)
        ensures
            r is Ok ==> final(bus).log() == old(bus).log() + control_write_cmds(self.addr, target_register, value),
            r is Ok ==> final(bus).attempts() == old(bus).attempts() + ok_attempts(control_write_cmds(self.addr, target_register, value)),
            B::infallible() ==> r is Ok,
            r is Err ==> exists|k: int|
                0 <= k < control_write_cmds(self.addr, target_register, value).len() && final(bus).log() == old(bus).log() + control_write_cmds(self.addr, target_register, value).take(k) && final(bus).attempts() == old(bus).attempts() + ok_attempts(control_write_cmds(self.addr, target_register, value).take(k)).push((control_write_cmds(self.addr, target_register, value)[k], r)),
    {
        let ghost cmds = control_write_cmds(self.addr, target_register, value);
        let ghost log0 = bus.log();
        let ghost att0 = bus.attempts();
        let step1 = self.select_control_memory(bus);
        match step1 {
            Ok(()) => {
                proof {
                    lemma_ok_unit(step1);
                }
            },
            Err(e) => {
                proof {
                    assert(bus.log() =~= log0 + cmds.take(0));
                    assert(bus.attempts() =~= att0 + ok_attempts(cmds.take(0)).push(
                        (cmds[0], Result::<(), BusError>::Err(e)),
                    ));
                    assert(0 <= 0 < cmds.len() && bus.log() == old(bus).log() + cmds.take(0)
                        && bus.attempts() == old(bus).attempts() + ok_attempts(
                        cmds.take(0),
                    ).push((cmds[0], Result::<(), BusError>::Err(e))));
                }
                return Err(e);
            },
        }
        let step7 = self.write_register(bus, target_register, value);
        match step7 {
            Ok(()) => {
                proof {
                    lemma_ok_unit(step7);
                    assert(bus.log() =~= log0 + cmds);
                    assert(bus.attempts() =~= att0 + ok_attempts(cmds));
                }
                Ok(())
            },
            Err(e) => {
                proof {
                    assert(bus.log() =~= log0 + cmds.take(1));
                    assert(bus.attempts() =~= att0 + ok_attempts(cmds.take(1)).push(
                        (cmds[1], Result::<(), BusError>::Err(e)),
                    ));
                    assert(0 <= 1 < cmds.len() && bus.log() == old(bus).log() + cmds.take(1)
                        && bus.attempts() == old(bus).attempts() + ok_attempts(
                        cmds.take(1),
                    ).push((cmds[1], Result::<(), BusError>::Err(e))));
                }
                Err(e)
            },
        }
    }

    /// Select the memory frame to display and whether picture display is
    /// enabled.
    pub fn set_frame<B: Bus>(&self, bus: &mut B, frame_index: u8, enable: bool) -> (r: Result<(), BusError>)
        ensures
            r is Ok ==> final(bus).log() == old(bus).log() + set_frame_cmds(self.addr, frame_index, enable),
            r is Ok ==> final(bus).attempts() == old(bus).attempts() + ok_attempts(set_frame_cmds(self.addr, frame_index, enable)),
            B::infallible() ==> r is Ok,
            r is Err ==> exists|k: int|
                0 <= k < set_frame_cmds(self.addr, frame_index, enable).len() && final(bus).log() == old(bus).log() + set_frame_cmds(self.addr, frame_index, enable).take(k) && final(bus).attempts() == old(bus).attempts() + ok_attempts(set_frame_cmds(self.addr, frame_index, enable).take(k)).push((set_frame_cmds(self.addr, frame_index, enable)[k], r)),
    {
        let enable_bit: u8 = if enable {
            0x40
        } else {
            0x00
        };
        let value: u8 = enable_bit | (frame_index & 0b11111);
        let r = self.control_write(bus, CONTROL_PICTURE, value);
        proof {
            let cmds = set_frame_cmds(self.addr, frame_index, enable);
            if r is Err {
                let k = choose|k: int|
                    0 <= k < control_write_cmds(self.addr, CONTROL_PICTURE, value).len() && bus.log() == old(bus).log() + control_write_cmds(self.addr, CONTROL_PICTURE, value).take(k) && bus.attempts()
                        == old(bus).attempts() + ok_attempts(control_write_cmds(self.addr, CONTROL_PICTURE, value).take(k)).push((control_write_cmds(self.addr, CONTROL_PICTURE, value)[k], r));
                assert(0 <= k < cmds.len() && bus.log() == old(bus).log() + cmds.take(k)
                    && bus.attempts() == old(bus).attempts() + ok_attempts(cmds.take(k)).push(
                    (cmds[k], r),
                ));
            }
        }
        r
    }

    /// Set movie frame speed, fading and scrolling options.
    pub fn set_movie_options<B: Bus>(&self, bus: &mut B, fading: bool, scroll_dir: bool, enable_scroll: bool, frame_delay: u8) -> (r: Result<(), BusError>)
        ensures
            r is Ok ==> final(bus).log() == old(bus).log() + set_movie_options_cmds(self.addr, fading, scroll_dir, enable_scroll, frame_delay),
            r is Ok ==> final(bus).attempts() == old(bus).attempts() + ok_attempts(set_movie_options_cmds(self.addr, fading, scroll_dir, enable_scroll, frame_delay)),
            B::infallible() ==> r is Ok,
            r is Err ==> exists|k: int|
                0 <= k < set_movie_options_cmds(self.addr, fading, scroll_dir, enable_scroll, frame_delay).len() && final(bus).log() == old(bus).log() + set_movie_options_cmds(self.addr, fading, scroll_dir, enable_scroll, frame_delay).take(k) && final(bus).attempts() == old(bus).attempts() + ok_attempts(set_movie_options_cmds(self.addr, fading, scroll_dir, enable_scroll, frame_delay).take(k)).push((set_movie_options_cmds(self.addr, fading, scroll_dir, enable_scroll, frame_delay)[k], r)),
    {
        let fading_bit: u8 = if fading {
            0x80
        } else {
            0x00
        };
        let scroll_dir_bit: u8 = if scroll_dir {
            0x40
        } else {
            0x00
        };
        let scroll_bit: u8 = if enable_scroll {
            0x10
        } else {
            0x00
        };
        let value: u8 = fading_bit | scroll_dir_bit | scroll_bit | (frame_delay & 0b1111);
        let r = self.control_write(bus, CONTROL_FRAME_TIME, value);
        proof {
            let cmds = set_movie_options_cmds(self.addr, fading, scroll_dir, enable_scroll, frame_delay);
            if r is Err {
                let k = choose|k: int|
                    0 <= k < control_write_cmds(self.addr, CONTROL_FRAME_TIME, value).len() && bus.log() == old(bus).log() + control_write_cmds(self.addr, CONTROL_FRAME_TIME, value).take(k) && bus.attempts()
                        == old(bus).attempts() + ok_attempts(control_write_cmds(self.addr, CONTROL_FRAME_TIME, value).take(k)).push((control_write_cmds(self.addr, CONTROL_FRAME_TIME, value)[k], r));
                assert(0 <= k < cmds.len() && bus.log() == old(bus).log() + cmds.take(k)
                    && bus.attempts() == old(bus).attempts() + ok_attempts(cmds.take(k)).push(
                    (cmds[k], r),
                ));
            }
        }
        r
    }

    /// Configure how many times the movie loops.
    pub fn set_movie_looping<B: Bus>(&self, bus: &mut B, num_loops: u8) -> (r: Result<(), BusError>)
        ensures
            r is Ok ==> final(bus).log() == old(bus).log() + set_movie_looping_cmds(self.addr, num_loops),
            r is Ok ==> final(bus).attempts() == old(bus).attempts() + ok_attempts(set_movie_looping_cmds(self.addr, num_loops)),
            B::infallible() ==> r is Ok,
            r is Err ==> exists|k: int|
                0 <= k < set_movie_looping_cmds(self.addr, num_loops).len() && final(bus).log() == old(bus).log() + set_movie_looping_cmds(self.addr, num_loops).take(k) && final(bus).attempts() == old(bus).attempts() + ok_attempts(set_movie_looping_cmds(self.addr, num_loops).take(k)).push((set_movie_looping_cmds(self.addr, num_loops)[k], r)),
    {
        let value: u8 = ((num_loops & 0b111) << 5u8) | 0b1011;
        let r = self.control_write(bus, CONTROL_DISPLAY_OPTION, value);
        proof {
            let cmds = set_movie_looping_cmds(self.addr, num_loops);
            if r is Err {
                let k = choose|k: int|
                    0 <= k < control_write_cmds(self.addr, CONTROL_DISPLAY_OPTION, value).len() && bus.log() == old(bus).log() + control_write_cmds(self.addr, CONTROL_DISPLAY_OPTION, value).take(k) && bus.attempts()
                        == old(bus).attempts() + ok_attempts(control_write_cmds(self.addr, CONTROL_DISPLAY_OPTION, value).take(k)).push((control_write_cmds(self.addr, CONTROL_DISPLAY_OPTION, value)[k], r));
                assert(0 <= k < cmds.len() && bus.log() == old(bus).log() + cmds.take(k)
                    && bus.attempts() == old(bus).attempts() + ok_attempts(cmds.take(k)).push(
                    (cmds[k], r),
                ));
            }
        }
        r
    }

    /// Set the chip-wide brightness level.
    pub fn set_brightness<B: Bus>(&self, bus: &mut B, brightness: u8) -> (r: Result<(), BusError>)
        ensures
            r is Ok ==> final(bus).log() == old(bus).log() + set_brightness_cmds(self.addr, brightness),
            r is Ok ==> final(bus).attempts() == old(bus).attempts() + ok_attempts(set_brightness_cmds(self.addr, brightness)),
            B::infallible() ==> r is Ok,
            r is Err ==> exists|k: int|
                0 <= k < set_brightness_cmds(self.addr, brightness).len() && final(bus).log() == old(bus).log() + set_brightness_cmds(self.addr, brightness).take(k) && final(bus).attempts() == old(bus).attempts() + ok_attempts(set_brightness_cmds(self.addr, brightness).take(k)).push((set_brightness_cmds(self.addr, brightness)[k], r)),
    {
        let value: u8 = brightness;
        let r = self.control_write(bus, CONTROL_CURRENT_SOURCE, value);
        proof {
            let cmds = set_brightness_cmds(self.addr, brightness);
            if r is Err {
                let k = choose|k: int|
                    0 <= k < control_write_cmds(self.addr, CONTROL_CURRENT_SOURCE, value).len() && bus.log() == old(bus).log() + control_write_cmds(self.addr, CONTROL_CURRENT_SOURCE, value).take(k) && bus.attempts()
                        == old(bus).attempts() + ok_attempts(control_write_cmds(self.addr, CONTROL_CURRENT_SOURCE, value).take(k)).push((control_write_cmds(self.addr, CONTROL_CURRENT_SOURCE, value)[k], r));
                assert(0 <= k < cmds.len() && bus.log() == old(bus).log() + cmds.take(k)
                    && bus.attempts() == old(bus).attempts() + ok_attempts(cmds.take(k)).push(
                    (cmds[k], r),
                ));
            }
        }
        r
    }

    /// Apply device-configuration flags together with the memory-config
    /// selector.
    pub fn set_configs<B: Bus>(&self, bus: &mut B, options: u8, mem_config: u8) -> (r: Result<(), BusError>)
        ensures
            r is Ok ==> final(bus).log() == old(bus).log() + set_configs_cmds(self.addr, options, mem_config),
            r is Ok ==> final(bus).attempts() == old(bus).attempts() + ok_attempts(set_configs_cmds(self.addr, options, mem_config)),
            B::infallible() ==> r is Ok,
            r is Err ==> exists|k: int|
                0 <= k < set_configs_cmds(self.addr, options, mem_config).len() && final(bus).log() == old(bus).log() + set_configs_cmds(self.addr, options, mem_config).take(k) && final(bus).attempts() == old(bus).attempts() + ok_attempts(set_configs_cmds(self.addr, options, mem_config).take(k)).push((set_configs_cmds(self.addr, options, mem_config)[k], r)),
    {
        let value: u8 = options | (mem_config & 0b111);
        let r = self.control_write(bus, CONTROL_AS1130_CONFIG, value);
        proof {
            let cmds = set_configs_cmds(self.addr, options, mem_config);
            if r is Err {
                let k = choose|k: int|
                    0 <= k < control_write_cmds(self.addr, CONTROL_AS1130_CONFIG, value).len() && bus.log() == old(bus).log() + control_write_cmds(self.addr, CONTROL_AS1130_CONFIG, value).take(k) && bus.attempts()
                        == old(bus).attempts() + ok_attempts(control_write_cmds(self.addr, CONTROL_AS1130_CONFIG, value).take(k)).push((control_write_cmds(self.addr, CONTROL_AS1130_CONFIG, value)[k], r));
                assert(0 <= k < cmds.len() && bus.log() == old(bus).log() + cmds.take(k)
                    && bus.attempts() == old(bus).attempts() + ok_attempts(cmds.take(k)).push(
                    (cmds[k], r),
                ));
            }
        }
        r
    }

    /// Choose which events raise the chip's interrupt line.
    pub fn set_interrupt_mask<B: Bus>(&self, bus: &mut B, options: u8) -> (r: Result<(), BusError>)
        ensures
            r is Ok ==> final(bus).log() == old(bus).log() + set_interrupt_mask_cmds(self.addr, options),
            r is Ok ==> final(bus).attempts() == old(bus).attempts() + ok_attempts(set_interrupt_mask_cmds(self.addr, options)),
            B::infallible() ==> r is Ok,
            r is Err ==> exists|k: int|
                0 <= k < set_interrupt_mask_cmds(self.addr, options).len() && final(bus).log() == old(bus).log() + set_interrupt_mask_cmds(self.addr, options).take(k) && final(bus).attempts() == old(bus).attempts() + ok_attempts(set_interrupt_mask_cmds(self.addr, options).take(k)).push((set_interrupt_mask_cmds(self.addr, options)[k], r)),
    {
        let value: u8 = options;
        let r = self.control_write(bus, CONTROL_INTERRUPT_MASK, value);
        proof {
            let cmds = set_interrupt_mask_cmds(self.addr, options);
            if r is Err {
                let k = choose|k: int|
                    0 <= k < control_write_cmds(self.addr, CONTROL_INTERRUPT_MASK, value).len() && bus.log() == old(bus).log() + control_write_cmds(self.addr, CONTROL_INTERRUPT_MASK, value).take(k) && bus.attempts()
                        == old(bus).attempts() + ok_attempts(control_write_cmds(self.addr, CONTROL_INTERRUPT_MASK, value).take(k)).push((control_write_cmds(self.addr, CONTROL_INTERRUPT_MASK, value)[k], r));
                assert(0 <= k < cmds.len() && bus.log() == old(bus).log() + cmds.take(k)
                    && bus.attempts() == old(bus).attempts() + ok_attempts(cmds.take(k)).push(
                    (cmds[k], r),
                ));
            }
        }
        r
    }

    /// Select the movie frame whose display raises an interrupt.
    pub fn set_interrupt_frame<B: Bus>(&self, bus: &mut B, frame: u8) -> (r: Result<(), BusError>)
        ensures
            r is Ok ==> final(bus).log() == old(bus).log() + set_interrupt_frame_cmds(self.addr, frame),
            r is Ok ==> final(bus).attempts() == old(bus).attempts() + ok_attempts(set_interrupt_frame_cmds(self.addr, frame)),
            B::infallible() ==> r is Ok,
            r is Err ==> exists|k: int|
                0 <= k < set_interrupt_frame_cmds(self.addr, frame).len() && final(bus).log() == old(bus).log() + set_interrupt_frame_cmds(self.addr, frame).take(k) && final(bus).attempts() == old(bus).attempts() + ok_attempts(set_interrupt_frame_cmds(self.addr, frame).take(k)).push((set_interrupt_frame_cmds(self.addr, frame)[k], r)),
    {
        let value: u8 = frame & 0b11111;
        let r = self.control_write(bus, CONTROL_INTERRUPT_FRAME_DEF, value);
        proof {
            let cmds = set_interrupt_frame_cmds(self.addr, frame);
            if r is Err {
                let k = choose|k: int|
                    0 <= k < control_write_cmds(self.addr, CONTROL_INTERRUPT_FRAME_DEF, value).len() && bus.log() == old(bus).log() + control_write_cmds(self.addr, CONTROL_INTERRUPT_FRAME_DEF, value).take(k) && bus.attempts()
                        == old(bus).attempts() + ok_attempts(control_write_cmds(self.addr, CONTROL_INTERRUPT_FRAME_DEF, value).take(k)).push((control_write_cmds(self.addr, CONTROL_INTERRUPT_FRAME_DEF, value)[k], r));
                assert(0 <= k < cmds.len() && bus.log() == old(bus).log() + cmds.take(k)
                    && bus.attempts() == old(bus).attempts() + ok_attempts(cmds.take(k)).push(
                    (cmds[k], r),
                ));
            }
        }
        r
    }

    /// Configure the shutdown/test register.
    pub fn set_shutdown_test<B: Bus>(&self, bus: &mut B, options: u8) -> (r: Result<(), BusError>)
        ensures
            r is Ok ==> final(bus).log() == old(bus).log() + set_shutdown_test_cmds(self.addr, options),
            r is Ok ==> final(bus).attempts() == old(bus).attempts() + ok_attempts(set_shutdown_test_cmds(self.addr, options)),
            B::infallible() ==> r is Ok,
            r is Err ==> exists|k: int|
                0 <= k < set_shutdown_test_cmds(self.addr, options).len() && final(bus).log() == old(bus).log() + set_shutdown_test_cmds(self.addr, options).take(k) && final(bus).attempts() == old(bus).attempts() + ok_attempts(set_shutdown_test_cmds(self.addr, options).take(k)).push((set_shutdown_test_cmds(self.addr, options)[k], r)),
    {
        let value: u8 = options & 0b11111;
        let r = self.control_write(bus, CONTROL_SHUTDOWN_OPEN_SHORT, value);
        proof {
            let cmds = set_shutdown_test_cmds(self.addr, options);
            if r is Err {
                let k = choose|k: int|
                    0 <= k < control_write_cmds(self.addr, CONTROL_SHUTDOWN_OPEN_SHORT, value).len() && bus.log() == old(bus).log() + control_write_cmds(self.addr, CONTROL_SHUTDOWN_OPEN_SHORT, value).take(k) && bus.attempts()
                        == old(bus).attempts() + ok_attempts(control_write_cmds(self.addr, CONTROL_SHUTDOWN_OPEN_SHORT, value).take(k)).push((control_write_cmds(self.addr, CONTROL_SHUTDOWN_OPEN_SHORT, value)[k], r));
                assert(0 <= k < cmds.len() && bus.log() == old(bus).log() + cmds.take(k)
                    && bus.attempts() == old(bus).attempts() + ok_attempts(cmds.take(k)).push(
                    (cmds[k], r),
                ));
            }
        }
        r
    }

    /// Configure the serial-interface watchdog.
    pub fn set_i2c_watchdog<B: Bus>(&self, bus: &mut B, timeout: u8, enable: bool) -> (r: Result<(), BusError>)
        ensures
            r is Ok ==> final(bus).log() == old(bus).log() + set_i2c_watchdog_cmds(self.addr, timeout, enable),
            r is Ok ==> final(bus).attempts() == old(bus).attempts() + ok_attempts(set_i2c_watchdog_cmds(self.addr, timeout, enable)),
            B::infallible() ==> r is Ok,
            r is Err ==> exists|k: int|
                0 <= k < set_i2c_watchdog_cmds(self.addr, timeout, enable).len() && final(bus).log() == old(bus).log() + set_i2c_watchdog_cmds(self.addr, timeout, enable).take(k) && final(bus).attempts() == old(bus).attempts() + ok_attempts(set_i2c_watchdog_cmds(self.addr, timeout, enable).take(k)).push((set_i2c_watchdog_cmds(self.addr, timeout, enable)[k], r)),
    {
        let enable_bit: u8 = if enable {
            0x01
        } else {
            0x00
        };
        let value: u8 = ((timeout & 0b11111) << 1u8) | enable_bit;
        let r = self.control_write(bus, CONTROL_I2C_INTERFACE_MON, value);
        proof {
            let cmds = set_i2c_watchdog_cmds(self.addr, timeout, enable);
            if r is Err {
                let k = choose|k: int|
                    0 <= k < control_write_cmds(self.addr, CONTROL_I2C_INTERFACE_MON, value).len() && bus.log() == old(bus).log() + control_write_cmds(self.addr, CONTROL_I2C_INTERFACE_MON, value).take(k) && bus.attempts()
                        == old(bus).attempts() + ok_attempts(control_write_cmds(self.addr, CONTROL_I2C_INTERFACE_MON, value).take(k)).push((control_write_cmds(self.addr, CONTROL_I2C_INTERFACE_MON, value)[k], r));
                assert(0 <= k < cmds.len() && bus.log() == old(bus).log() + cmds.take(k)
                    && bus.attempts() == old(bus).attempts() + ok_attempts(cmds.take(k)).push(
                    (cmds[k], r),
                ));
            }
        }
        r
    }

    /// Configure clock speed and sync direction.
    pub fn set_clock_sync<B: Bus>(&self, bus: &mut B, clock_speed: u8, sync_dir: u8) -> (r: Result<(), BusError>)
        ensures
            r is Ok ==> final(bus).log() == old(bus).log() + set_clock_sync_cmds(self.addr, clock_speed, sync_dir),
            r is Ok ==> final(bus).attempts() == old(bus).attempts() + ok_attempts(set_clock_sync_cmds(self.addr, clock_speed, sync_dir)),
            B::infallible() ==> r is Ok,
            r is Err ==> exists|k: int|
                0 <= k < set_clock_sync_cmds(self.addr, clock_speed, sync_dir).len() && final(bus).log() == old(bus).log() + set_clock_sync_cmds(self.addr, clock_speed, sync_dir).take(k) && final(bus).attempts() == old(bus).attempts() + ok_attempts(set_clock_sync_cmds(self.addr, clock_speed, sync_dir).take(k)).push((set_clock_sync_cmds(self.addr, clock_speed, sync_dir)[k], r)),
    {
        let value: u8 = ((clock_speed & 0b11) << 2u8) | (sync_dir & 0b11);
        let r = self.control_write(bus, CONTROL_CLK_SYNC, value);
        proof {
            let cmds = set_clock_sync_cmds(self.addr, clock_speed, sync_dir);
            if r is Err {
                let k = choose|k: int|
                    0 <= k < control_write_cmds(self.addr, CONTROL_CLK_SYNC, value).len() && bus.log() == old(bus).log() + control_write_cmds(self.addr, CONTROL_CLK_SYNC, value).take(k) && bus.attempts()
                        == old(bus).attempts() + ok_attempts(control_write_cmds(self.addr, CONTROL_CLK_SYNC, value).take(k)).push((control_write_cmds(self.addr, CONTROL_CLK_SYNC, value)[k], r));
                assert(0 <= k < cmds.len() && bus.log() == old(bus).log() + cmds.take(k)
                    && bus.attempts() == old(bus).attempts() + ok_attempts(cmds.take(k)).push(
                    (cmds[k], r),
                ));
            }
        }
        r
    }

    /// Configure the movie start frame, frame count, looping and enable.
    pub fn set_movie<B: Bus>(
        &self,
        bus: &mut B,
        start_frame_index: u8,
        frame_count: u8,
        loop_frame: bool,
        enable: bool,
    ) -> (r: Result<(), BusError>)
        ensures
            r is Ok ==> final(bus).log() == old(bus).log() + set_movie_cmds(self.addr, start_frame_index, frame_count, loop_frame, enable),
            r is Ok ==> final(bus).attempts() == old(bus).attempts() + ok_attempts(set_movie_cmds(self.addr, start_frame_index, frame_count, loop_frame, enable)),
            B::infallible() ==> r is Ok,
            r is Err ==> exists|k: int|
                0 <= k < set_movie_cmds(self.addr, start_frame_index, frame_count, loop_frame, enable).len() && final(bus).log() == old(bus).log() + set_movie_cmds(self.addr, start_frame_index, frame_count, loop_frame, enable).take(k) && final(bus).attempts() == old(bus).attempts() + ok_attempts(set_movie_cmds(self.addr, start_frame_index, frame_count, loop_frame, enable).take(k)).push((set_movie_cmds(self.addr, start_frame_index, frame_count, loop_frame, enable)[k], r)),
    {
        let ghost cmds = set_movie_cmds(self.addr, start_frame_index, frame_count, loop_frame, enable);
        let ghost log0 = bus.log();
        let ghost att0 = bus.attempts();
        let step2 = self.select_control_memory(bus);
        match step2 {
            Ok(()) => {
                proof {
                    lemma_ok_unit(step2);
                }
            },
            Err(e) => {
                proof {
                    assert(bus.log() =~= log0 + cmds.take(0));
                    assert(bus.attempts() =~= att0 + ok_attempts(cmds.take(0)).push(
                        (cmds[0], Result::<(), BusError>::Err(e)),
                    ));
                    assert(0 <= 0 < cmds.len() && bus.log() == old(bus).log() + cmds.take(0)
                        && bus.attempts() == old(bus).attempts() + ok_attempts(
                        cmds.take(0),
                    ).push((cmds[0], Result::<(), BusError>::Err(e))));
                }
                return Err(e);
            },
        }
        let enable_bit: u8 = if enable {
            0x40
        } else {
            0x00
        };
        let step3 = self.write_register(bus, CONTROL_MOVIE, enable_bit | (start_frame_index & 0b11111));
        match step3 {
            Ok(()) => {
                proof {
                    lemma_ok_unit(step3);
                }
            },
            Err(e) => {
                proof {
                    assert(bus.log() =~= log0 + cmds.take(1));
                    assert(bus.attempts() =~= att0 + ok_attempts(cmds.take(1)).push(
                        (cmds[1], Result::<(), BusError>::Err(e)),
                    ));
                    assert(0 <= 1 < cmds.len() && bus.log() == old(bus).log() + cmds.take(1)
                        && bus.attempts() == old(bus).attempts() + ok_attempts(
                        cmds.take(1),
                    ).push((cmds[1], Result::<(), BusError>::Err(e))));
                }
                return Err(e);
            },
        }
        let loop_bit: u8 = if loop_frame {
            0x40
        } else {
            0x00
        };
        let step8 = self.write_register(bus, CONTROL_MOVIE_MODE, 0x80 | loop_bit | (frame_count & 0b11111));
        match step8 {
            Ok(()) => {
                proof {
                    lemma_ok_unit(step8);
                    assert(bus.log() =~= log0 + cmds);
                    assert(bus.attempts() =~= att0 + ok_attempts(cmds));
                }
                Ok(())
            },
            Err(e) => {
                proof {
                    assert(bus.log() =~= log0 + cmds.take(2));
                    assert(bus.attempts() =~= att0 + ok_attempts(cmds.take(2)).push(
                        (cmds[2], Result::<(), BusError>::Err(e)),
                    ));
                    assert(0 <= 2 < cmds.len() && bus.log() == old(bus).log() + cmds.take(2)
                        && bus.attempts() == old(bus).attempts() + ok_attempts(
                        cmds.take(2),
                    ).push((cmds[2], Result::<(), BusError>::Err(e))));
                }
                Err(e)
            },
        }
    }

    /// Write a bit frame into the on/off memory of frame slot `frame_index`.
    pub fn write_bit_frame<B: Bus>(&self, bus: &mut B, frame_index: u8, bit_frame: &BitFrame) -> (r: Result<
        (),
        BusError,
    >)
        requires
            bit_frame.wf(),
            frame_index + MEMORY_ON_OFF_START <= u8::MAX,
        ensures
            r is Ok ==> final(bus).log() == old(bus).log() + write_bit_frame_cmds(self.addr, frame_index, bit_frame@),
            r is Ok ==> final(bus).attempts() == old(bus).attempts() + ok_attempts(write_bit_frame_cmds(self.addr, frame_index, bit_frame@)),
            B::infallible() ==> r is Ok,
            r is Err ==> exists|k: int|
                0 <= k < write_bit_frame_cmds(self.addr, frame_index, bit_frame@).len() && final(bus).log() == old(bus).log() + write_bit_frame_cmds(self.addr, frame_index, bit_frame@).take(k) && final(bus).attempts() == old(bus).attempts() + ok_attempts(write_bit_frame_cmds(self.addr, frame_index, bit_frame@).take(k)).push((write_bit_frame_cmds(self.addr, frame_index, bit_frame@)[k], r)),
    {
        let ghost cmds = write_bit_frame_cmds(self.addr, frame_index, bit_frame@);
        let ghost log0 = bus.log();
        let ghost att0 = bus.attempts();
        let step4 = self.write_register(bus, REGISTER_SELECT, frame_index + MEMORY_ON_OFF_START);
        match step4 {
            Ok(()) => {
                proof {
                    lemma_ok_unit(step4);
                }
            },
            Err(e) => {
                proof {
                    assert(bus.log() =~= log0 + cmds.take(0));
                    assert(bus.attempts() =~= att0 + ok_attempts(cmds.take(0)).push(
                        (cmds[0], Result::<(), BusError>::Err(e)),
                    ));
                    assert(0 <= 0 < cmds.len() && bus.log() == old(bus).log() + cmds.take(0)
                        && bus.attempts() == old(bus).attempts() + ok_attempts(
                        cmds.take(0),
                    ).push((cmds[0], Result::<(), BusError>::Err(e))));
                }
                return Err(e);
            },
        }
        let buffer = FrameHelpers::create_bit_buffer(bit_frame);
        let step9 = self.write(bus, buffer.as_slice());
        match step9 {
            Ok(()) => {
                proof {
                    lemma_ok_unit(step9);
                    assert(bus.log() =~= log0 + cmds);
                    assert(bus.attempts() =~= att0 + ok_attempts(cmds));
                }
                Ok(())
            },
            Err(e) => {
                proof {
                    assert(bus.log() =~= log0 + cmds.take(1));
                    assert(bus.attempts() =~= att0 + ok_attempts(cmds.take(1)).push(
                        (cmds[1], Result::<(), BusError>::Err(e)),
                    ));
                    assert(0 <= 1 < cmds.len() && bus.log() == old(bus).log() + cmds.take(1)
                        && bus.attempts() == old(bus).attempts() + ok_attempts(
                        cmds.take(1),
                    ).push((cmds[1], Result::<(), BusError>::Err(e))));
                }
                Err(e)
            },
        }
    }

    /// Write a PWM frame into the blink/PWM memory of frame slot
    /// `frame_index`.
    pub fn write_pwm_frame<B: Bus>(&self, bus: &mut B, frame_index: u8, pwm_frame: &PwmFrame) -> (r: Result<
        (),
        BusError,
    >)
        requires
            pwm_frame.wf(),
            frame_index + MEMORY_BLINK_PWM_START <= u8::MAX,
        ensures
            r is Ok ==> final(bus).log() == old(bus).log() + write_pwm_frame_cmds(self.addr, frame_index, pwm_frame@),
            r is Ok ==> final(bus).attempts() == old(bus).attempts() + ok_attempts(write_pwm_frame_cmds(self.addr, frame_index, pwm_frame@)),
            B::infallible() ==> r is Ok,
            r is Err ==> exists|k: int|
                0 <= k < write_pwm_frame_cmds(self.addr, frame_index, pwm_frame@).len() && final(bus).log() == old(bus).log() + write_pwm_frame_cmds(self.addr, frame_index, pwm_frame@).take(k) && final(bus).attempts() == old(bus).attempts() + ok_attempts(write_pwm_frame_cmds(self.addr, frame_index, pwm_frame@).take(k)).push((write_pwm_frame_cmds(self.addr, frame_index, pwm_frame@)[k], r)),
    {
        let ghost cmds = write_pwm_frame_cmds(self.addr, frame_index, pwm_frame@);
        let ghost log0 = bus.log();
        let ghost att0 = bus.attempts();
        let step5 = self.write_register(bus, REGISTER_SELECT, frame_index + MEMORY_BLINK_PWM_START);
        match step5 {
            Ok(()) => {
                proof {
                    lemma_ok_unit(step5);
                }
            },
            Err(e) => {
                proof {
                    assert(bus.log() =~= log0 + cmds.take(0));
                    assert(bus.attempts() =~= att0 + ok_attempts(cmds.take(0)).push(
                        (cmds[0], Result::<(), BusError>::Err(e)),
                    ));
                    assert(0 <= 0 < cmds.len() && bus.log() == old(bus).log() + cmds.take(0)
                        && bus.attempts() == old(bus).attempts() + ok_attempts(
                        cmds.take(0),
                    ).push((cmds[0], Result::<(), BusError>::Err(e))));
                }
                return Err(e);
            },
        }
        let buffer = FrameHelpers::create_pwm_buffer(pwm_frame);
        let step10 = self.write(bus, buffer.as_slice());
        match step10 {
            Ok(()) => {
                proof {
                    lemma_ok_unit(step10);
                    assert(bus.log() =~= log0 + cmds);
                    assert(bus.attempts() =~= att0 + ok_attempts(cmds));
                }
                Ok(())
            },
            Err(e) => {
                proof {
                    assert(bus.log() =~= log0 + cmds.take(1));
                    assert(bus.attempts() =~= att0 + ok_attempts(cmds.take(1)).push(
                        (cmds[1], Result::<(), BusError>::Err(e)),
                    ));
                    assert(0 <= 1 < cmds.len() && bus.log() == old(bus).log() + cmds.take(1)
                        && bus.attempts() == old(bus).attempts() + ok_attempts(
                        cmds.take(1),
                    ).push((cmds[1], Result::<(), BusError>::Err(e))));
                }
                Err(e)
            },
        }
    }

    /// Write a bit frame into the blink memory of frame slot `frame_index`.
    /// The power-on sequence clears blink memory with an all-off frame so
    /// stray contents cannot blink LEDs.
    pub fn write_blink_frame<B: Bus>(&self, bus: &mut B, frame_index: u8, bit_frame: &BitFrame) -> (r: Result<
        (),
        BusError,
    >)
        requires
            bit_frame.wf(),
            frame_index + MEMORY_BLINK_PWM_START <= u8::MAX,
        ensures
            r is Ok ==> final(bus).log() == old(bus).log() + write_blink_frame_cmds(self.addr, frame_index, bit_frame@),
            r is Ok ==> final(bus).attempts() == old(bus).attempts() + ok_attempts(write_blink_frame_cmds(self.addr, frame_index, bit_frame@)),
            B::infallible() ==> r is Ok,
            r is Err ==> exists|k: int|
                0 <= k < write_blink_frame_cmds(self.addr, frame_index, bit_frame@).len() && final(bus).log() == old(bus).log() + write_blink_frame_cmds(self.addr, frame_index, bit_frame@).take(k) && final(bus).attempts() == old(bus).attempts() + ok_attempts(write_blink_frame_cmds(self.addr, frame_index, bit_frame@).take(k)).push((write_blink_frame_cmds(self.addr, frame_index, bit_frame@)[k], r)),
    {
        let ghost cmds = write_blink_frame_cmds(self.addr, frame_index, bit_frame@);
        let ghost log0 = bus.log();
        let ghost att0 = bus.attempts();
        let step6 = self.write_register(bus, REGISTER_SELECT, frame_index + MEMORY_BLINK_PWM_START);
        match step6 {
            Ok(()) => {
                proof {
                    lemma_ok_unit(step6);
                }
            },
            Err(e) => {
                proof {
                    assert(bus.log() =~= log0 + cmds.take(0));
                    assert(bus.attempts() =~= att0 + ok_attempts(cmds.take(0)).push(
                        (cmds[0], Result::<(), BusError>::Err(e)),
                    ));
                    assert(0 <= 0 < cmds.len() && bus.log() == old(bus).log() + cmds.take(0)
                        && bus.attempts() == old(bus).attempts() + ok_attempts(
                        cmds.take(0),
                    ).push((cmds[0], Result::<(), BusError>::Err(e))));
                }
                return Err(e);
            },
        }
        let buffer = FrameHelpers::create_bit_buffer(bit_frame);
        let step11 = self.write(bus, buffer.as_slice());
        match step11 {
            Ok(()) => {
                proof {
                    lemma_ok_unit(step11);
                    assert(bus.log() =~= log0 + cmds);
                    assert(bus.attempts() =~= att0 + ok_attempts(cmds));
                }
                Ok(())
            },
            Err(e) => {
                proof {
                    assert(bus.log() =~= log0 + cmds.take(1));
                    assert(bus.attempts() =~= att0 + ok_attempts(cmds.take(1)).push(
                        (cmds[1], Result::<(), BusError>::Err(e)),
                    ));
                    assert(0 <= 1 < cmds.len() && bus.log() == old(bus).log() + cmds.take(1)
                        && bus.attempts() == old(bus).attempts() + ok_attempts(
                        cmds.take(1),
                    ).push((cmds[1], Result::<(), BusError>::Err(e))));
                }
                Err(e)
            },
        }
    }
}

} // verus!
