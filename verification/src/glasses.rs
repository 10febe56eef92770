//! The display orchestrator: both chips, their current frame buffers, and
//! the fixed power-on and mode-switch sequences.
//!
//! The orchestrator owns the bus and the two chip identities. Its two
//! commands, [`Glasses::init`] and [`Glasses::switch_draw_type`], are fixed
//! write sequences. Each contract names the exact command list the bus saw
//! on success; on a bus failure it pins the traffic down exactly — the
//! writes that landed are the commands before the failing one, the failing
//! command itself was attempted once and its error is what the call returns,
//! and nothing was attempted after it. The frame buffers are filled in step
//! with the sequence, as the chips see them, so on a failure the contract
//! also says which buffers were already set and which still hold their old
//! content (no rollback).

use vstd::prelude::*;

use vstd::seq_lib::lemma_flatten_concat;

use crate::as1130::{
    set_brightness_cmds, set_clock_sync_cmds, set_configs_cmds, set_frame_cmds,
    set_i2c_watchdog_cmds, set_interrupt_frame_cmds, set_interrupt_mask_cmds, set_movie_cmds,
    set_movie_looping_cmds, set_movie_options_cmds, set_shutdown_test_cmds, write_bit_frame_cmds,
    write_blink_frame_cmds, write_pwm_frame_cmds, As1130, ClockSpeed, SyncDir,
    CONFIG_LED_ERROR_CORR, MEMORY_ON_OFF_START, SHUTDOWN_AUTO_TEST, SHUTDOWN_INIT, SHUTDOWN_SHDN,
    SHUTDOWN_TEST_ALL,
};
use crate::bus::{ok_attempts, Bus, BusError};
use crate::frame::{
    empty_bit_frame, empty_pwm_frame, solid_bit_frame, solid_pwm_frame, BitFrame, FrameHelpers,
    PwmFrame,
};

verus! {

/// Fixed device address of the left-eye chip.
pub const ADDR_LEFT: u8 = 0x30;

/// Fixed device address of the right-eye chip.
pub const ADDR_RIGHT: u8 = 0x37;

/// Brightness level both chips start at.
pub const STARTING_BRIGHTNESS: u8 = 16;

/// Timeout value handed to the serial-interface watchdog at power-on.
pub const WATCHDOG_TIMEOUT: u8 = 64;

/// Settling delay, in milliseconds, between the shutdown/test steps of the
/// power-on sequence.
pub const SETTLE_DELAY_MS: u16 = 5;

/// Shutdown/test flag combination applied during power-on: test-all,
/// auto-test, init and shutdown-disable together.
pub const INIT_SHUTDOWN_FLAGS: u8 = SHUTDOWN_TEST_ALL | SHUTDOWN_AUTO_TEST | SHUTDOWN_INIT
    | SHUTDOWN_SHDN;

/// The two ways the device can be driven: per-pixel on/off via the bit
/// frame, or per-pixel intensity via the PWM frame.
#[derive(Clone, Copy, Debug, PartialEq, Eq, Structural)]
pub enum DrawType {
    Pwm,
    Bit,
}

/// The two-chip display: both chip identities, the buffers last written to
/// each chip, the current brightness, and the bus everything goes out on.
pub struct Glasses<B: Bus> {
    pub bus: B,
    pub left: As1130,
    pub right: As1130,
    pub bit_frame_l: BitFrame,
    pub bit_frame_r: BitFrame,
    pub pwm_frame_l: PwmFrame,
    pub pwm_frame_r: PwmFrame,
    pub brightness: u8,
}

/// The target mode's own frames are blank on both chips: a switch clears
/// them first, before anything else happens.
pub open spec fn switch_target_blanked<B: Bus>(g: Glasses<B>, draw_type: DrawType) -> bool {
    match draw_type {
        DrawType::Bit => g.bit_frame_l@ == empty_bit_frame() && g.bit_frame_r@
            == empty_bit_frame(),
        DrawType::Pwm => g.pwm_frame_l@ == empty_pwm_frame() && g.pwm_frame_r@
            == empty_pwm_frame(),
    }
}

/// The other memory's frames are held fully on, on both chips, so they do
/// not gate the displayed content.
pub open spec fn switch_backdrop_set<B: Bus>(g: Glasses<B>, draw_type: DrawType) -> bool {
    match draw_type {
        DrawType::Bit => g.pwm_frame_l@ == solid_pwm_frame() && g.pwm_frame_r@
            == solid_pwm_frame(),
        DrawType::Pwm => g.bit_frame_l@ == solid_bit_frame() && g.bit_frame_r@
            == solid_bit_frame(),
    }
}

/// The other memory's frames still hold what they held before the switch:
/// nothing touches them until the target frames have gone out.
pub open spec fn switch_backdrop_unchanged<B: Bus>(
    pre: Glasses<B>,
    post: Glasses<B>,
    draw_type: DrawType,
) -> bool {
    match draw_type {
        DrawType::Bit => post.pwm_frame_l == pre.pwm_frame_l && post.pwm_frame_r
            == pre.pwm_frame_r,
        DrawType::Pwm => post.bit_frame_l == pre.bit_frame_l && post.bit_frame_r
            == pre.bit_frame_r,
    }
}

/// The buffer contents the orchestrator holds once it has fully entered
/// `draw_type` mode: the mode's own frames blank, the other memory fully on.
pub open spec fn mode_buffers<B: Bus>(g: Glasses<B>, draw_type: DrawType) -> bool {
    switch_target_blanked(g, draw_type) && switch_backdrop_set(g, draw_type)
}

/// Power-on, first part: release the shutdown/test register on both chips,
/// then apply the full init flag combination, a settling delay after each
/// pair.
pub open spec fn init_power_ops() -> Seq<Seq<(u8, Seq<u8>)>> {
    seq![
        set_shutdown_test_cmds(ADDR_LEFT, 0),
        set_shutdown_test_cmds(ADDR_RIGHT, 0),
        set_shutdown_test_cmds(ADDR_LEFT, INIT_SHUTDOWN_FLAGS),
        set_shutdown_test_cmds(ADDR_RIGHT, INIT_SHUTDOWN_FLAGS),
    ]
}

pub open spec fn init_power_cmds() -> Seq<(u8, Seq<u8>)> {
    init_power_ops().flatten()
}

/// Power-on, second part: device config, movie disable, movie timing and
/// looping defaults, and the startup brightness, on both chips.
pub open spec fn init_control_a_ops() -> Seq<Seq<(u8, Seq<u8>)>> {
    seq![
        set_configs_cmds(ADDR_LEFT, CONFIG_LED_ERROR_CORR, 0b1),
        set_configs_cmds(ADDR_RIGHT, CONFIG_LED_ERROR_CORR, 0b1),
        set_movie_cmds(ADDR_LEFT, 0, 0, false, false),
        set_movie_cmds(ADDR_RIGHT, 0, 0, false, false),
        set_movie_options_cmds(ADDR_LEFT, false, false, false, 0),
        set_movie_options_cmds(ADDR_RIGHT, false, false, false, 0),
        set_movie_looping_cmds(ADDR_LEFT, 1),
        set_movie_looping_cmds(ADDR_RIGHT, 1),
        set_brightness_cmds(ADDR_LEFT, STARTING_BRIGHTNESS),
        set_brightness_cmds(ADDR_RIGHT, STARTING_BRIGHTNESS),
    ]
}

pub open spec fn init_control_a_cmds() -> Seq<(u8, Seq<u8>)> {
    init_control_a_ops().flatten()
}

/// Power-on, third part: clear the interrupt mask and interrupt frame,
/// enable the serial-interface watchdog, and configure clock sync — the
/// left chip as sync source, the right as follower, both at the same speed.
pub open spec fn init_control_b_ops() -> Seq<Seq<(u8, Seq<u8>)>> {
    seq![
        set_interrupt_mask_cmds(ADDR_LEFT, 0),
        set_interrupt_mask_cmds(ADDR_RIGHT, 0),
        set_interrupt_frame_cmds(ADDR_LEFT, 0),
        set_interrupt_frame_cmds(ADDR_RIGHT, 0),
        set_i2c_watchdog_cmds(ADDR_LEFT, WATCHDOG_TIMEOUT, true),
        set_i2c_watchdog_cmds(ADDR_RIGHT, WATCHDOG_TIMEOUT, true),
        set_clock_sync_cmds(ADDR_LEFT, ClockSpeed::Mhz1.bits_spec(), SyncDir::Out.bits_spec()),
        set_clock_sync_cmds(ADDR_RIGHT, ClockSpeed::Mhz1.bits_spec(), SyncDir::In.bits_spec()),
    ]
}

pub open spec fn init_control_b_cmds() -> Seq<(u8, Seq<u8>)> {
    init_control_b_ops().flatten()
}

/// Power-on, last part: an all-on PWM frame and an all-off bit frame into
/// slot zero of both chips, a cleared blink frame so stray blink contents
/// cannot blink LEDs, then enable display of frame zero. The PWM pair is
/// filled just before its writes and the bit pair just after the PWM
/// writes, in the order the chips see the data.
pub open spec fn init_frames_ops() -> Seq<Seq<(u8, Seq<u8>)>> {
    seq![
        write_pwm_frame_cmds(ADDR_LEFT, 0, solid_pwm_frame()),
        write_pwm_frame_cmds(ADDR_RIGHT, 0, solid_pwm_frame()),
        write_bit_frame_cmds(ADDR_LEFT, 0, empty_bit_frame()),
        write_bit_frame_cmds(ADDR_RIGHT, 0, empty_bit_frame()),
        write_blink_frame_cmds(ADDR_LEFT, 0, empty_bit_frame()),
        write_blink_frame_cmds(ADDR_RIGHT, 0, empty_bit_frame()),
        set_frame_cmds(ADDR_LEFT, 0, true),
        set_frame_cmds(ADDR_RIGHT, 0, true),
    ]
}

pub open spec fn init_frames_cmds() -> Seq<(u8, Seq<u8>)> {
    init_frames_ops().flatten()
}

/// Every bus command the power-on sequence issues, in order.
pub open spec fn init_cmds() -> Seq<(u8, Seq<u8>)> {
    init_power_cmds() + init_control_a_cmds() + init_control_b_cmds() + init_frames_cmds()
}

/// Commands issued by the power-on sequence before any frame data moves:
/// everything up to and including the clock-sync configuration.
pub open spec fn init_control_len() -> int {
    init_power_cmds().len() + init_control_a_cmds().len() + init_control_b_cmds().len() as int
}

/// Buffer state after a power-on attempt that stopped after `m` commands.
/// The buffers are filled in step with the sequence: untouched through the
/// control commands, the PWM pair set just before the two PWM-frame writes
/// (two commands each, hence the offset of four), the bit pair set just
/// after them. The blink writes reuse the already-blanked bit pair.
pub open spec fn init_partial_buffers<B: Bus>(pre: Glasses<B>, post: Glasses<B>, m: int) -> bool {
    &&& m < init_control_len() ==> post.pwm_frame_l == pre.pwm_frame_l && post.pwm_frame_r
        == pre.pwm_frame_r && post.bit_frame_l == pre.bit_frame_l && post.bit_frame_r
        == pre.bit_frame_r
    &&& init_control_len() <= m ==> post.pwm_frame_l@ == solid_pwm_frame() && post.pwm_frame_r@
        == solid_pwm_frame()
    &&& init_control_len() <= m < init_control_len() + 4 ==> post.bit_frame_l == pre.bit_frame_l
        && post.bit_frame_r == pre.bit_frame_r
    &&& init_control_len() + 4 <= m ==> post.bit_frame_l@ == empty_bit_frame()
        && post.bit_frame_r@ == empty_bit_frame()
}

/// The mode-switch sequence: blank the target mode's frames and write them
/// to both chips, then set the other memory fully on and write it to both.
/// The bit frame goes to the given frame slot; the PWM frame always goes to
/// slot zero.
pub open spec fn switch_ops(frame_index: u8, draw_type: DrawType) -> Seq<Seq<(u8, Seq<u8>)>> {
    match draw_type {
        DrawType::Bit => seq![
            write_bit_frame_cmds(ADDR_LEFT, frame_index, empty_bit_frame()),
            write_bit_frame_cmds(ADDR_RIGHT, frame_index, empty_bit_frame()),
            write_pwm_frame_cmds(ADDR_LEFT, 0, solid_pwm_frame()),
            write_pwm_frame_cmds(ADDR_RIGHT, 0, solid_pwm_frame()),
        ],
        DrawType::Pwm => seq![
            write_pwm_frame_cmds(ADDR_LEFT, 0, empty_pwm_frame()),
            write_pwm_frame_cmds(ADDR_RIGHT, 0, empty_pwm_frame()),
            write_bit_frame_cmds(ADDR_LEFT, frame_index, solid_bit_frame()),
            write_bit_frame_cmds(ADDR_RIGHT, frame_index, solid_bit_frame()),
        ],
    }
}

/// Every bus command a mode switch issues, in order.
pub open spec fn switch_cmds(frame_index: u8, draw_type: DrawType) -> Seq<(u8, Seq<u8>)> {
    switch_ops(frame_index, draw_type).flatten()
}

/// Attempt records distribute over concatenation of command runs.
proof fn lemma_ok_attempts_add(a: Seq<(u8, Seq<u8>)>, b: Seq<(u8, Seq<u8>)>)
    ensures
        ok_attempts(a + b) == ok_attempts(a) + ok_attempts(b),
{
    assert(ok_attempts(a + b) =~= ok_attempts(a) + ok_attempts(b));
}

/// Completing one more operation of a command list extends the flattened
/// prefix by exactly that operation's commands.
proof fn lemma_ops_take_step<A>(ops: Seq<Seq<A>>, j: int)
    requires
        0 <= j < ops.len(),
    ensures
        ops.take(j + 1).flatten() == ops.take(j).flatten() + ops[j],
{
    assert(ops.take(j + 1) =~= ops.take(j).push(ops[j]));
    ops.take(j).lemma_flatten_push(ops[j]);
}

/// If operation `j` of a command list stops at its command `k`, the commands
/// that landed are a strict prefix of the whole flattened list, and the
/// command it stopped at sits right after them.
proof fn lemma_ops_abort<A>(ops: Seq<Seq<A>>, j: int, k: int)
    requires
        0 <= j < ops.len(),
        0 <= k < ops[j].len(),
    ensures
        0 <= ops.take(j).flatten().len() + k < ops.flatten().len(),
        ops.flatten().take(ops.take(j).flatten().len() + k) == ops.take(j).flatten()
            + ops[j].take(k),
        ops.flatten()[ops.take(j).flatten().len() + k] == ops[j][k],
{
    assert(ops =~= ops.take(j) + ops.skip(j));
    lemma_flatten_concat(ops.take(j), ops.skip(j));
    assert(ops.skip(j).first() == ops[j]);
    assert(ops.skip(j).flatten() == ops[j] + ops.skip(j).drop_first().flatten());
    assert(ops.flatten() =~= ops.take(j).flatten() + (ops[j] + ops.skip(j).drop_first().flatten()));
    assert(ops.flatten().take(ops.take(j).flatten().len() + k) =~= ops.take(j).flatten()
        + ops[j].take(k));
    assert(ops.flatten()[ops.take(j).flatten().len() + k] == ops[j][k]);
}

/// One sequence step succeeded: with the log and attempt record standing at
/// the prefix of `j` operations plus all of operation `j`, both now stand at
/// the prefix of `j + 1` operations.
proof fn lemma_step_ok(
    ops: Seq<Seq<(u8, Seq<u8>)>>,
    j: int,
    base: Seq<(u8, Seq<u8>)>,
    base_att: Seq<((u8, Seq<u8>), Result<(), BusError>)>,
    log: Seq<(u8, Seq<u8>)>,
    att: Seq<((u8, Seq<u8>), Result<(), BusError>)>,
)
    requires
        0 <= j < ops.len(),
        log == base + ops.take(j).flatten() + ops[j],
        att == base_att + ok_attempts(ops.take(j).flatten()) + ok_attempts(ops[j]),
    ensures
        ops.take(j + 1).flatten() == ops.take(j).flatten() + ops[j],
        log == base + ops.take(j + 1).flatten(),
        att == base_att + ok_attempts(ops.take(j + 1).flatten()),
{
    lemma_ops_take_step(ops, j);
    lemma_ok_attempts_add(ops.take(j).flatten(), ops[j]);
    assert(log =~= base + ops.take(j + 1).flatten());
    assert(att =~= base_att + ok_attempts(ops.take(j + 1).flatten()));
}

/// One sequence step failed at its command `k`: the log holds the whole
/// list's strict prefix up to that command, and the attempt record ends with
/// that command's rejection. `full` is the flattened list under its caller's
/// name.
proof fn lemma_step_err(
    ops: Seq<Seq<(u8, Seq<u8>)>>,
    full: Seq<(u8, Seq<u8>)>,
    j: int,
    k: int,
    base: Seq<(u8, Seq<u8>)>,
    base_att: Seq<((u8, Seq<u8>), Result<(), BusError>)>,
    log: Seq<(u8, Seq<u8>)>,
    att: Seq<((u8, Seq<u8>), Result<(), BusError>)>,
    r: Result<(), BusError>,
)
    requires
        full == ops.flatten(),
        0 <= j < ops.len(),
        0 <= k < ops[j].len(),
        log == base + ops.take(j).flatten() + ops[j].take(k),
        att == base_att + ok_attempts(ops.take(j).flatten()) + ok_attempts(ops[j].take(k)).push(
            (ops[j][k], r),
        ),
    ensures
        0 <= ops.take(j).flatten().len() + k < full.len(),
        log == base + full.take(ops.take(j).flatten().len() + k),
        att == base_att + ok_attempts(full.take(ops.take(j).flatten().len() + k)).push(
            (full[ops.take(j).flatten().len() + k], r),
        ),
{
    lemma_ops_abort(ops, j, k);
    lemma_ok_attempts_add(ops.take(j).flatten(), ops[j].take(k));
    assert(log =~= base + full.take(ops.take(j).flatten().len() + k));
    assert(att =~= base_att + ok_attempts(full.take(ops.take(j).flatten().len() + k)).push(
        (full[ops.take(j).flatten().len() + k], r),
    ));
}

/// Switching away from a draw mode and back restores both chips' buffers
/// exactly: the buffer state after a completed switch depends only on the
/// target mode, not on anything drawn in between, so a round trip through
/// the other mode leaves every buffer pixel-identical to its pre-switch
/// content.
pub proof fn lemma_switch_round_trip<B: Bus>(
    g0: Glasses<B>,
    g1: Glasses<B>,
    g2: Glasses<B>,
    away: DrawType,
    back: DrawType,
)
    requires
        mode_buffers(g0, back),
        mode_buffers(g1, away),
        mode_buffers(g2, back),
    ensures
        g2.bit_frame_l@ == g0.bit_frame_l@,
        g2.bit_frame_r@ == g0.bit_frame_r@,
        g2.pwm_frame_l@ == g0.pwm_frame_l@,
        g2.pwm_frame_r@ == g0.pwm_frame_r@,
{
}

impl<B: Bus> Glasses<B> {
    /// Both chip identities carry their fixed addresses and all four
    /// buffers have their full size.
    pub open spec fn wf(&self) -> bool {
        self.left.addr == ADDR_LEFT && self.right.addr == ADDR_RIGHT && self.bit_frame_l.wf()
            && self.bit_frame_r.wf() && self.pwm_frame_l.wf() && self.pwm_frame_r.wf()
    }

    /// A fresh orchestrator: both frames blank on both chips, brightness at
    /// the startup constant, nothing sent yet.
    pub fn new(bus: B) -> (g: Glasses<B>)
        ensures
            g.wf(),
            g.bus == bus,
            g.bit_frame_l@ == empty_bit_frame(),
            g.bit_frame_r@ == empty_bit_frame(),
            g.pwm_frame_l@ == empty_pwm_frame(),
            g.pwm_frame_r@ == empty_pwm_frame(),
            g.brightness == STARTING_BRIGHTNESS,
    {
        Glasses {
            bus,
            left: As1130 { addr: ADDR_LEFT },
            right: As1130 { addr: ADDR_RIGHT },
            bit_frame_l: BitFrame::new(),
            bit_frame_r: BitFrame::new(),
            pwm_frame_l: PwmFrame::new(),
            pwm_frame_r: PwmFrame::new(),
            brightness: STARTING_BRIGHTNESS,
        }
    }

    /// Power-on, first part: the shutdown/test handshake with its two
    /// settling delays.
    #[verifier::rlimit(80)]
    fn init_power(&mut self) -> (r: Result<(), BusError>)
        requires
            old(self).wf(),
        ensures
            final(self).wf(),
            final(self).left == old(self).left,
            final(self).right == old(self).right,
            final(self).brightness == old(self).brightness,
            final(self).bit_frame_l == old(self).bit_frame_l,
            final(self).bit_frame_r == old(self).bit_frame_r,
            final(self).pwm_frame_l == old(self).pwm_frame_l,
            final(self).pwm_frame_r == old(self).pwm_frame_r,
            B::infallible() ==> r is Ok,
            r is Ok ==> final(self).bus.log() == old(self).bus.log() + init_power_cmds(),
            r is Ok ==> final(self).bus.attempts() == old(self).bus.attempts() + ok_attempts(
                init_power_cmds(),
            ),
            r is Err ==> exists|m: int|
                0 <= m < init_power_cmds().len() && final(self).bus.log() == old(self).bus.log() + init_power_cmds().take(m)
                    && final(self).bus.attempts() == old(self).bus.attempts() + ok_attempts(
                    init_power_cmds().take(m),
                ).push((init_power_cmds()[m], r)),
    {
        let ghost base = self.bus.log();
        let ghost base_att = self.bus.attempts();
        proof {
            assert(init_power_ops().take(0int).flatten() =~= Seq::<(u8, Seq<u8>)>::empty());
            assert(self.bus.log() =~= base + init_power_ops().take(0int).flatten());
            assert(self.bus.attempts() =~= base_att + ok_attempts(init_power_ops().take(0int).flatten()));
        }
        let ghost pre0 = self.bus.log();
        let ghost preatt0 = self.bus.attempts();
        match self.left.set_shutdown_test(&mut self.bus, 0) {
            Ok(()) => {
                proof {
                    assert(init_power_ops()[0int] == set_shutdown_test_cmds(ADDR_LEFT, 0));
                    lemma_step_ok(init_power_ops(), 0int, base, base_att, self.bus.log(), self.bus.attempts());
                }
            },
            Err(e) => {
                proof {
                    let opc = set_shutdown_test_cmds(ADDR_LEFT, 0);
                    assert(init_power_ops()[0int] == opc);
                    let k = choose|k: int|
                        0 <= k < opc.len() && self.bus.log() == pre0 + opc.take(k)
                            && self.bus.attempts() == preatt0 + ok_attempts(opc.take(k)).push(
                            (opc[k], Result::<(), BusError>::Err(e)),
                        );
                    lemma_step_err(
                        init_power_ops(),
                        init_power_cmds(),
                        0int,
                        k,
                        base,
                        base_att,
                        self.bus.log(),
                        self.bus.attempts(),
                        Result::<(), BusError>::Err(e),
                    );
                }
                return Err(e);
            },
        }
        let ghost pre1 = self.bus.log();
        let ghost preatt1 = self.bus.attempts();
        match self.right.set_shutdown_test(&mut self.bus, 0) {
            Ok(()) => {
                proof {
                    assert(init_power_ops()[1int] == set_shutdown_test_cmds(ADDR_RIGHT, 0));
                    lemma_step_ok(init_power_ops(), 1int, base, base_att, self.bus.log(), self.bus.attempts());
                }
            },
            Err(e) => {
                proof {
                    let opc = set_shutdown_test_cmds(ADDR_RIGHT, 0);
                    assert(init_power_ops()[1int] == opc);
                    let k = choose|k: int|
                        0 <= k < opc.len() && self.bus.log() == pre1 + opc.take(k)
                            && self.bus.attempts() == preatt1 + ok_attempts(opc.take(k)).push(
                            (opc[k], Result::<(), BusError>::Err(e)),
                        );
                    lemma_step_err(
                        init_power_ops(),
                        init_power_cmds(),
                        1int,
                        k,
                        base,
                        base_att,
                        self.bus.log(),
                        self.bus.attempts(),
                        Result::<(), BusError>::Err(e),
                    );
                }
                return Err(e);
            },
        }
        self.bus.delay_ms(SETTLE_DELAY_MS);
        proof {
            assert(self.bus.log() == base + init_power_ops().take(2int).flatten());
            assert(self.bus.attempts() == base_att + ok_attempts(init_power_ops().take(2int).flatten()));
        }
        let ghost pre2 = self.bus.log();
        let ghost preatt2 = self.bus.attempts();
        match self.left.set_shutdown_test(&mut self.bus, INIT_SHUTDOWN_FLAGS) {
            Ok(()) => {
                proof {
                    assert(init_power_ops()[2int] == set_shutdown_test_cmds(ADDR_LEFT, INIT_SHUTDOWN_FLAGS));
                    lemma_step_ok(init_power_ops(), 2int, base, base_att, self.bus.log(), self.bus.attempts());
                }
            },
            Err(e) => {
                proof {
                    let opc = set_shutdown_test_cmds(ADDR_LEFT, INIT_SHUTDOWN_FLAGS);
                    assert(init_power_ops()[2int] == opc);
                    let k = choose|k: int|
                        0 <= k < opc.len() && self.bus.log() == pre2 + opc.take(k)
                            && self.bus.attempts() == preatt2 + ok_attempts(opc.take(k)).push(
                            (opc[k], Result::<(), BusError>::Err(e)),
                        );
                    lemma_step_err(
                        init_power_ops(),
                        init_power_cmds(),
                        2int,
                        k,
                        base,
                        base_att,
                        self.bus.log(),
                        self.bus.attempts(),
                        Result::<(), BusError>::Err(e),
                    );
                }
                return Err(e);
            },
        }
        let ghost pre3 = self.bus.log();
        let ghost preatt3 = self.bus.attempts();
        match self.right.set_shutdown_test(&mut self.bus, INIT_SHUTDOWN_FLAGS) {
            Ok(()) => {
                proof {
                    assert(init_power_ops()[3int] == set_shutdown_test_cmds(ADDR_RIGHT, INIT_SHUTDOWN_FLAGS));
                    lemma_step_ok(init_power_ops(), 3int, base, base_att, self.bus.log(), self.bus.attempts());
                }
            },
            Err(e) => {
                proof {
                    let opc = set_shutdown_test_cmds(ADDR_RIGHT, INIT_SHUTDOWN_FLAGS);
                    assert(init_power_ops()[3int] == opc);
                    let k = choose|k: int|
                        0 <= k < opc.len() && self.bus.log() == pre3 + opc.take(k)
                            && self.bus.attempts() == preatt3 + ok_attempts(opc.take(k)).push(
                            (opc[k], Result::<(), BusError>::Err(e)),
                        );
                    lemma_step_err(
                        init_power_ops(),
                        init_power_cmds(),
                        3int,
                        k,
                        base,
                        base_att,
                        self.bus.log(),
                        self.bus.attempts(),
                        Result::<(), BusError>::Err(e),
                    );
                }
                return Err(e);
            },
        }
        self.bus.delay_ms(SETTLE_DELAY_MS);
        proof {
            assert(self.bus.log() == base + init_power_ops().take(4int).flatten());
            assert(self.bus.attempts() == base_att + ok_attempts(init_power_ops().take(4int).flatten()));
        }
        proof {
            assert(init_power_ops().take(4int) =~= init_power_ops());
            assert(self.bus.log() == base + init_power_cmds());
            assert(self.bus.attempts() == base_att + ok_attempts(init_power_cmds()));
        }
        Ok(())
    }

    /// Power-on, second part: device config, movie defaults and the
    /// startup brightness.
    #[verifier::rlimit(100)]
    fn init_control_a(&mut self) -> (r: Result<(), BusError>)
        requires
            old(self).wf(),
        ensures
            final(self).wf(),
            final(self).left == old(self).left,
            final(self).right == old(self).right,
            final(self).brightness == old(self).brightness,
            final(self).bit_frame_l == old(self).bit_frame_l,
            final(self).bit_frame_r == old(self).bit_frame_r,
            final(self).pwm_frame_l == old(self).pwm_frame_l,
            final(self).pwm_frame_r == old(self).pwm_frame_r,
            B::infallible() ==> r is Ok,
            r is Ok ==> final(self).bus.log() == old(self).bus.log() + init_control_a_cmds(),
            r is Ok ==> final(self).bus.attempts() == old(self).bus.attempts() + ok_attempts(
                init_control_a_cmds(),
            ),
            r is Err ==> exists|m: int|
                0 <= m < init_control_a_cmds().len() && final(self).bus.log() == old(self).bus.log() + init_control_a_cmds().take(m)
                    && final(self).bus.attempts() == old(self).bus.attempts() + ok_attempts(
                    init_control_a_cmds().take(m),
                ).push((init_control_a_cmds()[m], r)),
    {
        let ghost base = self.bus.log();
        let ghost base_att = self.bus.attempts();
        proof {
            assert(init_control_a_ops().take(0int).flatten() =~= Seq::<(u8, Seq<u8>)>::empty());
            assert(self.bus.log() =~= base + init_control_a_ops().take(0int).flatten());
            assert(self.bus.attempts() =~= base_att + ok_attempts(init_control_a_ops().take(0int).flatten()));
        }
        let ghost pre0 = self.bus.log();
        let ghost preatt0 = self.bus.attempts();
        match self.left.set_configs(&mut self.bus, CONFIG_LED_ERROR_CORR, 0b1) {
            Ok(()) => {
                proof {
                    assert(init_control_a_ops()[0int] == set_configs_cmds(ADDR_LEFT, CONFIG_LED_ERROR_CORR, 0b1));
                    lemma_step_ok(init_control_a_ops(), 0int, base, base_att, self.bus.log(), self.bus.attempts());
                }
            },
            Err(e) => {
                proof {
                    let opc = set_configs_cmds(ADDR_LEFT, CONFIG_LED_ERROR_CORR, 0b1);
                    assert(init_control_a_ops()[0int] == opc);
                    let k = choose|k: int|
                        0 <= k < opc.len() && self.bus.log() == pre0 + opc.take(k)
                            && self.bus.attempts() == preatt0 + ok_attempts(opc.take(k)).push(
                            (opc[k], Result::<(), BusError>::Err(e)),
                        );
                    lemma_step_err(
                        init_control_a_ops(),
                        init_control_a_cmds(),
                        0int,
                        k,
                        base,
                        base_att,
                        self.bus.log(),
                        self.bus.attempts(),
                        Result::<(), BusError>::Err(e),
                    );
                }
                return Err(e);
            },
        }
        let ghost pre1 = self.bus.log();
        let ghost preatt1 = self.bus.attempts();
        match self.right.set_configs(&mut self.bus, CONFIG_LED_ERROR_CORR, 0b1) {
            Ok(()) => {
                proof {
                    assert(init_control_a_ops()[1int] == set_configs_cmds(ADDR_RIGHT, CONFIG_LED_ERROR_CORR, 0b1));
                    lemma_step_ok(init_control_a_ops(), 1int, base, base_att, self.bus.log(), self.bus.attempts());
                }
            },
            Err(e) => {
                proof {
                    let opc = set_configs_cmds(ADDR_RIGHT, CONFIG_LED_ERROR_CORR, 0b1);
                    assert(init_control_a_ops()[1int] == opc);
                    let k = choose|k: int|
                        0 <= k < opc.len() && self.bus.log() == pre1 + opc.take(k)
                            && self.bus.attempts() == preatt1 + ok_attempts(opc.take(k)).push(
                            (opc[k], Result::<(), BusError>::Err(e)),
                        );
                    lemma_step_err(
                        init_control_a_ops(),
                        init_control_a_cmds(),
                        1int,
                        k,
                        base,
                        base_att,
                        self.bus.log(),
                        self.bus.attempts(),
                        Result::<(), BusError>::Err(e),
                    );
                }
                return Err(e);
            },
        }
        let ghost pre2 = self.bus.log();
        let ghost preatt2 = self.bus.attempts();
        match self.left.set_movie(&mut self.bus, 0, 0, false, false) {
            Ok(()) => {
                proof {
                    assert(init_control_a_ops()[2int] == set_movie_cmds(ADDR_LEFT, 0, 0, false, false));
                    lemma_step_ok(init_control_a_ops(), 2int, base, base_att, self.bus.log(), self.bus.attempts());
                }
            },
            Err(e) => {
                proof {
                    let opc = set_movie_cmds(ADDR_LEFT, 0, 0, false, false);
                    assert(init_control_a_ops()[2int] == opc);
                    let k = choose|k: int|
                        0 <= k < opc.len() && self.bus.log() == pre2 + opc.take(k)
                            && self.bus.attempts() == preatt2 + ok_attempts(opc.take(k)).push(
                            (opc[k], Result::<(), BusError>::Err(e)),
                        );
                    lemma_step_err(
                        init_control_a_ops(),
                        init_control_a_cmds(),
                        2int,
                        k,
                        base,
                        base_att,
                        self.bus.log(),
                        self.bus.attempts(),
                        Result::<(), BusError>::Err(e),
                    );
                }
                return Err(e);
            },
        }
        let ghost pre3 = self.bus.log();
        let ghost preatt3 = self.bus.attempts();
        match self.right.set_movie(&mut self.bus, 0, 0, false, false) {
            Ok(()) => {
                proof {
                    assert(init_control_a_ops()[3int] == set_movie_cmds(ADDR_RIGHT, 0, 0, false, false));
                    lemma_step_ok(init_control_a_ops(), 3int, base, base_att, self.bus.log(), self.bus.attempts());
                }
            },
            Err(e) => {
                proof {
                    let opc = set_movie_cmds(ADDR_RIGHT, 0, 0, false, false);
                    assert(init_control_a_ops()[3int] == opc);
                    let k = choose|k: int|
                        0 <= k < opc.len() && self.bus.log() == pre3 + opc.take(k)
                            && self.bus.attempts() == preatt3 + ok_attempts(opc.take(k)).push(
                            (opc[k], Result::<(), BusError>::Err(e)),
                        );
                    lemma_step_err(
                        init_control_a_ops(),
                        init_control_a_cmds(),
                        3int,
                        k,
                        base,
                        base_att,
                        self.bus.log(),
                        self.bus.attempts(),
                        Result::<(), BusError>::Err(e),
                    );
                }
                return Err(e);
            },
        }
        let ghost pre4 = self.bus.log();
        let ghost preatt4 = self.bus.attempts();
        match self.left.set_movie_options(&mut self.bus, false, false, false, 0) {
            Ok(()) => {
                proof {
                    assert(init_control_a_ops()[4int] == set_movie_options_cmds(ADDR_LEFT, false, false, false, 0));
                    lemma_step_ok(init_control_a_ops(), 4int, base, base_att, self.bus.log(), self.bus.attempts());
                }
            },
            Err(e) => {
                proof {
                    let opc = set_movie_options_cmds(ADDR_LEFT, false, false, false, 0);
                    assert(init_control_a_ops()[4int] == opc);
                    let k = choose|k: int|
                        0 <= k < opc.len() && self.bus.log() == pre4 + opc.take(k)
                            && self.bus.attempts() == preatt4 + ok_attempts(opc.take(k)).push(
                            (opc[k], Result::<(), BusError>::Err(e)),
                        );
                    lemma_step_err(
                        init_control_a_ops(),
                        init_control_a_cmds(),
                        4int,
                        k,
                        base,
                        base_att,
                        self.bus.log(),
                        self.bus.attempts(),
                        Result::<(), BusError>::Err(e),
                    );
                }
                return Err(e);
            },
        }
        let ghost pre5 = self.bus.log();
        let ghost preatt5 = self.bus.attempts();
        match self.right.set_movie_options(&mut self.bus, false, false, false, 0) {
            Ok(()) => {
                proof {
                    assert(init_control_a_ops()[5int] == set_movie_options_cmds(ADDR_RIGHT, false, false, false, 0));
                    lemma_step_ok(init_control_a_ops(), 5int, base, base_att, self.bus.log(), self.bus.attempts());
                }
            },
            Err(e) => {
                proof {
                    let opc = set_movie_options_cmds(ADDR_RIGHT, false, false, false, 0);
                    assert(init_control_a_ops()[5int] == opc);
                    let k = choose|k: int|
                        0 <= k < opc.len() && self.bus.log() == pre5 + opc.take(k)
                            && self.bus.attempts() == preatt5 + ok_attempts(opc.take(k)).push(
                            (opc[k], Result::<(), BusError>::Err(e)),
                        );
                    lemma_step_err(
                        init_control_a_ops(),
                        init_control_a_cmds(),
                        5int,
                        k,
                        base,
                        base_att,
                        self.bus.log(),
                        self.bus.attempts(),
                        Result::<(), BusError>::Err(e),
                    );
                }
                return Err(e);
            },
        }
        let ghost pre6 = self.bus.log();
        let ghost preatt6 = self.bus.attempts();
        match self.left.set_movie_looping(&mut self.bus, 1) {
            Ok(()) => {
                proof {
                    assert(init_control_a_ops()[6int] == set_movie_looping_cmds(ADDR_LEFT, 1));
                    lemma_step_ok(init_control_a_ops(), 6int, base, base_att, self.bus.log(), self.bus.attempts());
                }
            },
            Err(e) => {
                proof {
                    let opc = set_movie_looping_cmds(ADDR_LEFT, 1);
                    assert(init_control_a_ops()[6int] == opc);
                    let k = choose|k: int|
                        0 <= k < opc.len() && self.bus.log() == pre6 + opc.take(k)
                            && self.bus.attempts() == preatt6 + ok_attempts(opc.take(k)).push(
                            (opc[k], Result::<(), BusError>::Err(e)),
                        );
                    lemma_step_err(
                        init_control_a_ops(),
                        init_control_a_cmds(),
                        6int,
                        k,
                        base,
                        base_att,
                        self.bus.log(),
                        self.bus.attempts(),
                        Result::<(), BusError>::Err(e),
                    );
                }
                return Err(e);
            },
        }
        let ghost pre7 = self.bus.log();
        let ghost preatt7 = self.bus.attempts();
        match self.right.set_movie_looping(&mut self.bus, 1) {
            Ok(()) => {
                proof {
                    assert(init_control_a_ops()[7int] == set_movie_looping_cmds(ADDR_RIGHT, 1));
                    lemma_step_ok(init_control_a_ops(), 7int, base, base_att, self.bus.log(), self.bus.attempts());
                }
            },
            Err(e) => {
                proof {
                    let opc = set_movie_looping_cmds(ADDR_RIGHT, 1);
                    assert(init_control_a_ops()[7int] == opc);
                    let k = choose|k: int|
                        0 <= k < opc.len() && self.bus.log() == pre7 + opc.take(k)
                            && self.bus.attempts() == preatt7 + ok_attempts(opc.take(k)).push(
                            (opc[k], Result::<(), BusError>::Err(e)),
                        );
                    lemma_step_err(
                        init_control_a_ops(),
                        init_control_a_cmds(),
                        7int,
                        k,
                        base,
                        base_att,
                        self.bus.log(),
                        self.bus.attempts(),
                        Result::<(), BusError>::Err(e),
                    );
                }
                return Err(e);
            },
        }
        let ghost pre8 = self.bus.log();
        let ghost preatt8 = self.bus.attempts();
        match self.left.set_brightness(&mut self.bus, STARTING_BRIGHTNESS) {
            Ok(()) => {
                proof {
                    assert(init_control_a_ops()[8int] == set_brightness_cmds(ADDR_LEFT, STARTING_BRIGHTNESS));
                    lemma_step_ok(init_control_a_ops(), 8int, base, base_att, self.bus.log(), self.bus.attempts());
                }
            },
            Err(e) => {
                proof {
                    let opc = set_brightness_cmds(ADDR_LEFT, STARTING_BRIGHTNESS);
                    assert(init_control_a_ops()[8int] == opc);
                    let k = choose|k: int|
                        0 <= k < opc.len() && self.bus.log() == pre8 + opc.take(k)
                            && self.bus.attempts() == preatt8 + ok_attempts(opc.take(k)).push(
                            (opc[k], Result::<(), BusError>::Err(e)),
                        );
                    lemma_step_err(
                        init_control_a_ops(),
                        init_control_a_cmds(),
                        8int,
                        k,
                        base,
                        base_att,
                        self.bus.log(),
                        self.bus.attempts(),
                        Result::<(), BusError>::Err(e),
                    );
                }
                return Err(e);
            },
        }
        let ghost pre9 = self.bus.log();
        let ghost preatt9 = self.bus.attempts();
        match self.right.set_brightness(&mut self.bus, STARTING_BRIGHTNESS) {
            Ok(()) => {
                proof {
                    assert(init_control_a_ops()[9int] == set_brightness_cmds(ADDR_RIGHT, STARTING_BRIGHTNESS));
                    lemma_step_ok(init_control_a_ops(), 9int, base, base_att, self.bus.log(), self.bus.attempts());
                }
            },
            Err(e) => {
                proof {
                    let opc = set_brightness_cmds(ADDR_RIGHT, STARTING_BRIGHTNESS);
                    assert(init_control_a_ops()[9int] == opc);
                    let k = choose|k: int|
                        0 <= k < opc.len() && self.bus.log() == pre9 + opc.take(k)
                            && self.bus.attempts() == preatt9 + ok_attempts(opc.take(k)).push(
                            (opc[k], Result::<(), BusError>::Err(e)),
                        );
                    lemma_step_err(
                        init_control_a_ops(),
                        init_control_a_cmds(),
                        9int,
                        k,
                        base,
                        base_att,
                        self.bus.log(),
                        self.bus.attempts(),
                        Result::<(), BusError>::Err(e),
                    );
                }
                return Err(e);
            },
        }
        proof {
            assert(init_control_a_ops().take(10int) =~= init_control_a_ops());
            assert(self.bus.log() == base + init_control_a_cmds());
            assert(self.bus.attempts() == base_att + ok_attempts(init_control_a_cmds()));
        }
        Ok(())
    }

    /// Power-on, third part: interrupts, watchdog and clock sync.
    #[verifier::rlimit(100)]
    fn init_control_b(&mut self) -> (r: Result<(), BusError>)
        requires
            old(self).wf(),
        ensures
            final(self).wf(),
            final(self).left == old(self).left,
            final(self).right == old(self).right,
            final(self).brightness == old(self).brightness,
            final(self).bit_frame_l == old(self).bit_frame_l,
            final(self).bit_frame_r == old(self).bit_frame_r,
            final(self).pwm_frame_l == old(self).pwm_frame_l,
            final(self).pwm_frame_r == old(self).pwm_frame_r,
            B::infallible() ==> r is Ok,
            r is Ok ==> final(self).bus.log() == old(self).bus.log() + init_control_b_cmds(),
            r is Ok ==> final(self).bus.attempts() == old(self).bus.attempts() + ok_attempts(
                init_control_b_cmds(),
            ),
            r is Err ==> exists|m: int|
                0 <= m < init_control_b_cmds().len() && final(self).bus.log() == old(self).bus.log() + init_control_b_cmds().take(m)
                    && final(self).bus.attempts() == old(self).bus.attempts() + ok_attempts(
                    init_control_b_cmds().take(m),
                ).push((init_control_b_cmds()[m], r)),
    {
        let ghost base = self.bus.log();
        let ghost base_att = self.bus.attempts();
        proof {
            assert(init_control_b_ops().take(0int).flatten() =~= Seq::<(u8, Seq<u8>)>::empty());
            assert(self.bus.log() =~= base + init_control_b_ops().take(0int).flatten());
            assert(self.bus.attempts() =~= base_att + ok_attempts(init_control_b_ops().take(0int).flatten()));
        }
        let ghost pre0 = self.bus.log();
        let ghost preatt0 = self.bus.attempts();
        match self.left.set_interrupt_mask(&mut self.bus, 0) {
            Ok(()) => {
                proof {
                    assert(init_control_b_ops()[0int] == set_interrupt_mask_cmds(ADDR_LEFT, 0));
                    lemma_step_ok(init_control_b_ops(), 0int, base, base_att, self.bus.log(), self.bus.attempts());
                }
            },
            Err(e) => {
                proof {
                    let opc = set_interrupt_mask_cmds(ADDR_LEFT, 0);
                    assert(init_control_b_ops()[0int] == opc);
                    let k = choose|k: int|
                        0 <= k < opc.len() && self.bus.log() == pre0 + opc.take(k)
                            && self.bus.attempts() == preatt0 + ok_attempts(opc.take(k)).push(
                            (opc[k], Result::<(), BusError>::Err(e)),
                        );
                    lemma_step_err(
                        init_control_b_ops(),
                        init_control_b_cmds(),
                        0int,
                        k,
                        base,
                        base_att,
                        self.bus.log(),
                        self.bus.attempts(),
                        Result::<(), BusError>::Err(e),
                    );
                }
                return Err(e);
            },
        }
        let ghost pre1 = self.bus.log();
        let ghost preatt1 = self.bus.attempts();
        match self.right.set_interrupt_mask(&mut self.bus, 0) {
            Ok(()) => {
                proof {
                    assert(init_control_b_ops()[1int] == set_interrupt_mask_cmds(ADDR_RIGHT, 0));
                    lemma_step_ok(init_control_b_ops(), 1int, base, base_att, self.bus.log(), self.bus.attempts());
                }
            },
            Err(e) => {
                proof {
                    let opc = set_interrupt_mask_cmds(ADDR_RIGHT, 0);
                    assert(init_control_b_ops()[1int] == opc);
                    let k = choose|k: int|
                        0 <= k < opc.len() && self.bus.log() == pre1 + opc.take(k)
                            && self.bus.attempts() == preatt1 + ok_attempts(opc.take(k)).push(
                            (opc[k], Result::<(), BusError>::Err(e)),
                        );
                    lemma_step_err(
                        init_control_b_ops(),
                        init_control_b_cmds(),
                        1int,
                        k,
                        base,
                        base_att,
                        self.bus.log(),
                        self.bus.attempts(),
                        Result::<(), BusError>::Err(e),
                    );
                }
                return Err(e);
            },
        }
        let ghost pre2 = self.bus.log();
        let ghost preatt2 = self.bus.attempts();
        match self.left.set_interrupt_frame(&mut self.bus, 0) {
            Ok(()) => {
                proof {
                    assert(init_control_b_ops()[2int] == set_interrupt_frame_cmds(ADDR_LEFT, 0));
                    lemma_step_ok(init_control_b_ops(), 2int, base, base_att, self.bus.log(), self.bus.attempts());
                }
            },
            Err(e) => {
                proof {
                    let opc = set_interrupt_frame_cmds(ADDR_LEFT, 0);
                    assert(init_control_b_ops()[2int] == opc);
                    let k = choose|k: int|
                        0 <= k < opc.len() && self.bus.log() == pre2 + opc.take(k)
                            && self.bus.attempts() == preatt2 + ok_attempts(opc.take(k)).push(
                            (opc[k], Result::<(), BusError>::Err(e)),
                        );
                    lemma_step_err(
                        init_control_b_ops(),
                        init_control_b_cmds(),
                        2int,
                        k,
                        base,
                        base_att,
                        self.bus.log(),
                        self.bus.attempts(),
                        Result::<(), BusError>::Err(e),
                    );
                }
                return Err(e);
            },
        }
        let ghost pre3 = self.bus.log();
        let ghost preatt3 = self.bus.attempts();
        match self.right.set_interrupt_frame(&mut self.bus, 0) {
            Ok(()) => {
                proof {
                    assert(init_control_b_ops()[3int] == set_interrupt_frame_cmds(ADDR_RIGHT, 0));
                    lemma_step_ok(init_control_b_ops(), 3int, base, base_att, self.bus.log(), self.bus.attempts());
                }
            },
            Err(e) => {
                proof {
                    let opc = set_interrupt_frame_cmds(ADDR_RIGHT, 0);
                    assert(init_control_b_ops()[3int] == opc);
                    let k = choose|k: int|
                        0 <= k < opc.len() && self.bus.log() == pre3 + opc.take(k)
                            && self.bus.attempts() == preatt3 + ok_attempts(opc.take(k)).push(
                            (opc[k], Result::<(), BusError>::Err(e)),
                        );
                    lemma_step_err(
                        init_control_b_ops(),
                        init_control_b_cmds(),
                        3int,
                        k,
                        base,
                        base_att,
                        self.bus.log(),
                        self.bus.attempts(),
                        Result::<(), BusError>::Err(e),
                    );
                }
                return Err(e);
            },
        }
        let ghost pre4 = self.bus.log();
        let ghost preatt4 = self.bus.attempts();
        match self.left.set_i2c_watchdog(&mut self.bus, WATCHDOG_TIMEOUT, true) {
            Ok(()) => {
                proof {
                    assert(init_control_b_ops()[4int] == set_i2c_watchdog_cmds(ADDR_LEFT, WATCHDOG_TIMEOUT, true));
                    lemma_step_ok(init_control_b_ops(), 4int, base, base_att, self.bus.log(), self.bus.attempts());
                }
            },
            Err(e) => {
                proof {
                    let opc = set_i2c_watchdog_cmds(ADDR_LEFT, WATCHDOG_TIMEOUT, true);
                    assert(init_control_b_ops()[4int] == opc);
                    let k = choose|k: int|
                        0 <= k < opc.len() && self.bus.log() == pre4 + opc.take(k)
                            && self.bus.attempts() == preatt4 + ok_attempts(opc.take(k)).push(
                            (opc[k], Result::<(), BusError>::Err(e)),
                        );
                    lemma_step_err(
                        init_control_b_ops(),
                        init_control_b_cmds(),
                        4int,
                        k,
                        base,
                        base_att,
                        self.bus.log(),
                        self.bus.attempts(),
                        Result::<(), BusError>::Err(e),
                    );
                }
                return Err(e);
            },
        }
        let ghost pre5 = self.bus.log();
        let ghost preatt5 = self.bus.attempts();
        match self.right.set_i2c_watchdog(&mut self.bus, WATCHDOG_TIMEOUT, true) {
            Ok(()) => {
                proof {
                    assert(init_control_b_ops()[5int] == set_i2c_watchdog_cmds(ADDR_RIGHT, WATCHDOG_TIMEOUT, true));
                    lemma_step_ok(init_control_b_ops(), 5int, base, base_att, self.bus.log(), self.bus.attempts());
                }
            },
            Err(e) => {
                proof {
                    let opc = set_i2c_watchdog_cmds(ADDR_RIGHT, WATCHDOG_TIMEOUT, true);
                    assert(init_control_b_ops()[5int] == opc);
                    let k = choose|k: int|
                        0 <= k < opc.len() && self.bus.log() == pre5 + opc.take(k)
                            && self.bus.attempts() == preatt5 + ok_attempts(opc.take(k)).push(
                            (opc[k], Result::<(), BusError>::Err(e)),
                        );
                    lemma_step_err(
                        init_control_b_ops(),
                        init_control_b_cmds(),
                        5int,
                        k,
                        base,
                        base_att,
                        self.bus.log(),
                        self.bus.attempts(),
                        Result::<(), BusError>::Err(e),
                    );
                }
                return Err(e);
            },
        }
        let ghost pre6 = self.bus.log();
        let ghost preatt6 = self.bus.attempts();
        match self.left.set_clock_sync(&mut self.bus, ClockSpeed::Mhz1.bits(), SyncDir::Out.bits()) {
            Ok(()) => {
                proof {
                    assert(init_control_b_ops()[6int] == set_clock_sync_cmds(ADDR_LEFT, ClockSpeed::Mhz1.bits_spec(), SyncDir::Out.bits_spec()));
                    lemma_step_ok(init_control_b_ops(), 6int, base, base_att, self.bus.log(), self.bus.attempts());
                }
            },
            Err(e) => {
                proof {
                    let opc = set_clock_sync_cmds(ADDR_LEFT, ClockSpeed::Mhz1.bits_spec(), SyncDir::Out.bits_spec());
                    assert(init_control_b_ops()[6int] == opc);
                    let k = choose|k: int|
                        0 <= k < opc.len() && self.bus.log() == pre6 + opc.take(k)
                            && self.bus.attempts() == preatt6 + ok_attempts(opc.take(k)).push(
                            (opc[k], Result::<(), BusError>::Err(e)),
                        );
                    lemma_step_err(
                        init_control_b_ops(),
                        init_control_b_cmds(),
                        6int,
                        k,
                        base,
                        base_att,
                        self.bus.log(),
                        self.bus.attempts(),
                        Result::<(), BusError>::Err(e),
                    );
                }
                return Err(e);
            },
        }
        let ghost pre7 = self.bus.log();
        let ghost preatt7 = self.bus.attempts();
        match self.right.set_clock_sync(&mut self.bus, ClockSpeed::Mhz1.bits(), SyncDir::In.bits()) {
            Ok(()) => {
                proof {
                    assert(init_control_b_ops()[7int] == set_clock_sync_cmds(ADDR_RIGHT, ClockSpeed::Mhz1.bits_spec(), SyncDir::In.bits_spec()));
                    lemma_step_ok(init_control_b_ops(), 7int, base, base_att, self.bus.log(), self.bus.attempts());
                }
            },
            Err(e) => {
                proof {
                    let opc = set_clock_sync_cmds(ADDR_RIGHT, ClockSpeed::Mhz1.bits_spec(), SyncDir::In.bits_spec());
                    assert(init_control_b_ops()[7int] == opc);
                    let k = choose|k: int|
                        0 <= k < opc.len() && self.bus.log() == pre7 + opc.take(k)
                            && self.bus.attempts() == preatt7 + ok_attempts(opc.take(k)).push(
                            (opc[k], Result::<(), BusError>::Err(e)),
                        );
                    lemma_step_err(
                        init_control_b_ops(),
                        init_control_b_cmds(),
                        7int,
                        k,
                        base,
                        base_att,
                        self.bus.log(),
                        self.bus.attempts(),
                        Result::<(), BusError>::Err(e),
                    );
                }
                return Err(e);
            },
        }
        proof {
            assert(init_control_b_ops().take(8int) =~= init_control_b_ops());
            assert(self.bus.log() == base + init_control_b_cmds());
            assert(self.bus.attempts() == base_att + ok_attempts(init_control_b_cmds()));
        }
        Ok(())
    }

    /// Power-on, last part: fill and write the initial frames, clear the
    /// blink memory with the blanked bit pair, then enable frame-zero
    /// display. The PWM pair is filled before its writes, the bit pair only
    /// after the PWM writes succeed, so a failure leaves later buffers
    /// untouched.
    #[verifier::rlimit(100)]
    fn init_frames(&mut self) -> (r: Result<(), BusError>)
        requires
            old(self).wf(),
        ensures
            final(self).wf(),
            final(self).left == old(self).left,
            final(self).right == old(self).right,
            final(self).brightness == old(self).brightness,
            final(self).pwm_frame_l@ == solid_pwm_frame(),
            final(self).pwm_frame_r@ == solid_pwm_frame(),
            B::infallible() ==> r is Ok,
            r is Ok ==> final(self).bit_frame_l@ == empty_bit_frame() && final(self).bit_frame_r@
                == empty_bit_frame(),
            r is Ok ==> final(self).bus.log() == old(self).bus.log() + init_frames_cmds(),
            r is Ok ==> final(self).bus.attempts() == old(self).bus.attempts() + ok_attempts(
                init_frames_cmds(),
            ),
            r is Err ==> exists|m: int|
                0 <= m < init_frames_cmds().len() && final(self).bus.log() == old(self).bus.log() + init_frames_cmds().take(m)
                    && final(self).bus.attempts() == old(self).bus.attempts() + ok_attempts(
                    init_frames_cmds().take(m),
                ).push((init_frames_cmds()[m], r))
                    && (m < 4 ==> final(self).bit_frame_l == old(self).bit_frame_l
                    && final(self).bit_frame_r == old(self).bit_frame_r)
                    && (4 <= m ==> final(self).bit_frame_l@ == empty_bit_frame()
                    && final(self).bit_frame_r@ == empty_bit_frame()),
    {
        let ghost base = self.bus.log();
        let ghost base_att = self.bus.attempts();
        FrameHelpers::fill_pwm_frame(&mut self.pwm_frame_l, 0xFF);
        FrameHelpers::fill_pwm_frame(&mut self.pwm_frame_r, 0xFF);
        proof {
            assert(init_frames_ops().take(0int).flatten() =~= Seq::<(u8, Seq<u8>)>::empty());
            assert(self.bus.log() =~= base + init_frames_ops().take(0int).flatten());
            assert(self.bus.attempts() =~= base_att + ok_attempts(init_frames_ops().take(0int).flatten()));
        }
        let ghost pre0 = self.bus.log();
        let ghost preatt0 = self.bus.attempts();
        match self.left.write_pwm_frame(&mut self.bus, 0, &self.pwm_frame_l) {
            Ok(()) => {
                proof {
                    assert(init_frames_ops()[0int] == write_pwm_frame_cmds(ADDR_LEFT, 0, solid_pwm_frame()));
                    lemma_step_ok(init_frames_ops(), 0int, base, base_att, self.bus.log(), self.bus.attempts());
                }
            },
            Err(e) => {
                proof {
                    let opc = write_pwm_frame_cmds(ADDR_LEFT, 0, solid_pwm_frame());
                    assert(init_frames_ops()[0int] == opc);
                    let k = choose|k: int|
                        0 <= k < opc.len() && self.bus.log() == pre0 + opc.take(k)
                            && self.bus.attempts() == preatt0 + ok_attempts(opc.take(k)).push(
                            (opc[k], Result::<(), BusError>::Err(e)),
                        );
                    lemma_step_err(
                        init_frames_ops(),
                        init_frames_cmds(),
                        0int,
                        k,
                        base,
                        base_att,
                        self.bus.log(),
                        self.bus.attempts(),
                        Result::<(), BusError>::Err(e),
                    );
                    let m = init_frames_ops().take(0int).flatten().len() + k;
                    assert(m < 4);
                    assert(self.bit_frame_l == old(self).bit_frame_l
                        && self.bit_frame_r == old(self).bit_frame_r);
                }
                return Err(e);
            },
        }
        let ghost pre1 = self.bus.log();
        let ghost preatt1 = self.bus.attempts();
        match self.right.write_pwm_frame(&mut self.bus, 0, &self.pwm_frame_r) {
            Ok(()) => {
                proof {
                    assert(init_frames_ops()[1int] == write_pwm_frame_cmds(ADDR_RIGHT, 0, solid_pwm_frame()));
                    lemma_step_ok(init_frames_ops(), 1int, base, base_att, self.bus.log(), self.bus.attempts());
                }
            },
            Err(e) => {
                proof {
                    let opc = write_pwm_frame_cmds(ADDR_RIGHT, 0, solid_pwm_frame());
                    assert(init_frames_ops()[1int] == opc);
                    let k = choose|k: int|
                        0 <= k < opc.len() && self.bus.log() == pre1 + opc.take(k)
                            && self.bus.attempts() == preatt1 + ok_attempts(opc.take(k)).push(
                            (opc[k], Result::<(), BusError>::Err(e)),
                        );
                    lemma_step_err(
                        init_frames_ops(),
                        init_frames_cmds(),
                        1int,
                        k,
                        base,
                        base_att,
                        self.bus.log(),
                        self.bus.attempts(),
                        Result::<(), BusError>::Err(e),
                    );
                    let m = init_frames_ops().take(1int).flatten().len() + k;
                    assert(m < 4);
                    assert(self.bit_frame_l == old(self).bit_frame_l
                        && self.bit_frame_r == old(self).bit_frame_r);
                }
                return Err(e);
            },
        }
        FrameHelpers::fill_bit_frame(&mut self.bit_frame_l, false);
        FrameHelpers::fill_bit_frame(&mut self.bit_frame_r, false);
        let ghost pre2 = self.bus.log();
        let ghost preatt2 = self.bus.attempts();
        match self.left.write_bit_frame(&mut self.bus, 0, &self.bit_frame_l) {
            Ok(()) => {
                proof {
                    assert(init_frames_ops()[2int] == write_bit_frame_cmds(ADDR_LEFT, 0, empty_bit_frame()));
                    lemma_step_ok(init_frames_ops(), 2int, base, base_att, self.bus.log(), self.bus.attempts());
                }
            },
            Err(e) => {
                proof {
                    let opc = write_bit_frame_cmds(ADDR_LEFT, 0, empty_bit_frame());
                    assert(init_frames_ops()[2int] == opc);
                    let k = choose|k: int|
                        0 <= k < opc.len() && self.bus.log() == pre2 + opc.take(k)
                            && self.bus.attempts() == preatt2 + ok_attempts(opc.take(k)).push(
                            (opc[k], Result::<(), BusError>::Err(e)),
                        );
                    lemma_step_err(
                        init_frames_ops(),
                        init_frames_cmds(),
                        2int,
                        k,
                        base,
                        base_att,
                        self.bus.log(),
                        self.bus.attempts(),
                        Result::<(), BusError>::Err(e),
                    );
                    let m = init_frames_ops().take(2int).flatten().len() + k;
                    assert(4 <= m);
                    assert(self.bit_frame_l@ == empty_bit_frame()
                        && self.bit_frame_r@ == empty_bit_frame());
                }
                return Err(e);
            },
        }
        let ghost pre3 = self.bus.log();
        let ghost preatt3 = self.bus.attempts();
        match self.right.write_bit_frame(&mut self.bus, 0, &self.bit_frame_r) {
            Ok(()) => {
                proof {
                    assert(init_frames_ops()[3int] == write_bit_frame_cmds(ADDR_RIGHT, 0, empty_bit_frame()));
                    lemma_step_ok(init_frames_ops(), 3int, base, base_att, self.bus.log(), self.bus.attempts());
                }
            },
            Err(e) => {
                proof {
                    let opc = write_bit_frame_cmds(ADDR_RIGHT, 0, empty_bit_frame());
                    assert(init_frames_ops()[3int] == opc);
                    let k = choose|k: int|
                        0 <= k < opc.len() && self.bus.log() == pre3 + opc.take(k)
                            && self.bus.attempts() == preatt3 + ok_attempts(opc.take(k)).push(
                            (opc[k], Result::<(), BusError>::Err(e)),
                        );
                    lemma_step_err(
                        init_frames_ops(),
                        init_frames_cmds(),
                        3int,
                        k,
                        base,
                        base_att,
                        self.bus.log(),
                        self.bus.attempts(),
                        Result::<(), BusError>::Err(e),
                    );
                    let m = init_frames_ops().take(3int).flatten().len() + k;
                    assert(4 <= m);
                    assert(self.bit_frame_l@ == empty_bit_frame()
                        && self.bit_frame_r@ == empty_bit_frame());
                }
                return Err(e);
            },
        }
        let ghost pre4 = self.bus.log();
        let ghost preatt4 = self.bus.attempts();
        match self.left.write_blink_frame(&mut self.bus, 0, &self.bit_frame_l) {
            Ok(()) => {
                proof {
                    assert(init_frames_ops()[4int] == write_blink_frame_cmds(ADDR_LEFT, 0, empty_bit_frame()));
                    lemma_step_ok(init_frames_ops(), 4int, base, base_att, self.bus.log(), self.bus.attempts());
                }
            },
            Err(e) => {
                proof {
                    let opc = write_blink_frame_cmds(ADDR_LEFT, 0, empty_bit_frame());
                    assert(init_frames_ops()[4int] == opc);
                    let k = choose|k: int|
                        0 <= k < opc.len() && self.bus.log() == pre4 + opc.take(k)
                            && self.bus.attempts() == preatt4 + ok_attempts(opc.take(k)).push(
                            (opc[k], Result::<(), BusError>::Err(e)),
                        );
                    lemma_step_err(
                        init_frames_ops(),
                        init_frames_cmds(),
                        4int,
                        k,
                        base,
                        base_att,
                        self.bus.log(),
                        self.bus.attempts(),
                        Result::<(), BusError>::Err(e),
                    );
                    let m = init_frames_ops().take(4int).flatten().len() + k;
                    assert(4 <= m);
                    assert(self.bit_frame_l@ == empty_bit_frame()
                        && self.bit_frame_r@ == empty_bit_frame());
                }
                return Err(e);
            },
        }
        let ghost pre5 = self.bus.log();
        let ghost preatt5 = self.bus.attempts();
        match self.right.write_blink_frame(&mut self.bus, 0, &self.bit_frame_r) {
            Ok(()) => {
                proof {
                    assert(init_frames_ops()[5int] == write_blink_frame_cmds(ADDR_RIGHT, 0, empty_bit_frame()));
                    lemma_step_ok(init_frames_ops(), 5int, base, base_att, self.bus.log(), self.bus.attempts());
                }
            },
            Err(e) => {
                proof {
                    let opc = write_blink_frame_cmds(ADDR_RIGHT, 0, empty_bit_frame());
                    assert(init_frames_ops()[5int] == opc);
                    let k = choose|k: int|
                        0 <= k < opc.len() && self.bus.log() == pre5 + opc.take(k)
                            && self.bus.attempts() == preatt5 + ok_attempts(opc.take(k)).push(
                            (opc[k], Result::<(), BusError>::Err(e)),
                        );
                    lemma_step_err(
                        init_frames_ops(),
                        init_frames_cmds(),
                        5int,
                        k,
                        base,
                        base_att,
                        self.bus.log(),
                        self.bus.attempts(),
                        Result::<(), BusError>::Err(e),
                    );
                    let m = init_frames_ops().take(5int).flatten().len() + k;
                    assert(4 <= m);
                    assert(self.bit_frame_l@ == empty_bit_frame()
                        && self.bit_frame_r@ == empty_bit_frame());
                }
                return Err(e);
            },
        }
        let ghost pre6 = self.bus.log();
        let ghost preatt6 = self.bus.attempts();
        match self.left.set_frame(&mut self.bus, 0, true) {
            Ok(()) => {
                proof {
                    assert(init_frames_ops()[6int] == set_frame_cmds(ADDR_LEFT, 0, true));
                    lemma_step_ok(init_frames_ops(), 6int, base, base_att, self.bus.log(), self.bus.attempts());
                }
            },
            Err(e) => {
                proof {
                    let opc = set_frame_cmds(ADDR_LEFT, 0, true);
                    assert(init_frames_ops()[6int] == opc);
                    let k = choose|k: int|
                        0 <= k < opc.len() && self.bus.log() == pre6 + opc.take(k)
                            && self.bus.attempts() == preatt6 + ok_attempts(opc.take(k)).push(
                            (opc[k], Result::<(), BusError>::Err(e)),
                        );
                    lemma_step_err(
                        init_frames_ops(),
                        init_frames_cmds(),
                        6int,
                        k,
                        base,
                        base_att,
                        self.bus.log(),
                        self.bus.attempts(),
                        Result::<(), BusError>::Err(e),
                    );
                    let m = init_frames_ops().take(6int).flatten().len() + k;
                    assert(4 <= m);
                    assert(self.bit_frame_l@ == empty_bit_frame()
                        && self.bit_frame_r@ == empty_bit_frame());
                }
                return Err(e);
            },
        }
        let ghost pre7 = self.bus.log();
        let ghost preatt7 = self.bus.attempts();
        match self.right.set_frame(&mut self.bus, 0, true) {
            Ok(()) => {
                proof {
                    assert(init_frames_ops()[7int] == set_frame_cmds(ADDR_RIGHT, 0, true));
                    lemma_step_ok(init_frames_ops(), 7int, base, base_att, self.bus.log(), self.bus.attempts());
                }
            },
            Err(e) => {
                proof {
                    let opc = set_frame_cmds(ADDR_RIGHT, 0, true);
                    assert(init_frames_ops()[7int] == opc);
                    let k = choose|k: int|
                        0 <= k < opc.len() && self.bus.log() == pre7 + opc.take(k)
                            && self.bus.attempts() == preatt7 + ok_attempts(opc.take(k)).push(
                            (opc[k], Result::<(), BusError>::Err(e)),
                        );
                    lemma_step_err(
                        init_frames_ops(),
                        init_frames_cmds(),
                        7int,
                        k,
                        base,
                        base_att,
                        self.bus.log(),
                        self.bus.attempts(),
                        Result::<(), BusError>::Err(e),
                    );
                    let m = init_frames_ops().take(7int).flatten().len() + k;
                    assert(4 <= m);
                    assert(self.bit_frame_l@ == empty_bit_frame()
                        && self.bit_frame_r@ == empty_bit_frame());
                }
                return Err(e);
            },
        }
        proof {
            assert(init_frames_ops().take(8int) =~= init_frames_ops());
            assert(self.bus.log() == base + init_frames_cmds());
            assert(self.bus.attempts() == base_att + ok_attempts(init_frames_cmds()));
        }
        Ok(())
    }

    /// Run the fixed power-on sequence on both chips, ending with an all-on
    /// PWM frame, an all-off bit frame and a cleared blink frame in slot
    /// zero, and frame-zero display enabled. On a bus that accepts every
    /// write the whole sequence goes out and the call returns success. On
    /// the first failed write the sequence stops: the bus saw exactly the
    /// commands before the failing one, the failing command itself was
    /// attempted once and its error is returned unchanged, nothing was
    /// attempted after it, and the buffers hold the partial state of that
    /// point (no rollback).
    #[verifier::rlimit(100)]
    pub fn init(&mut self) -> (r: Result<(), BusError>)
        requires
            old(self).wf(),
        ensures
            final(self).wf(),
            final(self).left == old(self).left,
            final(self).right == old(self).right,
            final(self).brightness == old(self).brightness,
            B::infallible() ==> r is Ok,
            r is Ok ==> final(self).pwm_frame_l@ == solid_pwm_frame() && final(self).pwm_frame_r@
                == solid_pwm_frame() && final(self).bit_frame_l@ == empty_bit_frame()
                && final(self).bit_frame_r@ == empty_bit_frame(),
            r is Ok ==> final(self).bus.log() == old(self).bus.log() + init_cmds(),
            r is Ok ==> final(self).bus.attempts() == old(self).bus.attempts() + ok_attempts(
                init_cmds(),
            ),
            r is Err ==> exists|m: int|
                0 <= m < init_cmds().len() && final(self).bus.log() == old(self).bus.log()
                    + init_cmds().take(m) && final(self).bus.attempts() == old(self).bus.attempts()
                    + ok_attempts(init_cmds().take(m)).push((init_cmds()[m], r))
                    && init_partial_buffers(*old(self), *final(self), m),
    {
        let ghost base = self.bus.log();
        let ghost base_att = self.bus.attempts();
        match self.init_power() {
            Ok(()) => {},
            Err(e) => {
                proof {
                    let k = choose|k: int|
                        0 <= k < init_power_cmds().len() && self.bus.log() == base
                            + init_power_cmds().take(k) && self.bus.attempts() == base_att
                            + ok_attempts(init_power_cmds().take(k)).push(
                            (init_power_cmds()[k], Result::<(), BusError>::Err(e)),
                        );
                    assert(init_cmds().take(k) =~= init_power_cmds().take(k));
                    assert(init_cmds()[k] == init_power_cmds()[k]);
                    assert(k < init_control_len());
                    assert(self.bus.log() == base + init_cmds().take(k));
                    assert(self.bus.attempts() == base_att + ok_attempts(init_cmds().take(k)).push(
                        (init_cmds()[k], Result::<(), BusError>::Err(e)),
                    ));
                    assert(init_partial_buffers(*old(self), *self, k));
                }
                return Err(e);
            },
        }
        let ghost done1 = init_power_cmds();
        proof {
            assert(self.bus.log() == base + done1);
            assert(self.bus.attempts() == base_att + ok_attempts(done1));
        }
        match self.init_control_a() {
            Ok(()) => {},
            Err(e) => {
                proof {
                    let k = choose|k: int|
                        0 <= k < init_control_a_cmds().len() && self.bus.log() == (base + done1)
                            + init_control_a_cmds().take(k) && self.bus.attempts() == (base_att
                            + ok_attempts(done1)) + ok_attempts(init_control_a_cmds().take(k)).push(
                            (init_control_a_cmds()[k], Result::<(), BusError>::Err(e)),
                        );
                    lemma_ok_attempts_add(done1, init_control_a_cmds().take(k));
                    let m = done1.len() + k;
                    assert(init_cmds().take(m) =~= done1 + init_control_a_cmds().take(k));
                    assert(init_cmds()[m] == init_control_a_cmds()[k]);
                    assert(m < init_control_len());
                    assert(self.bus.log() =~= base + init_cmds().take(m));
                    assert(self.bus.attempts() =~= base_att + ok_attempts(init_cmds().take(m)).push(
                        (init_cmds()[m], Result::<(), BusError>::Err(e)),
                    ));
                    assert(init_partial_buffers(*old(self), *self, m));
                }
                return Err(e);
            },
        }
        let ghost done2 = init_power_cmds() + init_control_a_cmds();
        proof {
            lemma_ok_attempts_add(init_power_cmds(), init_control_a_cmds());
            assert(self.bus.log() =~= base + done2);
            assert(self.bus.attempts() =~= base_att + ok_attempts(done2));
        }
        match self.init_control_b() {
            Ok(()) => {},
            Err(e) => {
                proof {
                    let k = choose|k: int|
                        0 <= k < init_control_b_cmds().len() && self.bus.log() == (base + done2)
                            + init_control_b_cmds().take(k) && self.bus.attempts() == (base_att
                            + ok_attempts(done2)) + ok_attempts(init_control_b_cmds().take(k)).push(
                            (init_control_b_cmds()[k], Result::<(), BusError>::Err(e)),
                        );
                    lemma_ok_attempts_add(done2, init_control_b_cmds().take(k));
                    let m = done2.len() + k;
                    assert(init_cmds().take(m) =~= done2 + init_control_b_cmds().take(k));
                    assert(init_cmds()[m] == init_control_b_cmds()[k]);
                    assert(m < init_control_len());
                    assert(self.bus.log() =~= base + init_cmds().take(m));
                    assert(self.bus.attempts() =~= base_att + ok_attempts(init_cmds().take(m)).push(
                        (init_cmds()[m], Result::<(), BusError>::Err(e)),
                    ));
                    assert(init_partial_buffers(*old(self), *self, m));
                }
                return Err(e);
            },
        }
        let ghost done3 = init_power_cmds() + init_control_a_cmds() + init_control_b_cmds();
        proof {
            lemma_ok_attempts_add(done2, init_control_b_cmds());
            assert(self.bus.log() =~= base + done3);
            assert(self.bus.attempts() =~= base_att + ok_attempts(done3));
            assert(done3.len() == init_control_len());
        }
        match self.init_frames() {
            Ok(()) => {},
            Err(e) => {
                proof {
                    let k = choose|k: int|
                        0 <= k < init_frames_cmds().len() && self.bus.log() == (base + done3)
                            + init_frames_cmds().take(k) && self.bus.attempts() == (base_att
                            + ok_attempts(done3)) + ok_attempts(init_frames_cmds().take(k)).push(
                            (init_frames_cmds()[k], Result::<(), BusError>::Err(e)),
                        ) && (k < 4 ==> self.bit_frame_l == old(self).bit_frame_l
                            && self.bit_frame_r == old(self).bit_frame_r) && (4 <= k
                            ==> self.bit_frame_l@ == empty_bit_frame() && self.bit_frame_r@
                            == empty_bit_frame());
                    lemma_ok_attempts_add(done3, init_frames_cmds().take(k));
                    let m = done3.len() + k;
                    assert(init_cmds().take(m) =~= done3 + init_frames_cmds().take(k));
                    assert(init_cmds()[m] == init_frames_cmds()[k]);
                    assert(self.bus.log() =~= base + init_cmds().take(m));
                    assert(self.bus.attempts() =~= base_att + ok_attempts(init_cmds().take(m)).push(
                        (init_cmds()[m], Result::<(), BusError>::Err(e)),
                    ));
                    assert(init_partial_buffers(*old(self), *self, m));
                }
                return Err(e);
            },
        }
        proof {
            lemma_ok_attempts_add(done3, init_frames_cmds());
            assert(self.bus.log() =~= base + init_cmds());
            assert(self.bus.attempts() =~= base_att + ok_attempts(init_cmds()));
        }
        Ok(())
    }

    /// Switch the device between bit-mode and PWM-mode drawing: the target
    /// mode's frames are blanked and written to both chips first, and only
    /// then is the other memory set fully on and written — a failure during
    /// the first pair of writes leaves the other memory's buffers holding
    /// their old content. On success the bus saw exactly [`switch_cmds`]; on
    /// the first failed write the rest is abandoned, that write's error is
    /// returned unchanged, and nothing was attempted after it. The two
    /// writes per chip are not atomic: a failure can leave the chips
    /// transiently over- or under-lit.
    #[verifier::rlimit(100)]
    pub fn switch_draw_type(&mut self, frame_index: u8, draw_type: DrawType) -> (r: Result<
        (),
        BusError,
    >)
        requires
            old(self).wf(),
            frame_index + MEMORY_ON_OFF_START <= u8::MAX,
        ensures
            final(self).wf(),
            final(self).left == old(self).left,
            final(self).right == old(self).right,
            final(self).brightness == old(self).brightness,
            switch_target_blanked(*final(self), draw_type),
            B::infallible() ==> r is Ok,
            r is Ok ==> mode_buffers(*final(self), draw_type),
            r is Ok ==> final(self).bus.log() == old(self).bus.log() + switch_cmds(
                frame_index,
                draw_type,
            ),
            r is Ok ==> final(self).bus.attempts() == old(self).bus.attempts() + ok_attempts(
                switch_cmds(frame_index, draw_type),
            ),
            r is Err ==> exists|m: int|
                0 <= m < switch_cmds(frame_index, draw_type).len() && final(self).bus.log()
                    == old(self).bus.log() + switch_cmds(frame_index, draw_type).take(m)
                    && final(self).bus.attempts() == old(self).bus.attempts() + ok_attempts(
                    switch_cmds(frame_index, draw_type).take(m),
                ).push((switch_cmds(frame_index, draw_type)[m], r)) && (m < 4
                    ==> switch_backdrop_unchanged(*old(self), *final(self), draw_type)) && (4 <= m
                    ==> switch_backdrop_set(*final(self), draw_type)),
    {
        let ghost base = self.bus.log();
        let ghost base_att = self.bus.attempts();
        let ghost ops = switch_ops(frame_index, draw_type);
        match draw_type {
            DrawType::Bit => {
                FrameHelpers::fill_bit_frame(&mut self.bit_frame_l, false);
                FrameHelpers::fill_bit_frame(&mut self.bit_frame_r, false);
                proof {
                    assert(ops.take(0int).flatten() =~= Seq::<(u8, Seq<u8>)>::empty());
                    assert(self.bus.log() =~= base + ops.take(0int).flatten());
                    assert(self.bus.attempts() =~= base_att + ok_attempts(ops.take(0int).flatten()));
                }
                let ghost pre0 = self.bus.log();
                let ghost preatt0 = self.bus.attempts();
                match self.left.write_bit_frame(&mut self.bus, frame_index, &self.bit_frame_l) {
                    Ok(()) => {
                        proof {
                            assert(ops[0int] == write_bit_frame_cmds(ADDR_LEFT, frame_index, empty_bit_frame()));
                            lemma_step_ok(ops, 0int, base, base_att, self.bus.log(), self.bus.attempts());
                        }
                    },
                    Err(e) => {
                        proof {
                            let opc = write_bit_frame_cmds(ADDR_LEFT, frame_index, empty_bit_frame());
                            assert(ops[0int] == opc);
                            let k = choose|k: int|
                                0 <= k < opc.len() && self.bus.log() == pre0 + opc.take(k)
                                    && self.bus.attempts() == preatt0 + ok_attempts(opc.take(k)).push(
                                    (opc[k], Result::<(), BusError>::Err(e)),
                                );
                            lemma_step_err(
                                ops,
                                switch_cmds(frame_index, draw_type),
                                0int,
                                k,
                                base,
                                base_att,
                                self.bus.log(),
                                self.bus.attempts(),
                                Result::<(), BusError>::Err(e),
                            );
                            let m = ops.take(0int).flatten().len() + k;
                            assert(m < 4);
                            assert(switch_backdrop_unchanged(*old(self), *self, draw_type));
                        }
                        return Err(e);
                    },
                }
                let ghost pre1 = self.bus.log();
                let ghost preatt1 = self.bus.attempts();
                match self.right.write_bit_frame(&mut self.bus, frame_index, &self.bit_frame_r) {
                    Ok(()) => {
                        proof {
                            assert(ops[1int] == write_bit_frame_cmds(ADDR_RIGHT, frame_index, empty_bit_frame()));
                            lemma_step_ok(ops, 1int, base, base_att, self.bus.log(), self.bus.attempts());
                        }
                    },
                    Err(e) => {
                        proof {
                            let opc = write_bit_frame_cmds(ADDR_RIGHT, frame_index, empty_bit_frame());
                            assert(ops[1int] == opc);
                            let k = choose|k: int|
                                0 <= k < opc.len() && self.bus.log() == pre1 + opc.take(k)
                                    && self.bus.attempts() == preatt1 + ok_attempts(opc.take(k)).push(
                                    (opc[k], Result::<(), BusError>::Err(e)),
                                );
                            lemma_step_err(
                                ops,
                                switch_cmds(frame_index, draw_type),
                                1int,
                                k,
                                base,
                                base_att,
                                self.bus.log(),
                                self.bus.attempts(),
                                Result::<(), BusError>::Err(e),
                            );
                            let m = ops.take(1int).flatten().len() + k;
                            assert(m < 4);
                            assert(switch_backdrop_unchanged(*old(self), *self, draw_type));
                        }
                        return Err(e);
                    },
                }
                FrameHelpers::fill_pwm_frame(&mut self.pwm_frame_l, 0xFF);
                FrameHelpers::fill_pwm_frame(&mut self.pwm_frame_r, 0xFF);
                let ghost pre2 = self.bus.log();
                let ghost preatt2 = self.bus.attempts();
                match self.left.write_pwm_frame(&mut self.bus, 0, &self.pwm_frame_l) {
                    Ok(()) => {
                        proof {
                            assert(ops[2int] == write_pwm_frame_cmds(ADDR_LEFT, 0, solid_pwm_frame()));
                            lemma_step_ok(ops, 2int, base, base_att, self.bus.log(), self.bus.attempts());
                        }
                    },
                    Err(e) => {
                        proof {
                            let opc = write_pwm_frame_cmds(ADDR_LEFT, 0, solid_pwm_frame());
                            assert(ops[2int] == opc);
                            let k = choose|k: int|
                                0 <= k < opc.len() && self.bus.log() == pre2 + opc.take(k)
                                    && self.bus.attempts() == preatt2 + ok_attempts(opc.take(k)).push(
                                    (opc[k], Result::<(), BusError>::Err(e)),
                                );
                            lemma_step_err(
                                ops,
                                switch_cmds(frame_index, draw_type),
                                2int,
                                k,
                                base,
                                base_att,
                                self.bus.log(),
                                self.bus.attempts(),
                                Result::<(), BusError>::Err(e),
                            );
                            let m = ops.take(2int).flatten().len() + k;
                            assert(4 <= m);
                            assert(switch_backdrop_set(*self, draw_type));
                        }
                        return Err(e);
                    },
                }
                let ghost pre3 = self.bus.log();
                let ghost preatt3 = self.bus.attempts();
                match self.right.write_pwm_frame(&mut self.bus, 0, &self.pwm_frame_r) {
                    Ok(()) => {
                        proof {
                            assert(ops[3int] == write_pwm_frame_cmds(ADDR_RIGHT, 0, solid_pwm_frame()));
                            lemma_step_ok(ops, 3int, base, base_att, self.bus.log(), self.bus.attempts());
                        }
                    },
                    Err(e) => {
                        proof {
                            let opc = write_pwm_frame_cmds(ADDR_RIGHT, 0, solid_pwm_frame());
                            assert(ops[3int] == opc);
                            let k = choose|k: int|
                                0 <= k < opc.len() && self.bus.log() == pre3 + opc.take(k)
                                    && self.bus.attempts() == preatt3 + ok_attempts(opc.take(k)).push(
                                    (opc[k], Result::<(), BusError>::Err(e)),
                                );
                            lemma_step_err(
                                ops,
                                switch_cmds(frame_index, draw_type),
                                3int,
                                k,
                                base,
                                base_att,
                                self.bus.log(),
                                self.bus.attempts(),
                                Result::<(), BusError>::Err(e),
                            );
                            let m = ops.take(3int).flatten().len() + k;
                            assert(4 <= m);
                            assert(switch_backdrop_set(*self, draw_type));
                        }
                        return Err(e);
                    },
                }
                proof {
                    assert(ops.take(4int) =~= ops);
                    assert(self.bus.log() == base + switch_cmds(frame_index, draw_type));
                    assert(self.bus.attempts() == base_att + ok_attempts(switch_cmds(frame_index, draw_type)));
                }
            },
            DrawType::Pwm => {
                FrameHelpers::fill_pwm_frame(&mut self.pwm_frame_l, 0);
                FrameHelpers::fill_pwm_frame(&mut self.pwm_frame_r, 0);
                proof {
                    assert(ops.take(0int).flatten() =~= Seq::<(u8, Seq<u8>)>::empty());
                    assert(self.bus.log() =~= base + ops.take(0int).flatten());
                    assert(self.bus.attempts() =~= base_att + ok_attempts(ops.take(0int).flatten()));
                }
                let ghost pre0 = self.bus.log();
                let ghost preatt0 = self.bus.attempts();
                match self.left.write_pwm_frame(&mut self.bus, 0, &self.pwm_frame_l) {
                    Ok(()) => {
                        proof {
                            assert(ops[0int] == write_pwm_frame_cmds(ADDR_LEFT, 0, empty_pwm_frame()));
                            lemma_step_ok(ops, 0int, base, base_att, self.bus.log(), self.bus.attempts());
                        }
                    },
                    Err(e) => {
                        proof {
                            let opc = write_pwm_frame_cmds(ADDR_LEFT, 0, empty_pwm_frame());
                            assert(ops[0int] == opc);
                            let k = choose|k: int|
                                0 <= k < opc.len() && self.bus.log() == pre0 + opc.take(k)
                                    && self.bus.attempts() == preatt0 + ok_attempts(opc.take(k)).push(
                                    (opc[k], Result::<(), BusError>::Err(e)),
                                );
                            lemma_step_err(
                                ops,
                                switch_cmds(frame_index, draw_type),
                                0int,
                                k,
                                base,
                                base_att,
                                self.bus.log(),
                                self.bus.attempts(),
                                Result::<(), BusError>::Err(e),
                            );
                            let m = ops.take(0int).flatten().len() + k;
                            assert(m < 4);
                            assert(switch_backdrop_unchanged(*old(self), *self, draw_type));
                        }
                        return Err(e);
                    },
                }
                let ghost pre1 = self.bus.log();
                let ghost preatt1 = self.bus.attempts();
                match self.right.write_pwm_frame(&mut self.bus, 0, &self.pwm_frame_r) {
                    Ok(()) => {
                        proof {
                            assert(ops[1int] == write_pwm_frame_cmds(ADDR_RIGHT, 0, empty_pwm_frame()));
                            lemma_step_ok(ops, 1int, base, base_att, self.bus.log(), self.bus.attempts());
                        }
                    },
                    Err(e) => {
                        proof {
                            let opc = write_pwm_frame_cmds(ADDR_RIGHT, 0, empty_pwm_frame());
                            assert(ops[1int] == opc);
                            let k = choose|k: int|
                                0 <= k < opc.len() && self.bus.log() == pre1 + opc.take(k)
                                    && self.bus.attempts() == preatt1 + ok_attempts(opc.take(k)).push(
                                    (opc[k], Result::<(), BusError>::Err(e)),
                                );
                            lemma_step_err(
                                ops,
                                switch_cmds(frame_index, draw_type),
                                1int,
                                k,
                                base,
                                base_att,
                                self.bus.log(),
                                self.bus.attempts(),
                                Result::<(), BusError>::Err(e),
                            );
                            let m = ops.take(1int).flatten().len() + k;
                            assert(m < 4);
                            assert(switch_backdrop_unchanged(*old(self), *self, draw_type));
                        }
                        return Err(e);
                    },
                }
                FrameHelpers::fill_bit_frame(&mut self.bit_frame_l, true);
                FrameHelpers::fill_bit_frame(&mut self.bit_frame_r, true);
                let ghost pre2 = self.bus.log();
                let ghost preatt2 = self.bus.attempts();
                match self.left.write_bit_frame(&mut self.bus, frame_index, &self.bit_frame_l) {
                    Ok(()) => {
                        proof {
                            assert(ops[2int] == write_bit_frame_cmds(ADDR_LEFT, frame_index, solid_bit_frame()));
                            lemma_step_ok(ops, 2int, base, base_att, self.bus.log(), self.bus.attempts());
                        }
                    },
                    Err(e) => {
                        proof {
                            let opc = write_bit_frame_cmds(ADDR_LEFT, frame_index, solid_bit_frame());
                            assert(ops[2int] == opc);
                            let k = choose|k: int|
                                0 <= k < opc.len() && self.bus.log() == pre2 + opc.take(k)
                                    && self.bus.attempts() == preatt2 + ok_attempts(opc.take(k)).push(
                                    (opc[k], Result::<(), BusError>::Err(e)),
                                );
                            lemma_step_err(
                                ops,
                                switch_cmds(frame_index, draw_type),
                                2int,
                                k,
                                base,
                                base_att,
                                self.bus.log(),
                                self.bus.attempts(),
                                Result::<(), BusError>::Err(e),
                            );
                            let m = ops.take(2int).flatten().len() + k;
                            assert(4 <= m);
                            assert(switch_backdrop_set(*self, draw_type));
                        }
                        return Err(e);
                    },
                }
                let ghost pre3 = self.bus.log();
                let ghost preatt3 = self.bus.attempts();
                match self.right.write_bit_frame(&mut self.bus, frame_index, &self.bit_frame_r) {
                    Ok(()) => {
                        proof {
                            assert(ops[3int] == write_bit_frame_cmds(ADDR_RIGHT, frame_index, solid_bit_frame()));
                            lemma_step_ok(ops, 3int, base, base_att, self.bus.log(), self.bus.attempts());
                        }
                    },
                    Err(e) => {
                        proof {
                            let opc = write_bit_frame_cmds(ADDR_RIGHT, frame_index, solid_bit_frame());
                            assert(ops[3int] == opc);
                            let k = choose|k: int|
                                0 <= k < opc.len() && self.bus.log() == pre3 + opc.take(k)
                                    && self.bus.attempts() == preatt3 + ok_attempts(opc.take(k)).push(
                                    (opc[k], Result::<(), BusError>::Err(e)),
                                );
                            lemma_step_err(
                                ops,
                                switch_cmds(frame_index, draw_type),
                                3int,
                                k,
                                base,
                                base_att,
                                self.bus.log(),
                                self.bus.attempts(),
                                Result::<(), BusError>::Err(e),
                            );
                            let m = ops.take(3int).flatten().len() + k;
                            assert(4 <= m);
                            assert(switch_backdrop_set(*self, draw_type));
                        }
                        return Err(e);
                    },
                }
                proof {
                    assert(ops.take(4int) =~= ops);
                    assert(self.bus.log() == base + switch_cmds(frame_index, draw_type));
                    assert(self.bus.attempts() == base_att + ok_attempts(switch_cmds(frame_index, draw_type)));
                }
            },
        }
        Ok(())
    }
}

} // verus!
