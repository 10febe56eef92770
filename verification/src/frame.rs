//! Logical frames for one AS1130 chip and the pure encoders that turn them
//! into the chip's on-wire buffers.
//!
//! A bit frame is one byte per column, each bit the on/off state of a row. A
//! PWM frame is one intensity byte per pixel. The encoders are total, pure
//! functions; their outputs are pinned down element by element by
//! [`bit_buffer_spec`] and [`pwm_buffer_spec`].

use vstd::prelude::*;

verus! {

/// Rows of a single chip's matrix.
pub const FRAME_ROWS: usize = 8;

/// Columns of a single chip's matrix.
pub const FRAME_COLS: usize = 12;

/// A 12-column on/off bitmap: one byte per column, bit `r` of byte `c` is the
/// state of row `r` in column `c`.
pub struct BitFrame {
    pub bytes: Vec<u8>,
}

/// A 12x8 intensity map, one byte per pixel, stored column after column:
/// entry `8 * c + r` is the level of row `r` in column `c`.
pub struct PwmFrame {
    pub bytes: Vec<u8>,
}

impl View for BitFrame {
    type V = Seq<u8>;

    open spec fn view(&self) -> Seq<u8> {
        self.bytes@
    }
}

impl View for PwmFrame {
    type V = Seq<u8>;

    open spec fn view(&self) -> Seq<u8> {
        self.bytes@
    }
}

impl BitFrame {
    /// A bit frame always holds exactly one byte per column.
    pub open spec fn wf(&self) -> bool {
        self@.len() == FRAME_COLS
    }

    /// A frame with every pixel off.
    pub fn new() -> (f: BitFrame)
        ensures
            f.wf(),
            f@ == empty_bit_frame(),
    {
        BitFrame { bytes: const_bytes(FRAME_COLS, 0) }
    }
}

impl PwmFrame {
    /// A PWM frame always holds exactly one byte per pixel.
    pub open spec fn wf(&self) -> bool {
        self@.len() == FRAME_ROWS * FRAME_COLS
    }

    /// A frame with every pixel dark.
    pub fn new() -> (f: PwmFrame)
        ensures
            f.wf(),
            f@ == empty_pwm_frame(),
    {
        PwmFrame { bytes: const_bytes(FRAME_ROWS * FRAME_COLS, 0) }
    }
}

/// `len` copies of `value`.
pub open spec fn const_frame(len: int, value: u8) -> Seq<u8> {
    Seq::new(len as nat, |i: int| value)
}

/// The all-off bit frame.
pub open spec fn empty_bit_frame() -> Seq<u8> {
    const_frame(FRAME_COLS as int, 0)
}

/// The all-on bit frame.
pub open spec fn solid_bit_frame() -> Seq<u8> {
    const_frame(FRAME_COLS as int, 0xFF)
}

/// The all-dark PWM frame.
pub open spec fn empty_pwm_frame() -> Seq<u8> {
    const_frame((FRAME_ROWS * FRAME_COLS) as int, 0)
}

/// The full-intensity PWM frame.
pub open spec fn solid_pwm_frame() -> Seq<u8> {
    const_frame((FRAME_ROWS * FRAME_COLS) as int, 0xFF)
}

/// The wire buffer for a bit frame written into on/off memory: a leading
/// alignment byte that is always zero, then two bytes per column holding the
/// column's eight row bits split across the chip's two register slots.
pub open spec fn bit_buffer_spec(f: Seq<u8>) -> Seq<u8> {
    Seq::new(
        (2 * FRAME_COLS + 1) as nat,
        |i: int|
            if i == 0 {
                0u8
            } else if (i - 1) % 2 == 0 {
                f[(i - 1) / 2] << 2
            } else {
                f[(i - 1) / 2] >> 6
            },
    )
}

/// The wire buffer for a PWM frame written into blink/PWM memory: for each
/// column, its page-address byte `26 + 11 * c`, then the column's eight
/// intensity bytes in row order.
pub open spec fn pwm_buffer_spec(f: Seq<u8>) -> Seq<u8> {
    Seq::new(
        (FRAME_COLS * (FRAME_ROWS + 1)) as nat,
        |i: int|
            if i % 9 == 0 {
                (26 + 11 * (i / 9)) as u8
            } else {
                f[8 * (i / 9) + (i % 9) - 1]
            },
    )
}

/// Every byte complemented bitwise; the inverse of a bit frame.
pub open spec fn invert_bits(f: Seq<u8>) -> Seq<u8> {
    f.map_values(|b: u8| !b)
}

/// Every intensity mirrored around the midpoint; the inverse of a PWM frame.
pub open spec fn invert_levels(f: Seq<u8>) -> Seq<u8> {
    f.map_values(|b: u8| (255 - b) as u8)
}

/// The column byte recovered from the two buffer bytes of column `c`: the
/// high slot shifted back up, merged with the low slot shifted back down.
pub open spec fn decode_bit_column(buffer: Seq<u8>, c: int) -> u8 {
    (buffer[2 * c + 2] << 6) | (buffer[2 * c + 1] >> 2)
}

/// The page-address byte emitted for column `c` of a PWM buffer.
pub open spec fn pwm_page_byte(buffer: Seq<u8>, c: int) -> u8 {
    buffer[9 * c]
}

/// The intensity byte emitted for row `r` of column `c` of a PWM buffer.
pub open spec fn pwm_data_byte(buffer: Seq<u8>, c: int, r: int) -> u8 {
    buffer[9 * c + 1 + r]
}

/// Encoding a bit frame loses nothing: recombining the two emitted bytes of
/// any column gives back that column's original byte exactly.
pub proof fn lemma_bit_buffer_round_trip(f: Seq<u8>)
    requires
        f.len() == FRAME_COLS,
    ensures
        forall|c: int|
            0 <= c < FRAME_COLS ==> #[trigger] decode_bit_column(bit_buffer_spec(f), c) == f[c],
{
    assert forall|c: int|
        0 <= c < FRAME_COLS implies #[trigger] decode_bit_column(bit_buffer_spec(f), c)
        == f[c] by {
        let b = f[c];
        assert(bit_buffer_spec(f)[2 * c + 1] == b << 2);
        assert(bit_buffer_spec(f)[2 * c + 2] == b >> 6);
        assert(((b >> 6) << 6) | ((b << 2) >> 2) == b) by (bit_vector);
    }
}

/// The PWM buffer's layout is exact: column `c`'s page-address byte is
/// `26 + 11 * c`, and the eight bytes after it are that column's intensity
/// bytes from the frame, in row order.
pub proof fn lemma_pwm_buffer_layout(f: Seq<u8>)
    requires
        f.len() == FRAME_ROWS * FRAME_COLS,
    ensures
        forall|c: int|
            0 <= c < FRAME_COLS ==> #[trigger] pwm_page_byte(pwm_buffer_spec(f), c) == (26 + 11
                * c) as u8,
        forall|c: int, r: int|
            0 <= c < FRAME_COLS && 0 <= r < FRAME_ROWS ==> #[trigger] pwm_data_byte(
                pwm_buffer_spec(f),
                c,
                r,
            ) == f[8 * c + r],
{
    assert forall|c: int|
        0 <= c < FRAME_COLS implies #[trigger] pwm_page_byte(pwm_buffer_spec(f), c) == (26 + 11
        * c) as u8 by {
        assert((9 * c) % 9 == 0 && (9 * c) / 9 == c) by (nonlinear_arith)
            requires
                0 <= c,
        ;
    }
    assert forall|c: int, r: int|
        0 <= c < FRAME_COLS && 0 <= r < FRAME_ROWS implies #[trigger] pwm_data_byte(
        pwm_buffer_spec(f),
        c,
        r,
    ) == f[8 * c + r] by {
        assert((9 * c + 1 + r) % 9 == 1 + r && (9 * c + 1 + r) / 9 == c) by (nonlinear_arith)
            requires
                0 <= c && 0 <= r < 8,
        ;
    }
}

/// Inverting a bit frame twice gives back the original frame: bitwise
/// complement is self-inverse on every column byte.
pub proof fn lemma_invert_bits_involutive(f: Seq<u8>)
    ensures
        invert_bits(invert_bits(f)) == f,
{
    assert forall|i: int| 0 <= i < f.len() implies invert_bits(invert_bits(f))[i] == f[i] by {
        let b = f[i];
        assert(!(!b) == b) by (bit_vector);
    }
    assert(invert_bits(invert_bits(f)) =~= f);
}

/// Inverting a PWM frame twice gives back the original frame:
/// `255 - (255 - v)` is `v` for every intensity.
pub proof fn lemma_invert_levels_involutive(f: Seq<u8>)
    ensures
        invert_levels(invert_levels(f)) == f,
{
    assert(invert_levels(invert_levels(f)) =~= f);
}

/// A bit frame filled fully on inverts to the fully-off frame, and the
/// other way round.
pub proof fn lemma_invert_filled_bit_frame()
    ensures
        invert_bits(solid_bit_frame()) == empty_bit_frame(),
        invert_bits(empty_bit_frame()) == solid_bit_frame(),
{
    assert(!0xFFu8 == 0x00u8) by (bit_vector);
    assert(!0x00u8 == 0xFFu8) by (bit_vector);
    assert(invert_bits(solid_bit_frame()) =~= empty_bit_frame());
    assert(invert_bits(empty_bit_frame()) =~= solid_bit_frame());
}

/// `len` copies of `value`, as an owned byte vector.
fn const_bytes(len: usize, value: u8) -> (v: Vec<u8>)
    ensures
        v@ == const_frame(len as int, value),
{
    let mut v: Vec<u8> = Vec::new();
    let mut i: usize = 0;
    while i < len
        invariant
            i <= len,
            v@ == const_frame(i as int, value),
        decreases len - i,
    {
        v.push(value);
        proof {
            assert(v@ =~= const_frame(i + 1 as int, value));
        }
        i = i + 1;
    }
    proof {
        assert(v@ =~= const_frame(len as int, value));
    }
    v
}

/// The pure frame operations: encoding a frame into its wire buffer, and the
/// fill/invert helpers the orchestrator uses.
pub struct FrameHelpers {}

impl FrameHelpers {
    /// Serialize a bit frame into the 25-byte on/off write buffer.
    pub fn create_bit_buffer(bit_frame: &BitFrame) -> (buffer: Vec<u8>)
        requires
            bit_frame.wf(),
        ensures
            buffer@ == bit_buffer_spec(bit_frame@),
    {
        let mut buffer: Vec<u8> = Vec::new();
        buffer.push(0);
        let mut c: usize = 0;
        while c < FRAME_COLS
        invariant
            c <= FRAME_COLS,
            bit_frame.wf(),
            buffer@ == bit_buffer_spec(bit_frame@).take(1 + 2 * c),
        decreases FRAME_COLS - c,
        {
            let bits = bit_frame.bytes[c];
            buffer.push(bits << 2u8);
            buffer.push(bits >> 6u8);
            proof {
                assert(buffer@ =~= bit_buffer_spec(bit_frame@).take(1 + 2 * (c + 1)));
            }
            c = c + 1;
        }
        proof {
            assert(buffer@ =~= bit_buffer_spec(bit_frame@));
        }
        buffer
    }

    /// Serialize a PWM frame into the 108-byte blink/PWM write buffer,
    /// page-address byte first for each column.
    pub fn create_pwm_buffer(pwm_frame: &PwmFrame) -> (buffer: Vec<u8>)
        requires
            pwm_frame.wf(),
        ensures
            buffer@ == pwm_buffer_spec(pwm_frame@),
    {
        let mut buffer: Vec<u8> = Vec::new();
        let mut c: usize = 0;
        while c < FRAME_COLS
        invariant
            c <= FRAME_COLS,
            pwm_frame.wf(),
            buffer@ == pwm_buffer_spec(pwm_frame@).take(9 * c),
        decreases FRAME_COLS - c,
        {
            buffer.push(26 + (c as u8) * 11);
            let mut r: usize = 0;
            while r < FRAME_ROWS
            invariant
                c < FRAME_COLS,
                r <= FRAME_ROWS,
                pwm_frame.wf(),
                buffer@ == pwm_buffer_spec(pwm_frame@).take(9 * c + 1 + r),
            decreases FRAME_ROWS - r,
            {
                buffer.push(pwm_frame.bytes[8 * c + r]);
                proof {
                    assert(buffer@ =~= pwm_buffer_spec(pwm_frame@).take(9 * c + 1 + (r + 1)));
                }
                r = r + 1;
            }
            c = c + 1;
        }
        proof {
            assert(buffer@ =~= pwm_buffer_spec(pwm_frame@));
        }
        buffer
    }

    /// Set every column of a bit frame fully on or fully off.
    pub fn fill_bit_frame(bit_frame: &mut BitFrame, on: bool)
        requires
            old(bit_frame).wf(),
        ensures
            final(bit_frame).wf(),
            final(bit_frame)@ == if on {
                solid_bit_frame()
            } else {
                empty_bit_frame()
            },
    {
        let fill_value: u8 = if on {
            0xFF
        } else {
            0
        };
        bit_frame.bytes = const_bytes(FRAME_COLS, fill_value);
    }

    /// Set every pixel of a PWM frame to one intensity.
    pub fn fill_pwm_frame(pwm_frame: &mut PwmFrame, fill_value: u8)
        requires
            old(pwm_frame).wf(),
        ensures
            final(pwm_frame).wf(),
            final(pwm_frame)@ == const_frame((FRAME_ROWS * FRAME_COLS) as int, fill_value),
    {
        pwm_frame.bytes = const_bytes(FRAME_ROWS * FRAME_COLS, fill_value);
    }

    /// Complement every column byte of a bit frame.
    pub fn invert_bit_frame(bit_frame: &mut BitFrame)
        requires
            old(bit_frame).wf(),
        ensures
            final(bit_frame).wf(),
            final(bit_frame)@ == invert_bits(old(bit_frame)@),
    {
        let mut inverted: Vec<u8> = Vec::new();
        let mut i: usize = 0;
        while i < bit_frame.bytes.len()
        invariant
            i <= bit_frame.bytes.len(),
            bit_frame == old(bit_frame),
            inverted@ == invert_bits(bit_frame@).take(i as int),
        decreases bit_frame.bytes.len() - i,
        {
            inverted.push(!bit_frame.bytes[i]);
            proof {
                assert(inverted@ =~= invert_bits(bit_frame@).take(i + 1 as int));
            }
            i = i + 1;
        }
        proof {
            assert(inverted@ =~= invert_bits(bit_frame@));
        }
        bit_frame.bytes = inverted;
    }

    /// Mirror every intensity of a PWM frame: `v` becomes `255 - v`.
    pub fn invert_pwm_frame(pwm_frame: &mut PwmFrame)
        requires
            old(pwm_frame).wf(),
        ensures
            final(pwm_frame).wf(),
            final(pwm_frame)@ == invert_levels(old(pwm_frame)@),
    {
        let mut inverted: Vec<u8> = Vec::new();
        let mut i: usize = 0;
        while i < pwm_frame.bytes.len()
        invariant
            i <= pwm_frame.bytes.len(),
            pwm_frame == old(pwm_frame),
            inverted@ == invert_levels(pwm_frame@).take(i as int),
        decreases pwm_frame.bytes.len() - i,
        {
            inverted.push(255 - pwm_frame.bytes[i]);
            proof {
                assert(inverted@ =~= invert_levels(pwm_frame@).take(i + 1 as int));
            }
            i = i + 1;
        }
        proof {
            assert(inverted@ =~= invert_levels(pwm_frame@));
        }
        pwm_frame.bytes = inverted;
    }
}

} // verus!
