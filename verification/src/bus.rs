//! The injected bus transport.
//!
//! The driver core never touches hardware itself: it is handed something that
//! implements [`Bus`], whose only duties are to write a byte sequence to a
//! device address and to pause for a settling delay. The trait carries two
//! ghost histories: `log`, the writes that succeeded, and `attempts`, every
//! write that was offered to the transport together with its outcome. The
//! second lets callers state that an aborted operation stopped at its first
//! failed write and handed that write's error back unchanged. Two verified
//! implementations are provided for exercising the driver without hardware:
//! one that accepts everything and one that rejects a chosen attempt.

use vstd::prelude::*;

verus! {

/// A failed bus write. The code is whatever value the transport chose to
/// report; the driver never inspects it, only hands it back unchanged.
#[derive(Clone, Copy, Debug, PartialEq, Eq, Structural)]
pub struct BusError {
    pub code: u8,
}

/// The attempt records of a run of commands that all succeeded: each
/// command paired with an accepting outcome.
pub open spec fn ok_attempts(cmds: Seq<(u8, Seq<u8>)>) -> Seq<
    ((u8, Seq<u8>), Result<(), BusError>),
> {
    cmds.map_values(|c: (u8, Seq<u8>)| (c, Result::<(), BusError>::Ok(())))
}


/// A unit-valued result that is `Ok` is the value `Ok(())`.
pub proof fn lemma_ok_unit(r: Result<(), BusError>)
    requires
        r is Ok,
    ensures
        r == Result::<(), BusError>::Ok(()),
{
    match r {
        Ok(u) => {
            assert(u == ());
        },
        Err(_) => {},
    }
}

/// The two-wire bus the chips hang on: a blocking write primitive plus a
/// fixed settling delay. The ghost `log` holds every write that succeeded,
/// in order; the ghost `attempts` holds every write that was offered, in
/// order, with the result the transport gave it.
pub trait Bus: Sized {
    /// All successful writes so far, oldest first.
    spec fn log(&self) -> Seq<(u8, Seq<u8>)>;

    /// All write attempts so far, oldest first: the bytes offered to the
    /// transport and whether it accepted them.
    spec fn attempts(&self) -> Seq<((u8, Seq<u8>), Result<(), BusError>)>;

    /// Whether this transport promises to accept every write.
    spec fn infallible() -> bool;

    /// Send `bytes` to the device at `addr`. Every attempt is recorded with
    /// its outcome; a successful write also appends itself to the log, a
    /// failed write sends nothing.
    fn write(&mut self, addr: u8, bytes: &[u8]) -> (r: Result<(), BusError>)
        ensures
            final(self).attempts() == old(self).attempts().push(((addr, bytes@), r)),
            r is Ok ==> final(self).log() == old(self).log().push((addr, bytes@)),
            r is Err ==> final(self).log() == old(self).log(),
            Self::infallible() ==> r is Ok,
    ;

    /// Block for `ms` milliseconds; nothing goes out on the bus.
    fn delay_ms(&mut self, ms: u16)
        ensures
            final(self).log() == old(self).log(),
            final(self).attempts() == old(self).attempts(),
    ;
}

/// A bus stub that accepts every write and records it; the recorded traffic
/// is exactly the ghost log.
pub struct RecordingBus {
    pub writes: Vec<(u8, Vec<u8>)>,
}

impl RecordingBus {
    pub fn new() -> (b: RecordingBus)
        ensures
            b.log() == Seq::<(u8, Seq<u8>)>::empty(),
            b.attempts() == Seq::<((u8, Seq<u8>), Result<(), BusError>)>::empty(),
    {
        let b = RecordingBus { writes: Vec::new() };
        proof {
            assert(b.log() =~= Seq::<(u8, Seq<u8>)>::empty());
            assert(b.attempts() =~= Seq::<((u8, Seq<u8>), Result<(), BusError>)>::empty());
        }
        b
    }
}

impl Bus for RecordingBus {
    open spec fn log(&self) -> Seq<(u8, Seq<u8>)> {
        self.writes@.map_values(|w: (u8, Vec<u8>)| (w.0, w.1@))
    }

    open spec fn attempts(&self) -> Seq<((u8, Seq<u8>), Result<(), BusError>)> {
        ok_attempts(self.log())
    }

    open spec fn infallible() -> bool {
        true
    }

    fn write(&mut self, addr: u8, bytes: &[u8]) -> (r: Result<(), BusError>) {
        let data = copy_bytes(bytes);
        self.writes.push((addr, data));
        proof {
            assert(self.log() =~= old(self).log().push((addr, bytes@)));
            assert(self.attempts() =~= old(self).attempts().push(
                ((addr, bytes@), Result::<(), BusError>::Ok(())),
            ));
        }
        Ok(())
    }

    fn delay_ms(&mut self, ms: u16) {
    }
}

/// A bus stub that rejects exactly one attempt — the one whose zero-based
/// index over all attempts equals `fail_at` — and accepts every other.
/// `tried` records every attempt, accepted or not; `writes` records the
/// accepted ones.
pub struct FailingBus {
    pub writes: Vec<(u8, Vec<u8>)>,
    pub tried: Vec<(u8, Vec<u8>)>,
    pub fail_at: usize,
    pub error_code: u8,
}

impl FailingBus {
    pub fn new(fail_at: usize, error_code: u8) -> (b: FailingBus)
        ensures
            b.log() == Seq::<(u8, Seq<u8>)>::empty(),
            b.attempts() == Seq::<((u8, Seq<u8>), Result<(), BusError>)>::empty(),
            b.fail_at == fail_at,
            b.error_code == error_code,
    {
        let b = FailingBus { writes: Vec::new(), tried: Vec::new(), fail_at, error_code };
        proof {
            assert(b.log() =~= Seq::<(u8, Seq<u8>)>::empty());
            assert(b.attempts() =~= Seq::<((u8, Seq<u8>), Result<(), BusError>)>::empty());
        }
        b
    }
}

impl Bus for FailingBus {
    open spec fn log(&self) -> Seq<(u8, Seq<u8>)> {
        self.writes@.map_values(|w: (u8, Vec<u8>)| (w.0, w.1@))
    }

    open spec fn attempts(&self) -> Seq<((u8, Seq<u8>), Result<(), BusError>)> {
        Seq::new(
            self.tried@.len(),
            |i: int|
                (
                    (self.tried@[i].0, self.tried@[i].1@),
                    if i == self.fail_at {
                        Result::<(), BusError>::Err(BusError { code: self.error_code })
                    } else {
                        Result::<(), BusError>::Ok(())
                    },
                ),
        )
    }

    open spec fn infallible() -> bool {
        false
    }

    fn write(&mut self, addr: u8, bytes: &[u8]) -> (r: Result<(), BusError>) {
        let attempt = self.tried.len();
        let data = copy_bytes(bytes);
        self.tried.push((addr, data));
        if attempt == self.fail_at {
            let r = Err(BusError { code: self.error_code });
            proof {
                assert(self.log() =~= old(self).log());
                assert(self.attempts() =~= old(self).attempts().push(((addr, bytes@), r)));
            }
            r
        } else {
            let data = copy_bytes(bytes);
            self.writes.push((addr, data));
            proof {
                assert(self.log() =~= old(self).log().push((addr, bytes@)));
                assert(self.attempts() =~= old(self).attempts().push(
                    ((addr, bytes@), Result::<(), BusError>::Ok(())),
                ));
            }
            Ok(())
        }
    }

    fn delay_ms(&mut self, ms: u16) {
    }
}

/// An owned copy of a byte slice.
fn copy_bytes(bytes: &[u8]) -> (v: Vec<u8>)
    ensures
        v@ == bytes@,
{
    let mut v: Vec<u8> = Vec::new();
    let mut i: usize = 0;
    while i < bytes.len()
        invariant
            i <= bytes.len(),
            v@ == bytes@.take(i as int),
        decreases bytes.len() - i,
    {
        v.push(bytes[i]);
        proof {
            assert(v@ =~= bytes@.take(i + 1 as int));
        }
        i = i + 1;
    }
    proof {
        assert(v@ =~= bytes@);
    }
    v
}

} // verus!
