//! Admission handshake of a freshly accepted connection.
//!
//! A client opens with seven bytes: the ASCII word `hello` followed by two
//! protocol version bytes. Until they arrive the connection is pending; it is
//! given ten seconds.
use vstd::prelude::*;

verus! {

/// Length of the opening preamble, in bytes.
pub const PREAMBLE_LEN: usize = 7;

/// How long a pending connection may take to complete its preamble.
pub const HANDSHAKE_TIMEOUT_MS: u64 = 10000;

/// What one non-blocking read of the pending socket gave.
#[derive(Debug)]
pub enum HandshakeRead {
    /// The bytes that were read (at most the preamble's length).
    Data(Vec<u8>),
    /// Nothing was available yet.
    WouldBlock,
    /// The read failed.
    Failed,
}

/// What to do with a pending connection after one read.
#[derive(Clone, Copy, Debug, PartialEq, Eq, Structural)]
pub enum PendingStep {
    /// The preamble is complete and correct: make the connection a session.
    Promote,
    /// Keep the connection pending and read again on the next tick.
    Wait,
    /// Close the connection; no session is created.
    Drop,
}

/// The bytes are exactly `hello` followed by two version bytes.
pub open spec fn is_preamble(b: Seq<u8>) -> bool {
    &&& b.len() == 7
    &&& b[0] == 104u8  // h
    &&& b[1] == 101u8  // e
    &&& b[2] == 108u8  // l
    &&& b[3] == 108u8  // l
    &&& b[4] == 111u8  // o
}

/// The connection has been pending for too long, or its age is unknown
/// because the clock went backwards.
pub open spec fn timed_out(elapsed_ms: Option<u64>) -> bool {
    match elapsed_ms {
        Some(ms) => ms > HANDSHAKE_TIMEOUT_MS,
        None => true,
    }
}

/// Keep waiting, unless the connection has timed out.
pub open spec fn wait_or_drop(elapsed_ms: Option<u64>) -> PendingStep {
    if timed_out(elapsed_ms) {
        PendingStep::Drop
    } else {
        PendingStep::Wait
    }
}

/// What a pending connection has received after one read: the bytes kept
/// from earlier reads followed by those of this read.
pub open spec fn received_after(received: Seq<u8>, read: HandshakeRead) -> Seq<u8> {
    match read {
        HandshakeRead::Data(b) => received + b@,
        _ => received,
    }
}

/// The decision for one read of a pending connection that had received
/// `received` before it: promote once the first seven bytes are the
/// preamble, drop once they are not, and otherwise keep waiting until the
/// timeout.
pub open spec fn pending_step(received: Seq<u8>, read: HandshakeRead, elapsed_ms: Option<u64>) -> PendingStep {
    match read {
        HandshakeRead::Data(b) => {
            let t = received + b@;
            if t.len() < 7 {
                wait_or_drop(elapsed_ms)
            } else if is_preamble(t.subrange(0, 7)) {
                PendingStep::Promote
            } else {
                PendingStep::Drop
            }
        },
        HandshakeRead::WouldBlock => wait_or_drop(elapsed_ms),
        HandshakeRead::Failed => PendingStep::Drop,
    }
}

/// However the preamble is split across reads, the read that completes it
/// promotes the connection, and every read before it keeps the connection
/// waiting within the timeout. `hello` followed by any two version bytes is
/// a preamble. Seven bytes that are not a preamble drop the connection, and
/// so does waiting more than ten seconds for fewer than seven bytes.
pub proof fn lemma_handshake_acceptance(
    v1: u8,
    v2: u8,
    received: Seq<u8>,
    b: Seq<u8>,
    elapsed_ms: u64,
)
    ensures
        is_preamble(seq![104u8, 101u8, 108u8, 108u8, 111u8, v1, v2]),
        is_preamble(received + b) ==> forall|r: HandshakeRead, e: Option<u64>|
            (r matches HandshakeRead::Data(v) && v@ == b) ==> pending_step(received, r, e)
                == PendingStep::Promote,
        (received + b).len() < 7 && elapsed_ms <= HANDSHAKE_TIMEOUT_MS ==> forall|r: HandshakeRead|
            (r matches HandshakeRead::Data(v) && v@ == b) ==> pending_step(received, r, Some(elapsed_ms))
                == PendingStep::Wait,
        (received + b).len() == 7 && !is_preamble(received + b) ==> forall|r: HandshakeRead, e: Option<u64>|
            (r matches HandshakeRead::Data(v) && v@ == b) ==> pending_step(received, r, e)
                == PendingStep::Drop,
        (received + b).len() < 7 && elapsed_ms > HANDSHAKE_TIMEOUT_MS ==> forall|r: HandshakeRead|
            (r matches HandshakeRead::Data(v) && v@ == b) ==> pending_step(received, r, Some(elapsed_ms))
                == PendingStep::Drop,
        elapsed_ms > HANDSHAKE_TIMEOUT_MS ==> pending_step(received, HandshakeRead::WouldBlock, Some(elapsed_ms))
            == PendingStep::Drop,
{
    if (received + b).len() == 7 {
        assert((received + b).subrange(0, 7) =~= received + b);
    }
}

/// Checks seven bytes against the preamble.
pub fn check_preamble(b: &Vec<u8>) -> (r: bool)
    ensures
        r == is_preamble(b@),
{
    b.len() == PREAMBLE_LEN && b[0] == 104u8 && b[1] == 101u8 && b[2] == 108u8 && b[3] == 108u8
        && b[4] == 111u8
}

/// Decides the fate of a pending connection from one read and the time, in
/// milliseconds, since it was accepted (`None` when the clock went
/// backwards). `received` holds what the connection sent in earlier reads;
/// the bytes of this read are added to it.
pub fn handshake_step(received: &mut Vec<u8>, read: &HandshakeRead, elapsed_ms: Option<u64>) -> (r: PendingStep)
    ensures
        r == pending_step(old(received)@, *read, elapsed_ms),
        final(received)@ == received_after(old(received)@, *read),
{
    let expired = match elapsed_ms {
        Some(ms) => ms > HANDSHAKE_TIMEOUT_MS,
        None => true,
    };
    match read {
        HandshakeRead::Data(b) => {
            let ghost start = received@;
            let mut k: usize = 0;
            while k < b.len()
                invariant
                    k <= b@.len(),
                    received@ == start + b@.subrange(0, k as int),
                decreases b@.len() - k,
            {
                received.push(b[k]);
                k = k + 1;
                assert(received@ =~= start + b@.subrange(0, k as int));
            }
            assert(b@.subrange(0, k as int) =~= b@);
            if received.len() < PREAMBLE_LEN {
                if expired {
                    PendingStep::Drop
                } else {
                    PendingStep::Wait
                }
            } else {
                let t = &*received;
                if t[0] == 104u8 && t[1] == 101u8 && t[2] == 108u8 && t[3] == 108u8 && t[4] == 111u8 {
                    PendingStep::Promote
                } else {
                    PendingStep::Drop
                }
            }
        },
        HandshakeRead::WouldBlock => {
            if expired {
                PendingStep::Drop
            } else {
                PendingStep::Wait
            }
        },
        HandshakeRead::Failed => PendingStep::Drop,
    }
}

} // verus!
