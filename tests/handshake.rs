use branch::handshake::{check_preamble, HANDSHAKE_TIMEOUT_MS, PREAMBLE_LEN};
use branch::{handshake_step, HandshakeRead, PendingStep};

fn data(b: &[u8]) -> HandshakeRead {
    HandshakeRead::Data(b.to_vec())
}

fn step(received: &mut Vec<u8>, b: &[u8], elapsed: u64) -> PendingStep {
    handshake_step(received, &data(b), Some(elapsed))
}

#[test]
fn hello_with_any_version_is_promoted() {
    for (v1, v2) in [(1u8, 1u8), (0, 0), (255, 7)] {
        let mut got = Vec::new();
        assert_eq!(step(&mut got, &[b'h', b'e', b'l', b'l', b'o', v1, v2], 0), PendingStep::Promote);
        let mut got = Vec::new();
        assert_eq!(step(&mut got, &[b'h', b'e', b'l', b'l', b'o', v1, v2], 9_999), PendingStep::Promote);
    }
}

#[test]
fn preamble_split_across_reads_is_promoted() {
    let mut got = Vec::new();
    assert_eq!(step(&mut got, b"hel", 100), PendingStep::Wait);
    assert_eq!(got, b"hel".to_vec());
    assert_eq!(handshake_step(&mut got, &HandshakeRead::WouldBlock, Some(200)), PendingStep::Wait);
    assert_eq!(step(&mut got, b"lo\x02", 300), PendingStep::Wait);
    assert_eq!(step(&mut got, b"\x03", 400), PendingStep::Promote);
    assert_eq!(got, b"hello\x02\x03".to_vec());
}

#[test]
fn other_seven_bytes_are_dropped() {
    for b in [&b"hellx\x01\x01"[..], &b"HELLO\x01\x01"[..], &b"goodbye"[..]] {
        let mut got = Vec::new();
        assert_eq!(step(&mut got, b, 0), PendingStep::Drop);
    }
    let mut got = b"jell".to_vec();
    assert_eq!(step(&mut got, b"o\x01\x01", 0), PendingStep::Drop);
}

#[test]
fn short_read_keeps_waiting_within_timeout() {
    let mut got = Vec::new();
    assert_eq!(step(&mut got, b"hel", 0), PendingStep::Wait);
    let mut got = Vec::new();
    assert_eq!(step(&mut got, b"", 10_000), PendingStep::Wait);
}

#[test]
fn short_read_after_timeout_is_dropped() {
    let mut got = b"he".to_vec();
    assert_eq!(step(&mut got, b"l", 10_001), PendingStep::Drop);
}

#[test]
fn nothing_available_waits_until_timeout() {
    let mut got = Vec::new();
    assert_eq!(handshake_step(&mut got, &HandshakeRead::WouldBlock, Some(5_000)), PendingStep::Wait);
    assert_eq!(handshake_step(&mut got, &HandshakeRead::WouldBlock, Some(HANDSHAKE_TIMEOUT_MS)), PendingStep::Wait);
    assert_eq!(handshake_step(&mut got, &HandshakeRead::WouldBlock, Some(10_001)), PendingStep::Drop);
    assert!(got.is_empty());
}

#[test]
fn unknown_age_is_dropped() {
    let mut got = Vec::new();
    assert_eq!(handshake_step(&mut got, &HandshakeRead::WouldBlock, None), PendingStep::Drop);
}

#[test]
fn failed_read_is_dropped() {
    let mut got = b"hel".to_vec();
    assert_eq!(handshake_step(&mut got, &HandshakeRead::Failed, Some(0)), PendingStep::Drop);
}

#[test]
fn preamble_check_needs_exact_length() {
    assert_eq!(PREAMBLE_LEN, 7);
    assert!(check_preamble(&b"hello\x01\x02".to_vec()));
    assert!(!check_preamble(&b"hello\x01".to_vec()));
    assert!(!check_preamble(&b"hello\x01\x02\x03".to_vec()));
}
