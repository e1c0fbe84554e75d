//! Protected frames.
use std::sync::Arc;

use ed25519_dalek::SigningKey;
use moq_mux::container::{
    Consumer, Container, Frame, FrameDecrypter, FrameEncrypter, FrameReader, FrameWriter,
    GroupConsumer, MoqFrameWriter, ProtectedReadFrame, ProtectedWriteFrame, ReadFrame,
};
use moq_mux::container::loc::Wire;
use moq_mux::encryption::moq_secure_adapter::{
    MoqSecureDecrypter, MoqSecureDecryptionConfig, MoqSecureEncrypter,
};
use moq_mux::encryption::EncryptionError;
use moq_mux::net::{Group, GroupEvent, Subscriber, Subscription, TrackInfo};
use moq_mux::poll::Poll;
use moq_mux::time::{Duration, Timestamp};
use moq_mux::Error;
use moq_secure::error::MoqSecureError;
use moq_secure::key_store::InMemoryKeyStore;

fn ts(micros: u64) -> Timestamp {
    Timestamp::from_micros(micros).unwrap()
}

fn store() -> Arc<InMemoryKeyStore> {
    let mut keys = InMemoryKeyStore::empty();
    keys.set_key(7, [0x42; 32]);
    keys.set_key(8, [0x43; 32]);
    Arc::new(keys)
}

fn signing_key() -> SigningKey {
    SigningKey::from_bytes(&[0x11; 32])
}

fn encrypter(n_signed: u8, maybe_sign: bool, pad_len: u32, ctr: u64) -> MoqSecureEncrypter {
    MoqSecureEncrypter::new(store(), signing_key(), 7, n_signed, maybe_sign, pad_len, ctr)
}

fn decrypter() -> MoqSecureDecrypter {
    MoqSecureDecrypter::new(&MoqSecureDecryptionConfig {
        key_store: store(),
        broadcaster_public_key: signing_key().verifying_key(),
    })
}

/// Adds the number of the frame to each byte, and counts.
#[derive(Debug)]
struct Shift(u64);

impl FrameEncrypter for Shift {
    type State = ();

    fn encrypt(&mut self, number: u64, plaintext: &Vec<u8>) -> Result<Vec<u8>, EncryptionError> {
        self.0 += 1;
        if plaintext.is_empty() {
            return Err(EncryptionError::NotImplemented);
        }
        Ok(plaintext.iter().map(|byte| byte.wrapping_add(number as u8 + 1)).collect())
    }
}

impl FrameDecrypter for Shift {
    type State = ();

    fn decrypt(&mut self, number: u64, ciphertext: &Vec<u8>) -> Result<Vec<u8>, EncryptionError> {
        self.0 += 1;
        if ciphertext == b"bad" {
            return Err(EncryptionError::AuthenticationFailed);
        }
        Ok(ciphertext.iter().map(|byte| byte.wrapping_sub(number as u8 + 1)).collect())
    }
}

fn ready(read: Poll<Result<Option<ReadFrame>, Error>>) -> ReadFrame {
    match read {
        Poll::Ready(Ok(Some(frame))) => frame,
        other => panic!("expected a frame, got {other:?}"),
    }
}

#[test]
fn a_protected_writer_numbers_frames_by_the_group() {
    let mut group = Group::new(4);
    let mut writer = ProtectedWriteFrame::new(MoqFrameWriter { group: &mut group }, Shift(0));
    assert_eq!(writer.next_sequence_number(), 0);
    writer.write_frame(ts(1), vec![10, 20]).unwrap();
    assert_eq!(writer.next_sequence_number(), 1);
    writer.write_frame(ts(2), vec![10, 20]).unwrap();
    let (_, shift) = writer.into_parts();
    assert_eq!(shift.0, 2);

    let (number, frame) = group.pop_frame().unwrap();
    assert_eq!((number, frame.timestamp, frame.payload), (0, ts(1), vec![11, 21]));
    let (number, frame) = group.pop_frame().unwrap();
    assert_eq!((number, frame.timestamp, frame.payload), (1, ts(2), vec![12, 22]));
    assert!(group.pop_frame().is_none());
}

#[test]
fn a_failed_encryption_writes_nothing() {
    let mut group = Group::new(4);
    let mut writer = ProtectedWriteFrame::new(MoqFrameWriter { group: &mut group }, Shift(0));
    assert_eq!(
        writer.write_frame(ts(1), Vec::new()),
        Err(Error::Encryption(EncryptionError::NotImplemented))
    );
    let inner = writer.into_inner();
    assert_eq!(inner.next_sequence_number(), 0);
    assert!(group.pop_frame().is_none());
}

#[test]
fn protection_nests() {
    // The outer layer is sealed first, and opened last.
    let mut group = Group::new(4);
    let mut writer = ProtectedWriteFrame::new(
        ProtectedWriteFrame::new(MoqFrameWriter { group: &mut group }, encrypter(0, false, 3, 5)),
        encrypter(2, true, 0, 9),
    );
    let payloads = [vec![1, 2, 3], vec![], vec![4]];
    for payload in &payloads {
        writer.write_frame(ts(1), payload.clone()).unwrap();
    }
    let (inner, outer) = writer.into_parts();
    assert_eq!(outer.next_counter(), 12);
    assert_eq!(inner.encrypter.next_counter(), 8);

    let mut reader =
        ProtectedReadFrame::new(ProtectedReadFrame::new(group, decrypter()), decrypter());
    for (number, payload) in payloads.iter().enumerate() {
        let frame = ready(reader.poll_read_frame());
        assert_eq!(frame.sequence_number, number as u32);
        assert_eq!(&frame.payload, payload);
    }
    assert!(reader.poll_read_frame().is_pending());
    // Each of the three signatures renewed the lease for one more frame.
    assert_eq!(reader.decrypter.lease_remaining(), 1);
}

#[test]
fn a_closed_group_refuses_frames() {
    let mut group = Group::new(4);
    group.finish().unwrap();
    let mut writer = MoqFrameWriter { group: &mut group };
    assert_eq!(
        writer.write_frame(ts(1), vec![1]),
        Err(Error::Moq(moq_mux::net::Error::Closed))
    );
}

#[test]
fn a_protected_reader_opens_by_the_number() {
    let mut group = Group::new(4);
    let mut shift = Shift(0);
    {
        let mut writer =
            ProtectedWriteFrame::new(MoqFrameWriter { group: &mut group }, &mut shift);
        writer.write_frame(ts(1), vec![10, 20]).unwrap();
        writer.write_frame(ts(2), vec![30]).unwrap();
    }
    let mut reader = ProtectedReadFrame::new(group, Box::new(Shift(0)));
    assert_eq!(reader.next_sequence_number(), 0);
    let first = ready(reader.poll_read_frame());
    assert_eq!((first.sequence_number, first.timestamp), (0, ts(1)));
    assert_eq!(first.payload, vec![10, 20]);
    assert_eq!(reader.next_sequence_number(), 1);
    let second = ready(reader.poll_read_frame());
    assert_eq!((second.sequence_number, second.timestamp), (1, ts(2)));
    assert_eq!(second.payload, vec![30]);
    assert!(reader.poll_read_frame().is_pending());
    let (mut group, key) = reader.into_parts();
    assert_eq!(key.0, 2);

    group.write_frame(ts(3), b"bad".to_vec()).unwrap();
    group.finish().unwrap();
    let mut key = Shift(0);
    let mut reader = ProtectedReadFrame::new(&mut group, &mut key);
    match reader.poll_read_frame() {
        Poll::Ready(Err(error)) => {
            assert_eq!(error, Error::Encryption(EncryptionError::AuthenticationFailed));
        }
        other => panic!("expected an error, got {other:?}"),
    }
    assert!(matches!(reader.poll_read_frame(), Poll::Ready(Ok(None))));
    assert_eq!(reader.into_inner().next_sequence_number(), 3);
}

#[test]
fn sealed_frames_open_again() {
    let mut sender = encrypter(0, false, 0, 5);
    let mut receiver = decrypter();
    assert_eq!(sender.next_counter(), 5);
    for payload in [b"".to_vec(), b"hello".to_vec(), vec![0xff; 1000]] {
        let frame = sender.encrypt(0, &payload).unwrap();
        assert_ne!(frame, payload);
        assert_eq!(frame.len(), 17 + 4 + payload.len() + 16);
        assert_eq!(receiver.decrypt(9, &frame).unwrap(), payload);
        assert_eq!(receiver.lease_remaining(), 0);
    }
    assert_eq!(sender.next_counter(), 8);
}

#[test]
fn the_header_carries_key_and_counter() {
    let mut sender = encrypter(3, true, 2, 0x0102_0304_0506_0708);
    let frame = sender.encrypt(0, &b"hello".to_vec()).unwrap();
    assert_eq!(frame.len(), 17 + 4 + 2 + 5 + 16 + 64);
    assert_eq!(&frame[..6], b"MOQS\x01\x07");
    assert_eq!(&frame[6..14], &[1, 2, 3, 4, 5, 6, 7, 8]);
    assert_eq!(&frame[14..17], &[3, 1, 1]);
}

#[test]
fn counters_are_never_reused() {
    let mut sender = encrypter(0, false, 0, 0);
    let payload = b"same".to_vec();
    let frames: Vec<Vec<u8>> = (0..4).map(|_| sender.encrypt(0, &payload).unwrap()).collect();
    for (i, frame) in frames.iter().enumerate() {
        assert_eq!(frame[13], i as u8);
        for other in &frames[i + 1..] {
            assert_ne!(frame, other);
        }
    }
    assert_eq!(sender.next_counter(), 4);
}

#[test]
fn the_last_counter_is_never_taken() {
    let mut sender = encrypter(0, false, 0, u64::MAX - 1);
    sender.encrypt(0, &vec![1]).unwrap();
    assert_eq!(sender.next_counter(), u64::MAX);
    assert_eq!(sender.encrypt(0, &vec![1]), Err(EncryptionError::CounterExhausted));
    assert_eq!(sender.next_counter(), u64::MAX);
}

#[test]
fn a_missing_key_fails_and_takes_a_counter() {
    let mut sender = MoqSecureEncrypter::new(store(), signing_key(), 9, 0, false, 0, 1);
    assert_eq!(sender.encrypt(0, &vec![1]), Err(EncryptionError::InvalidKeyId(9)));
    assert_eq!(sender.next_counter(), 2);

    let frame = encrypter(0, false, 0, 0).encrypt(0, &vec![1]).unwrap();
    let empty = Arc::new(InMemoryKeyStore::empty());
    let key = signing_key().verifying_key();
    let mut receiver = MoqSecureDecrypter::with_lease(empty, key, 3);
    assert_eq!(receiver.decrypt(0, &frame), Err(EncryptionError::InvalidKeyId(7)));
    assert_eq!(receiver.lease_remaining(), 3);
}

#[test]
fn a_signature_vouches_for_the_frames_after_it() {
    let mut sender = encrypter(3, true, 0, 0);
    let key = sender.verifying_key();
    assert_eq!(key, signing_key().verifying_key());
    let signed = sender.encrypt(0, &b"signed".to_vec()).unwrap();
    sender.maybe_sign = false;
    let unsigned: Vec<Vec<u8>> =
        (0..3).map(|i| sender.encrypt(0, &vec![i]).unwrap()).collect();

    let mut receiver = decrypter();
    assert_eq!(receiver.decrypt(0, &unsigned[0]), Err(EncryptionError::SignatureFailed));
    assert_eq!(receiver.decrypt(0, &signed).unwrap(), b"signed".to_vec());
    assert_eq!(receiver.lease_remaining(), 2);
    assert_eq!(receiver.decrypt(1, &unsigned[0]).unwrap(), vec![0]);
    assert_eq!(receiver.lease_remaining(), 1);
    assert_eq!(receiver.decrypt(2, &unsigned[1]).unwrap(), vec![1]);
    assert_eq!(receiver.lease_remaining(), 0);
    assert_eq!(receiver.decrypt(3, &unsigned[2]), Err(EncryptionError::SignatureFailed));

    let mut leased = MoqSecureDecrypter::with_lease(store(), key, 5);
    assert_eq!(leased.decrypt(0, &unsigned[2]).unwrap(), vec![2]);
    assert_eq!(leased.lease_remaining(), 4);
    leased.reset_lease();
    assert_eq!(leased.lease_remaining(), 0);
    assert_eq!(leased.decrypt(0, &unsigned[2]), Err(EncryptionError::SignatureFailed));
}

#[test]
fn a_signature_of_another_key_fails() {
    let frame = encrypter(1, true, 0, 0).encrypt(0, &b"signed".to_vec()).unwrap();
    let other = SigningKey::from_bytes(&[0x12; 32]).verifying_key();
    let mut receiver = MoqSecureDecrypter::with_lease(store(), other, 2);
    assert_eq!(receiver.decrypt(0, &frame), Err(EncryptionError::SignatureFailed));
    assert_eq!(receiver.lease_remaining(), 2);
}

#[test]
fn damaged_frames_are_told_apart() {
    let frame = encrypter(0, false, 0, 0).encrypt(0, &b"hello".to_vec()).unwrap();
    let damaged = |index: usize, value: u8| {
        let mut frame = frame.clone();
        frame[index] = value;
        decrypter().decrypt(0, &frame)
    };
    assert_eq!(damaged(0, b'X'), Err(EncryptionError::InvalidFrame));
    assert_eq!(damaged(4, 2), Err(EncryptionError::UnsupportedVersion(2)));
    assert_eq!(damaged(5, 9), Err(EncryptionError::InvalidKeyId(9)));
    assert_eq!(damaged(5, 8), Err(EncryptionError::AuthenticationFailed));
    assert_eq!(damaged(15, 2), Err(EncryptionError::InvalidSigFlag(2)));
    assert_eq!(damaged(15, 1), Err(EncryptionError::SigningMismatch));
    assert_eq!(damaged(16, 9), Err(EncryptionError::InvalidEncryptedFlag(9)));
    assert_eq!(damaged(20, frame[20] ^ 1), Err(EncryptionError::AuthenticationFailed));
    let short = frame[..10].to_vec();
    assert_eq!(decrypter().decrypt(0, &short), Err(EncryptionError::TruncatedFrame));
    let short = frame[..20].to_vec();
    assert_eq!(decrypter().decrypt(0, &short), Err(EncryptionError::CiphertextTooShort));
}

#[test]
fn errors_of_the_backend_keep_their_meaning() {
    let cases = [
        (MoqSecureError::InvalidMagic, EncryptionError::InvalidFrame),
        (MoqSecureError::UnsupportedVersion(3), EncryptionError::UnsupportedVersion(3)),
        (MoqSecureError::UnsupportedAlgorithm(4), EncryptionError::InvalidEncryptedFlag(4)),
        (MoqSecureError::TruncatedFrame, EncryptionError::TruncatedFrame),
        (MoqSecureError::CiphertextTooShort, EncryptionError::CiphertextTooShort),
        (MoqSecureError::InvalidPadLength, EncryptionError::InvalidPadLength),
        (MoqSecureError::InvalidSigFlag(5), EncryptionError::InvalidSigFlag(5)),
        (MoqSecureError::AeadAuthFailed, EncryptionError::AuthenticationFailed),
        (MoqSecureError::InvalidSignature, EncryptionError::SignatureFailed),
        (MoqSecureError::SigningMismatch, EncryptionError::SigningMismatch),
        (MoqSecureError::MissingSigSlot, EncryptionError::MissingSigSlot),
        (
            MoqSecureError::SignatureNotAllowedByNSigned,
            EncryptionError::SignatureNotAllowedByNSigned,
        ),
        (MoqSecureError::DecryptFailed, EncryptionError::DecryptionFailed),
        (MoqSecureError::InvalidKeyId(6), EncryptionError::InvalidKeyId(6)),
    ];
    for (error, expected) in cases {
        assert_eq!(EncryptionError::from(error), expected);
    }
}

#[test]
fn a_cloned_configuration_opens_the_same_frames() {
    let config = MoqSecureDecryptionConfig {
        key_store: store(),
        broadcaster_public_key: signing_key().verifying_key(),
    };
    let frame = encrypter(1, true, 9, 0).encrypt(0, &b"hello".to_vec()).unwrap();
    for config in [config.clone(), config] {
        let mut receiver = MoqSecureDecrypter::new(&config);
        assert_eq!(receiver.decrypt(0, &frame).unwrap(), b"hello".to_vec());
    }
}

fn media(timestamp: Timestamp, payload: &[u8]) -> Frame {
    Frame { timestamp, payload: payload.to_vec(), keyframe: false, duration: None }
}

fn protected_group(sequence: u64, frames: &[Frame], sender: &mut MoqSecureEncrypter) -> Group {
    let mut group = Group::new(sequence);
    let mut writer = ProtectedWriteFrame::new(MoqFrameWriter { group: &mut group }, sender);
    Wire.write(&mut writer, &frames.to_vec()).unwrap();
    group.finish().unwrap();
    group
}

#[test]
fn a_protected_track_is_read_through_its_decrypter() {
    let mut sender = encrypter(2, true, 3, 0);
    let info = TrackInfo { max_age: Duration::from_secs(30) };
    let subscription = Subscription { start: None, max_age: Duration::from_millis(500) };
    let subscriber = Subscriber::new(info, subscription);
    let mut consumer = Consumer::new(subscriber, Wire).with_decrypter(decrypter());
    for sequence in 0..3u64 {
        let frames = [media(ts(sequence * 1_000), &[sequence as u8; 5])];
        let mut group = protected_group(sequence, &frames, &mut sender);
        assert!(consumer.announce(sequence));
        while let Some((_, frame)) = group.pop_frame() {
            assert_ne!(frame.payload, vec![sequence as u8; 5]);
            assert!(consumer.receive(sequence, GroupEvent::Frame(frame)));
        }
        assert!(consumer.receive(sequence, GroupEvent::Finished));
    }
    consumer.close(Ok(()));
    for sequence in 0..3u64 {
        match consumer.poll_read() {
            Poll::Ready(Ok(Some(frame))) => {
                assert_eq!(frame.timestamp, ts(sequence * 1_000));
                assert_eq!(frame.payload, vec![sequence as u8; 5]);
                assert!(frame.keyframe);
            }
            other => panic!("expected a frame, got {other:?}"),
        }
    }
    assert!(matches!(consumer.poll_read(), Poll::Ready(Ok(None))));
}

#[test]
fn a_protected_group_is_read_through_its_decrypter() {
    let mut sender = encrypter(0, false, 0, 0);
    let frames = [media(ts(0), b"first"), media(ts(1_000), b"second")];
    let group = protected_group(6, &frames, &mut sender);
    let mut group = GroupConsumer::new(group, Wire, Some(decrypter()));
    for (index, expected) in frames.iter().enumerate() {
        match group.poll_read() {
            Poll::Ready(Ok(Some(frame))) => {
                assert_eq!(frame.payload, expected.payload);
                assert_eq!(frame.keyframe, index == 0);
            }
            other => panic!("expected a frame, got {other:?}"),
        }
    }
    assert!(matches!(group.poll_read(), Poll::Ready(Ok(None))));

    let group = protected_group(6, &frames, &mut sender);
    let wrong = MoqSecureDecrypter::with_lease(
        Arc::new(InMemoryKeyStore::empty()),
        signing_key().verifying_key(),
        0,
    );
    let mut group = GroupConsumer::new(group, Wire, Some(wrong));
    match group.poll_read() {
        Poll::Ready(Err(error)) => {
            assert_eq!(error, Error::Encryption(EncryptionError::InvalidKeyId(7)));
        }
        other => panic!("expected an error, got {other:?}"),
    }
}

#[test]
fn a_whole_unsigned_track_is_read_out_in_order() {
    let mut sender = encrypter(0, false, 2, 0);
    let info = TrackInfo { max_age: Duration::from_secs(30) };
    let subscription = Subscription { start: None, max_age: Duration::from_millis(1) };
    let mut consumer =
        Consumer::new(Subscriber::new(info, subscription), Wire).with_decrypter(decrypter());
    for sequence in [5u64, 2, 3] {
        let start = sequence * 10_000;
        let frames = [
            media(ts(start + 2_000), &[sequence as u8; 3]),
            media(ts(start), &[sequence as u8; 4]),
        ];
        let mut group = protected_group(sequence, &frames, &mut sender);
        assert!(consumer.announce(sequence));
        while let Some((_, frame)) = group.pop_frame() {
            assert_eq!(frame.payload[14], 0);
            assert!(consumer.receive(sequence, GroupEvent::Frame(frame)));
        }
        assert!(consumer.receive(sequence, GroupEvent::Finished));
    }
    consumer.close(Ok(()));
    let mut seen = Vec::new();
    while let Poll::Ready(Ok(Some(frame))) = consumer.poll_read() {
        seen.push((frame.timestamp.as_micros(), frame.payload, frame.keyframe));
    }
    let mut expected = Vec::new();
    for sequence in [2u8, 3, 5] {
        let start = sequence as u128 * 10_000;
        expected.push((start + 2_000, vec![sequence; 3], true));
        expected.push((start, vec![sequence; 4], false));
    }
    assert_eq!(seen, expected);
    assert!(matches!(consumer.poll_read(), Poll::Ready(Ok(None))));
    assert_eq!(consumer.discontinuity(), 0);
}

#[test]
fn frames_come_back_from_a_group_that_the_writer_owns() {
    let mut writer = ProtectedWriteFrame::new(Group::new(3), encrypter(2, true, 4, 7));
    for index in 0..4u8 {
        writer.write_frame(ts(index as u64), vec![index; 6]).unwrap();
    }
    let (group, sender) = writer.into_parts();
    assert_eq!(sender.next_counter(), 11);
    let mut reader = ProtectedReadFrame::new(group, decrypter());
    for index in 0..4u8 {
        let frame = ready(reader.poll_read_frame());
        assert_eq!(frame.sequence_number, index as u32);
        assert_eq!(frame.timestamp, ts(index as u64));
        assert_eq!(frame.payload, vec![index; 6]);
    }
    assert!(matches!(reader.poll_read_frame(), Poll::Pending));
}
