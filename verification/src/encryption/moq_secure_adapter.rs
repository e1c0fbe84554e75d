//! Frame encryption with moq-secure.
use std::sync::Arc;

use ed25519_dalek::{SigningKey, VerifyingKey};
use moq_secure::error::MoqSecureError;
use moq_secure::key_store::InMemoryKeyStore;
use vstd::arithmetic::div_mod::lemma_div_denominator;
use vstd::prelude::*;

use super::EncryptionError;
use crate::container::reader::payload_view;
use crate::container::{FrameDecrypter, FrameEncrypter};

verus! {

/// Declares `moq_secure::key_store::InMemoryKeyStore`.
#[verifier::external_type_specification]
#[verifier::external_body]
pub struct ExInMemoryKeyStore(InMemoryKeyStore);

/// Declares `ed25519_dalek::SigningKey`.
#[verifier::external_type_specification]
#[verifier::external_body]
pub struct ExSigningKey(SigningKey);

/// Declares `ed25519_dalek::VerifyingKey`.
#[verifier::external_type_specification]
#[verifier::external_body]
pub struct ExVerifyingKey(VerifyingKey);

/// Declares `moq_secure::error::MoqSecureError`, with its variants.
#[verifier::external_type_specification]
pub struct ExMoqSecureError(MoqSecureError);

/// The algorithm that frames are encrypted with, as the header of a frame names it.
pub const CHACHA20_POLY1305: u8 = 1;

/// The keys that a store holds, by their identifier.
pub uninterp spec fn stored_keys(store: InMemoryKeyStore) -> Map<u8, Seq<u8>>;

/// The secret that a signing key holds.
pub uninterp spec fn secret_bytes(key: SigningKey) -> Seq<u8>;

/// The point that a verifying key holds.
pub uninterp spec fn public_bytes(key: VerifyingKey) -> Seq<u8>;

/// The public half of a secret, as `SigningKey::verifying_key` gives it.
pub uninterp spec fn derived_public(secret: Seq<u8>) -> Seq<u8>;

/// What `moq_secure::wire::encrypt_frame` makes of a payload, as bytes.
pub uninterp spec fn sealed_bytes(
    key: Seq<u8>,
    secret: Seq<u8>,
    key_id: u8,
    ctr: u64,
    n_signed: u8,
    maybe_sign: bool,
    encryption_type: u8,
    pad_len: u32,
    plaintext: Seq<u8>,
) -> Seq<u8>;

/// What `moq_secure::wire::decrypt_frame` makes of the bytes of a frame.
pub uninterp spec fn unsealed(
    keys: Map<u8, Seq<u8>>,
    public: Seq<u8>,
    lease: u8,
    frame: Seq<u8>,
) -> Result<Seq<u8>, EncryptionError>;

/// The error of this library for one of moq-secure.
pub open spec fn error_for(error: MoqSecureError) -> EncryptionError {
    match error {
        MoqSecureError::InvalidMagic => EncryptionError::InvalidFrame,
        MoqSecureError::UnsupportedVersion(version) => EncryptionError::UnsupportedVersion(version),
        MoqSecureError::UnsupportedAlgorithm(flag) => EncryptionError::InvalidEncryptedFlag(flag),
        MoqSecureError::TruncatedFrame => EncryptionError::TruncatedFrame,
        MoqSecureError::CiphertextTooShort => EncryptionError::CiphertextTooShort,
        MoqSecureError::InvalidPadLength => EncryptionError::InvalidPadLength,
        MoqSecureError::InvalidSigFlag(flag) => EncryptionError::InvalidSigFlag(flag),
        MoqSecureError::AeadAuthFailed => EncryptionError::AuthenticationFailed,
        MoqSecureError::InvalidSignature => EncryptionError::SignatureFailed,
        MoqSecureError::SigningMismatch => EncryptionError::SigningMismatch,
        MoqSecureError::MissingSigSlot => EncryptionError::MissingSigSlot,
        MoqSecureError::SignatureNotAllowedByNSigned =>
            EncryptionError::SignatureNotAllowedByNSigned,
        MoqSecureError::DecryptFailed => EncryptionError::DecryptionFailed,
        MoqSecureError::InvalidKeyId(key_id) => EncryptionError::InvalidKeyId(key_id),
    }
}

impl From<MoqSecureError> for EncryptionError {
    fn from(error: MoqSecureError) -> (r: EncryptionError) {
        match error {
            MoqSecureError::InvalidMagic => EncryptionError::InvalidFrame,
            MoqSecureError::UnsupportedVersion(version) => EncryptionError::UnsupportedVersion(
                version,
            ),
            MoqSecureError::UnsupportedAlgorithm(flag) => EncryptionError::InvalidEncryptedFlag(
                flag,
            ),
            MoqSecureError::TruncatedFrame => EncryptionError::TruncatedFrame,
            MoqSecureError::CiphertextTooShort => EncryptionError::CiphertextTooShort,
            MoqSecureError::InvalidPadLength => EncryptionError::InvalidPadLength,
            MoqSecureError::InvalidSigFlag(flag) => EncryptionError::InvalidSigFlag(flag),
            MoqSecureError::AeadAuthFailed => EncryptionError::AuthenticationFailed,
            MoqSecureError::InvalidSignature => EncryptionError::SignatureFailed,
            MoqSecureError::SigningMismatch => EncryptionError::SigningMismatch,
            MoqSecureError::MissingSigSlot => EncryptionError::MissingSigSlot,
            MoqSecureError::SignatureNotAllowedByNSigned =>
                EncryptionError::SignatureNotAllowedByNSigned,
            MoqSecureError::DecryptFailed => EncryptionError::DecryptionFailed,
            MoqSecureError::InvalidKeyId(key_id) => EncryptionError::InvalidKeyId(key_id),
        }
    }
}

impl vstd::std_specs::convert::FromSpecImpl<MoqSecureError> for EncryptionError {
    open spec fn obeys_from_spec() -> bool {
        true
    }

    open spec fn from_spec(error: MoqSecureError) -> EncryptionError {
        error_for(error)
    }
}

/// Whether a frame is signed.
pub open spec fn signs(n_signed: u8, maybe_sign: bool) -> bool {
    n_signed != 0 && maybe_sign
}

/// A counter as it stands in the header of a frame: eight bytes, the highest first.
pub open spec fn counter_bytes(ctr: u64) -> Seq<u8> {
    seq![
        (ctr / 0x100_0000_0000_0000) as u8,
        (ctr / 0x1_0000_0000_0000 % 0x100) as u8,
        (ctr / 0x100_0000_0000 % 0x100) as u8,
        (ctr / 0x1_0000_0000 % 0x100) as u8,
        (ctr / 0x100_0000 % 0x100) as u8,
        (ctr / 0x1_0000 % 0x100) as u8,
        (ctr / 0x100 % 0x100) as u8,
        (ctr % 0x100) as u8,
    ]
}

/// The header of a frame: magic, version, key identifier, counter, length of the
/// signature lease, signature flag, algorithm.
pub open spec fn header_bytes(key_id: u8, ctr: u64, n_signed: u8, signed: bool) -> Seq<u8> {
    let flag: u8 = if signed {
        1
    } else {
        0
    };
    seq![0x4du8, 0x4fu8, 0x51u8, 0x53u8, 1u8, key_id] + counter_bytes(ctr) + seq![
        n_signed,
        flag,
        CHACHA20_POLY1305,
    ]
}

/// The length of a frame: header, padding with its length, payload, tag, and the
/// signature where there is one.
pub open spec fn sealed_len(signed: bool, pad_len: u32, len: nat) -> nat {
    let signature: nat = if signed {
        64
    } else {
        0
    };
    17 + 4 + pad_len as nat + len + 16 + signature
}

/// The most bytes that ChaCha20 can encipher under one nonce: its 32-bit counter of
/// 64-byte blocks starts at one, and stops before it would wrap around.
pub const MAX_CIPHERED: u64 = 274_877_906_816;

/// Whether a payload of `len` bytes can be sealed: the frame fits in memory, and
/// the padded payload within the keystream of the cipher.
pub open spec fn sealable(pad_len: u32, len: nat) -> bool {
    &&& sealed_len(true, pad_len, len) <= isize::MAX
    &&& 4 + pad_len as nat + len <= MAX_CIPHERED
}

/// A payload, as the outcome of opening a frame.
pub open spec fn opened_as(plaintext: Seq<u8>) -> Result<Seq<u8>, EncryptionError> {
    Ok(plaintext)
}

/// Calls `moq_secure::wire::encrypt_frame`, and `Frame::serialize` on the frame.
///
/// It fails just where the store holds no key of the given identifier. The frame
/// is a function of the key and the other arguments; it is named, with its length
/// and its header. `moq_secure::wire::decrypt_frame` opens it again, given the
/// same key and, where the frame is signed, the public half of the signing key.
/// An unsigned frame of a signed stream needs a lease. A payload that is not `sealable`
/// would run the keystream out, on which it panics.
#[verifier::external_body]
fn encrypt_frame(
    store: &InMemoryKeyStore,
    signing_key: &SigningKey,
    key_id: u8,
    ctr: u64,
    n_signed: u8,
    maybe_sign: bool,
    encryption_type: u8,
    pad_len: u32,
    plaintext: &Vec<u8>,
) -> (r: Result<Vec<u8>, MoqSecureError>)
    requires
        encryption_type == CHACHA20_POLY1305,
        sealable(pad_len, plaintext@.len()),
    ensures
        (match r {
            Ok(frame) => stored_keys(*store).contains_key(key_id) && frame@ == sealed_bytes(
                stored_keys(*store)[key_id],
                secret_bytes(*signing_key),
                key_id,
                ctr,
                n_signed,
                maybe_sign,
                encryption_type,
                pad_len,
                plaintext@,
            ),
            Err(error) => !stored_keys(*store).contains_key(key_id) && error
                == MoqSecureError::InvalidKeyId(key_id),
        }),
        r matches Ok(frame) ==> frame@.len() == sealed_len(
            signs(n_signed, maybe_sign),
            pad_len,
            plaintext@.len(),
        ) && frame@.take(17) == header_bytes(key_id, ctr, n_signed, signs(n_signed, maybe_sign)),
        r matches Ok(frame) ==> forall|keys: Map<u8, Seq<u8>>, public: Seq<u8>, lease: u8|
            keys.contains_key(key_id) && keys[key_id] == stored_keys(*store)[key_id] && (if signs(
                n_signed,
                maybe_sign,
            ) {
                public == derived_public(secret_bytes(*signing_key))
            } else {
                n_signed == 0 || lease > 0
            }) ==> #[trigger] unsealed(keys, public, lease, frame@) == opened_as(plaintext@),
{
    moq_secure::wire::encrypt_frame(
        store,
        signing_key,
        key_id,
        ctr,
        n_signed,
        maybe_sign,
        encryption_type,
        pad_len,
        plaintext,
    ).map(|frame| frame.serialize())
}

/// The lease after a frame was opened: a signed frame renews it, an unsigned one
/// of a signed stream uses it up, and an unsigned stream leaves it alone.
pub open spec fn lease_after(lease: u8, frame: Seq<u8>) -> u8 {
    if frame[14] == 0 {
        lease
    } else if frame[15] == 1 {
        (frame[14] - 1) as u8
    } else {
        (lease - 1) as u8
    }
}

/// What is wrong with a frame, as far as its header, its length, the lease and the keys
/// at hand tell.
///
/// Whether the tag and the signature fit, and the padding is within the frame, they do
/// not tell. The signature is looked at before the key.
pub open spec fn fault(
    frame: Seq<u8>,
    lease: u8,
    keys: Map<u8, Seq<u8>>,
) -> Option<EncryptionError> {
    let signature: nat = if frame[15] == 1 {
        64
    } else {
        0
    };
    if frame.len() < 17 {
        Some(EncryptionError::TruncatedFrame)
    } else if frame.take(4) != seq![0x4du8, 0x4fu8, 0x51u8, 0x53u8] {
        Some(EncryptionError::InvalidFrame)
    } else if frame[4] != 1 {
        Some(EncryptionError::UnsupportedVersion(frame[4]))
    } else if frame[15] > 1 {
        Some(EncryptionError::InvalidSigFlag(frame[15]))
    } else if frame[16] > 2 {
        Some(EncryptionError::InvalidEncryptedFlag(frame[16]))
    } else if frame[14] == 0 && frame[15] == 1 {
        Some(EncryptionError::SigningMismatch)
    } else if frame.len() < 17 + signature {
        Some(EncryptionError::TruncatedFrame)
    } else if frame[15] == 1 && frame.skip(frame.len() - 64) == Seq::new(64, |i: int| 0u8) {
        Some(EncryptionError::SignatureFailed)
    } else if frame[16] != 0 && frame.len() < 17 + 16 + signature {
        Some(EncryptionError::CiphertextTooShort)
    } else if frame[14] != 0 && frame[15] == 0 && lease == 0 {
        Some(EncryptionError::SignatureFailed)
    } else if frame[15] == 0 && frame[16] != 0 && !keys.contains_key(frame[5]) {
        Some(EncryptionError::InvalidKeyId(frame[5]))
    } else {
        None
    }
}

/// The number of bytes of a frame that were enciphered: what its header, its tag and
/// its signature, where it has one, leave of it.
pub open spec fn ciphered_len(frame: Seq<u8>) -> int {
    frame.len() - 33 - (if frame[15] == 1 {
        64int
    } else {
        0int
    })
}

/// Whether a frame can be handed to the cipher.
///
/// One of ChaCha20-Poly1305 that holds a part of a block more than the keystream can
/// not: it passes the cipher's own test of its length, which takes whole blocks, and
/// then runs the keystream out. Longer ones fail that test.
pub open spec fn openable(frame: Seq<u8>) -> bool {
    !(frame.len() >= 17 && frame[16] == CHACHA20_POLY1305 && MAX_CIPHERED < ciphered_len(frame)
        < MAX_CIPHERED + 64)
}

/// Whether a frame can be handed to the cipher.
fn is_openable(frame: &Vec<u8>) -> (r: bool)
    ensures
        r == openable(frame@),
{
    if frame.len() < 17 || frame[16] != CHACHA20_POLY1305 {
        return true;
    }
    let rest: u64 = if frame[15] == 1 {
        97
    } else {
        33
    };
    let len: u64 = frame.len() as u64;
    !(len > MAX_CIPHERED + rest && len < MAX_CIPHERED + rest + 64)
}

/// Calls `moq_secure::wire::decrypt_frame`.
///
/// The outcome is a function of the arguments; it is named. A frame with a fault
/// that shows in its header, its length, the lease or the keys is refused for it, and so
/// is an enciphered one whose key is not in the store. A frame that is opened holds a
/// header, by which the lease moves on; one that is not leaves the lease as it is. A
/// frame that is not `openable`, and whose key is in the store, would run the keystream
/// out, on which it panics.
#[verifier::external_body]
fn decrypt_frame(
    store: &InMemoryKeyStore,
    public_key: &VerifyingKey,
    lease: &mut u8,
    frame: &Vec<u8>,
) -> (r: Result<Vec<u8>, MoqSecureError>)
    requires
        openable(frame@) || !stored_keys(*store).contains_key(frame@[5]),
    ensures
        unsealed(stored_keys(*store), public_bytes(*public_key), *old(lease), frame@) == (match r {
            Ok(plaintext) => opened_as(plaintext@),
            Err(error) => refused(error_for(error)),
        }),
        fault(frame@, *old(lease), stored_keys(*store)) matches Some(error) ==> r matches Err(
            refusal,
        ) && error_for(refusal) == error,
        r is Ok ==> frame@.len() >= 17 && (frame@[16] != 0 ==> stored_keys(*store).contains_key(
            frame@[5],
        )),
        *final(lease) == (if r is Ok {
            lease_after(*old(lease), frame@)
        } else {
            *old(lease)
        }),
{
    moq_secure::wire::decrypt_frame(store, public_key, lease, frame)
}

/// What a store without keys holds.
pub open spec fn no_keys() -> Map<u8, Seq<u8>> {
    Map::empty()
}

/// Calls `moq_secure::key_store::InMemoryKeyStore::empty`: a store without keys.
#[verifier::external_body]
fn empty_store() -> (r: InMemoryKeyStore)
    ensures
        stored_keys(r) == no_keys(),
{
    InMemoryKeyStore::empty()
}

/// Calls `moq_secure::key_store::InMemoryKeyStore::contains_key`: whether the store holds
/// a key of the given identifier.
#[verifier::external_body]
fn holds_key(store: &InMemoryKeyStore, key_id: u8) -> (r: bool)
    ensures
        r == stored_keys(*store).contains_key(key_id),
{
    store.contains_key(key_id)
}

/// An error, as the outcome of opening a frame.
pub open spec fn refused(error: EncryptionError) -> Result<Seq<u8>, EncryptionError> {
    Err(error)
}

/// Calls `ed25519_dalek::SigningKey::verifying_key`: the public half of the key.
#[verifier::external_body]
fn verifying_key_of(signing_key: &SigningKey) -> (r: VerifyingKey)
    ensures
        public_bytes(r) == derived_public(secret_bytes(*signing_key)),
{
    signing_key.verifying_key()
}

/// Calls `Arc::clone`: another handle to the same store.
#[verifier::external_body]
fn share(store: &Arc<InMemoryKeyStore>) -> (r: Arc<InMemoryKeyStore>)
    ensures
        r == *store,
{
    Arc::clone(store)
}

/// Encrypts each frame with moq-secure.
pub struct MoqSecureEncrypter {
    /// The keys.
    pub key_store: Arc<InMemoryKeyStore>,
    /// The key that frames are signed with.
    pub signing_key: SigningKey,
    /// The key that frames are encrypted with.
    pub key_id: u8,
    /// How many frames a signature vouches for; zero for a stream without any.
    pub n_signed: u8,
    /// Whether the next frames are signed.
    pub maybe_sign: bool,
    /// How many bytes of padding each frame gets.
    pub pad_len: u32,
    ctr: u64,
}

/// What a [`MoqSecureEncrypter`] holds.
#[verifier::ext_equal]
pub struct EncrypterView {
    pub keys: Map<u8, Seq<u8>>,
    pub secret: Seq<u8>,
    pub key_id: u8,
    pub n_signed: u8,
    pub maybe_sign: bool,
    pub pad_len: u32,
    /// The counter of the next frame.
    pub ctr: u64,
}

impl EncrypterView {
    /// The frame that a payload is sealed into, given the counter.
    pub open spec fn frame(self, ctr: u64, plaintext: Seq<u8>) -> Seq<u8> {
        sealed_bytes(
            self.keys[self.key_id],
            self.secret,
            self.key_id,
            ctr,
            self.n_signed,
            self.maybe_sign,
            CHACHA20_POLY1305,
            self.pad_len,
            plaintext,
        )
    }
}

impl View for MoqSecureEncrypter {
    type V = EncrypterView;

    closed spec fn view(&self) -> EncrypterView {
        EncrypterView {
            keys: stored_keys(*self.key_store),
            secret: secret_bytes(self.signing_key),
            key_id: self.key_id,
            n_signed: self.n_signed,
            maybe_sign: self.maybe_sign,
            pad_len: self.pad_len,
            ctr: self.ctr,
        }
    }
}

impl MoqSecureEncrypter {
    /// An encrypter whose first frame takes the counter `initial_ctr`.
    pub fn new(
        key_store: Arc<InMemoryKeyStore>,
        signing_key: SigningKey,
        key_id: u8,
        n_signed: u8,
        maybe_sign: bool,
        pad_len: u32,
        initial_ctr: u64,
    ) -> (r: MoqSecureEncrypter)
        ensures
            r@ == (EncrypterView {
                keys: stored_keys(*key_store),
                secret: secret_bytes(signing_key),
                key_id,
                n_signed,
                maybe_sign,
                pad_len,
                ctr: initial_ctr,
            }),
    {
        MoqSecureEncrypter {
            key_store,
            signing_key,
            key_id,
            n_signed,
            maybe_sign,
            pad_len,
            ctr: initial_ctr,
        }
    }

    /// The counter of the next frame.
    pub fn next_counter(&self) -> (r: u64)
        ensures
            r == self@.ctr,
    {
        self.ctr
    }

    /// The key that readers verify signatures with.
    pub fn verifying_key(&self) -> (r: VerifyingKey)
        ensures
            public_bytes(r) == derived_public(self@.secret),
    {
        verifying_key_of(&self.signing_key)
    }

    /// Takes the counter of the next frame. The last one is never taken, so that
    /// none is used twice.
    fn take_counter(&mut self) -> (r: Result<u64, EncryptionError>)
        ensures
            (match r {
                Ok(ctr) => old(self)@.ctr < u64::MAX && ctr == old(self)@.ctr && final(self)@
                    == (EncrypterView { ctr: (old(self)@.ctr + 1) as u64, ..old(self)@ }),
                Err(error) => old(self)@.ctr == u64::MAX && error
                    == EncryptionError::CounterExhausted && final(self)@ == old(self)@,
            }),
    {
        let ctr: u64 = self.ctr;
        match ctr.checked_add(1) {
            Some(next) => {
                self.ctr = next;
                Ok(ctr)
            },
            None => Err(EncryptionError::CounterExhausted),
        }
    }
}

impl FrameEncrypter for MoqSecureEncrypter {
    type State = EncrypterView;

    open spec fn state(&self) -> EncrypterView {
        self@
    }

    open spec fn admits(state: EncrypterView, len: nat) -> bool {
        sealable(state.pad_len, len)
    }

    open spec fn yields(state: EncrypterView, len: nat, size: nat) -> bool {
        size == sealed_len(signs(state.n_signed, state.maybe_sign), state.pad_len, len)
    }

    open spec fn seal(state: EncrypterView, sequence_number: u64, plaintext: Seq<u8>) -> (
        EncrypterView,
        Result<Seq<u8>, EncryptionError>,
    ) {
        if state.ctr == u64::MAX {
            (state, Err(EncryptionError::CounterExhausted))
        } else {
            (
                EncrypterView { ctr: (state.ctr + 1) as u64, ..state },
                if state.keys.contains_key(state.key_id) {
                    Ok(state.frame(state.ctr, plaintext))
                } else {
                    Err(EncryptionError::InvalidKeyId(state.key_id))
                },
            )
        }
    }

    open spec fn attests(state: EncrypterView, plaintext: Seq<u8>, payload: Seq<u8>) -> bool {
        sealed_by(state, plaintext, payload)
    }

    fn encrypt(&mut self, sequence_number: u64, plaintext: &Vec<u8>) -> (r: Result<
        Vec<u8>,
        EncryptionError,
    >) {
        let ctr = match self.take_counter() {
            Ok(ctr) => ctr,
            Err(error) => return Err(error),
        };
        match encrypt_frame(
            &self.key_store,
            &self.signing_key,
            self.key_id,
            ctr,
            self.n_signed,
            self.maybe_sign,
            CHACHA20_POLY1305,
            self.pad_len,
            plaintext,
        ) {
            Ok(frame) => {
                proof {
                    lemma_sealed_is_openable(old(self)@, plaintext@.len(), frame@);
                }
                Ok(frame)
            },
            Err(error) => Err(EncryptionError::from(error)),
        }
    }
}

/// A frame of the length and with the header that an encrypter gives it can be handed
/// to the cipher again.
proof fn lemma_sealed_is_openable(state: EncrypterView, len: nat, frame: Seq<u8>)
    requires
        sealable(state.pad_len, len),
        frame.len() == sealed_len(signs(state.n_signed, state.maybe_sign), state.pad_len, len),
        frame.take(17) == header_bytes(
            state.key_id,
            state.ctr,
            state.n_signed,
            signs(state.n_signed, state.maybe_sign),
        ),
    ensures
        openable(frame),
{
    let signed = signs(state.n_signed, state.maybe_sign);
    let flag: u8 = if signed {
        1
    } else {
        0
    };
    assert(header_bytes(state.key_id, state.ctr, state.n_signed, signed)[15] == flag);
    assert(frame.take(17)[15] == frame[15]);
}

/// What holds of a frame that an encrypter in `state` sealed `plaintext` into: it
/// carries the counter, and a reader with the key, and with the public key or a
/// lease where the stream is signed, opens it again.
pub open spec fn sealed_by(state: EncrypterView, plaintext: Seq<u8>, frame: Seq<u8>) -> bool {
    let signed = signs(state.n_signed, state.maybe_sign);
    &&& frame.len() == sealed_len(signed, state.pad_len, plaintext.len())
    &&& frame.take(17) == header_bytes(state.key_id, state.ctr, state.n_signed, signed)
    &&& forall|reader: DecrypterView, sequence_number: u64|
        opens(state, reader) ==> (#[trigger] MoqSecureDecrypter::open(
            reader,
            sequence_number,
            frame,
        )).1 == opened_as(plaintext)
}

/// Whether a reader can open the next frame of an encrypter.
pub open spec fn opens(state: EncrypterView, reader: DecrypterView) -> bool {
    &&& reader.keys.contains_key(state.key_id)
    &&& reader.keys[state.key_id] == state.keys[state.key_id]
    &&& if signs(state.n_signed, state.maybe_sign) {
        reader.public == derived_public(state.secret)
    } else {
        state.n_signed == 0 || reader.lease > 0
    }
}

/// What a decrypter needs to know of a stream.
pub struct MoqSecureDecryptionConfig {
    /// The keys.
    pub key_store: Arc<InMemoryKeyStore>,
    /// The key that signatures are verified with.
    pub broadcaster_public_key: VerifyingKey,
}

impl Clone for MoqSecureDecryptionConfig {
    fn clone(&self) -> (r: MoqSecureDecryptionConfig)
        ensures
            r == *self,
    {
        MoqSecureDecryptionConfig {
            key_store: share(&self.key_store),
            broadcaster_public_key: self.broadcaster_public_key,
        }
    }
}

/// Decrypts and verifies each frame with moq-secure.
pub struct MoqSecureDecrypter {
    /// The keys.
    pub key_store: Arc<InMemoryKeyStore>,
    /// The key that signatures are verified with.
    pub broadcaster_public_key: VerifyingKey,
    /// How many unsigned frames the last signature still vouches for.
    pub lease_remaining: u8,
}

/// What a [`MoqSecureDecrypter`] holds.
#[verifier::ext_equal]
pub struct DecrypterView {
    pub keys: Map<u8, Seq<u8>>,
    pub public: Seq<u8>,
    pub lease: u8,
}

impl DecrypterView {
    /// What opening a frame comes to.
    ///
    /// One that the cipher cannot be handed is refused as one that is longer still is:
    /// for what comes before the cipher, where there is anything, and else because it
    /// does not authenticate. A reader without keys finds what comes before the cipher.
    pub open spec fn outcome(self, frame: Seq<u8>) -> Result<Seq<u8>, EncryptionError> {
        if openable(frame) {
            unsealed(self.keys, self.public, self.lease, frame)
        } else {
            match unsealed(no_keys(), self.public, self.lease, frame) {
                Err(EncryptionError::InvalidKeyId(key_id)) => if self.keys.contains_key(key_id) {
                    Err(EncryptionError::AuthenticationFailed)
                } else {
                    Err(EncryptionError::InvalidKeyId(key_id))
                },
                result => result,
            }
        }
    }
}

impl View for MoqSecureDecrypter {
    type V = DecrypterView;

    open spec fn view(&self) -> DecrypterView {
        DecrypterView {
            keys: stored_keys(*self.key_store),
            public: public_bytes(self.broadcaster_public_key),
            lease: self.lease_remaining,
        }
    }
}

impl MoqSecureDecrypter {
    /// A decrypter with no lease: the first frame of a signed stream has to be
    /// signed.
    pub fn new(config: &MoqSecureDecryptionConfig) -> (r: MoqSecureDecrypter)
        ensures
            r@ == (DecrypterView {
                keys: stored_keys(*config.key_store),
                public: public_bytes(config.broadcaster_public_key),
                lease: 0,
            }),
    {
        MoqSecureDecrypter {
            key_store: share(&config.key_store),
            broadcaster_public_key: config.broadcaster_public_key,
            lease_remaining: 0,
        }
    }

    /// A decrypter that starts with a lease.
    pub fn with_lease(
        key_store: Arc<InMemoryKeyStore>,
        broadcaster_public_key: VerifyingKey,
        lease_remaining: u8,
    ) -> (r: MoqSecureDecrypter)
        ensures
            r@ == (DecrypterView {
                keys: stored_keys(*key_store),
                public: public_bytes(broadcaster_public_key),
                lease: lease_remaining,
            }),
    {
        MoqSecureDecrypter { key_store, broadcaster_public_key, lease_remaining }
    }

    /// How many unsigned frames the last signature still vouches for.
    pub fn lease_remaining(&self) -> (r: u8)
        ensures
            r == self@.lease,
    {
        self.lease_remaining
    }

    /// Ends the lease.
    pub fn reset_lease(&mut self)
        ensures
            final(self)@ == (DecrypterView { lease: 0, ..old(self)@ }),
    {
        self.lease_remaining = 0;
    }
}

impl FrameDecrypter for MoqSecureDecrypter {
    type State = DecrypterView;

    open spec fn state(&self) -> DecrypterView {
        self@
    }

    open spec fn open(state: DecrypterView, sequence_number: u64, ciphertext: Seq<u8>) -> (
        DecrypterView,
        Result<Seq<u8>, EncryptionError>,
    ) {
        let result = state.outcome(ciphertext);
        let lease = if result is Ok {
            lease_after(state.lease, ciphertext)
        } else {
            state.lease
        };
        (DecrypterView { lease, ..state }, result)
    }

    fn decrypt(&mut self, sequence_number: u64, ciphertext: &Vec<u8>) -> (r: Result<
        Vec<u8>,
        EncryptionError,
    >)
        ensures
            fault(ciphertext@, old(self)@.lease, old(self)@.keys) matches Some(error)
                ==> payload_view(r) == refused(error),
            !openable(ciphertext@) ==> r is Err,
    {
        if !is_openable(ciphertext) {
            let keyless = empty_store();
            return match decrypt_frame(
                &keyless,
                &self.broadcaster_public_key,
                &mut self.lease_remaining,
                ciphertext,
            ) {
                Err(MoqSecureError::InvalidKeyId(key_id)) => if holds_key(
                    &self.key_store,
                    key_id,
                ) {
                    Err(EncryptionError::AuthenticationFailed)
                } else {
                    Err(EncryptionError::InvalidKeyId(key_id))
                },
                Err(error) => Err(EncryptionError::from(error)),
                Ok(plaintext) => Ok(plaintext),
            };
        }
        match decrypt_frame(
            &self.key_store,
            &self.broadcaster_public_key,
            &mut self.lease_remaining,
            ciphertext,
        ) {
            Ok(plaintext) => Ok(plaintext),
            Err(error) => Err(EncryptionError::from(error)),
        }
    }
}

/// The state of an encrypter after a run of payloads, whatever came of each.
pub open spec fn after_all(state: EncrypterView, payloads: Seq<Seq<u8>>) -> EncrypterView
    decreases payloads.len(),
{
    if payloads.len() == 0 {
        state
    } else {
        after_all(MoqSecureEncrypter::seal(state, 0, payloads[0]).0, payloads.drop_first())
    }
}

/// An encrypter counts up by one for each payload, whether it could be sealed or
/// not, and stops before the counter would wrap around.
pub proof fn law_the_counter_counts_up(state: EncrypterView, payloads: Seq<Seq<u8>>)
    ensures
        after_all(state, payloads) == (EncrypterView {
            ctr: if state.ctr + payloads.len() <= u64::MAX {
                (state.ctr + payloads.len()) as u64
            } else {
                u64::MAX
            },
            ..state
        }),
    decreases payloads.len(),
{
    if payloads.len() > 0 {
        let next = MoqSecureEncrypter::seal(state, 0, payloads[0]).0;
        law_the_counter_counts_up(next, payloads.drop_first());
    }
}

/// No counter is used twice: of two payloads that one encrypter seals, the one
/// sealed later carries the higher counter, and the two frames differ.
pub proof fn law_counters_are_never_reused(
    state: EncrypterView,
    first: Seq<u8>,
    between: Seq<Seq<u8>>,
    second: Seq<u8>,
    first_frame: Seq<u8>,
    second_frame: Seq<u8>,
)
    requires
        state.ctr < u64::MAX,
        sealed_by(state, first, first_frame),
        after_all(state, seq![first] + between).ctr < u64::MAX,
        sealed_by(after_all(state, seq![first] + between), second, second_frame),
    ensures
        after_all(state, seq![first] + between).ctr > state.ctr,
        first_frame != second_frame,
{
    let later = after_all(state, seq![first] + between);
    law_the_counter_counts_up(state, seq![first] + between);
    let signed = signs(state.n_signed, state.maybe_sign);
    let a = header_bytes(state.key_id, state.ctr, state.n_signed, signed);
    let b = header_bytes(state.key_id, later.ctr, state.n_signed, signed);
    assert(first_frame.take(17) == a);
    assert(second_frame.take(17) == b);
    if a == b {
        let (before, after) = (counter_bytes(state.ctr), counter_bytes(later.ctr));
        assert forall|i: int| 0 <= i < 8 implies before[i] == #[trigger] after[i] by {
            assert(a[6 + i] == before[i]);
            assert(b[6 + i] == after[i]);
        }
        lemma_counter_bytes(state.ctr, later.ctr);
    }
}

/// The lowest byte of a quotient is what the next quotient leaves of it.
proof fn lemma_lowest_byte(number: u64, divisor: u64, next: u64)
    requires
        0 < divisor,
        next == divisor * 0x100,
    ensures
        number / divisor == (number / next) * 0x100 + number / divisor % 0x100,
{
    lemma_div_denominator(number as int, divisor as int, 0x100);
}

/// A counter can be told by its bytes.
proof fn lemma_counter_bytes(a: u64, b: u64)
    requires
        forall|i: int| 0 <= i < 8 ==> counter_bytes(a)[i] == #[trigger] counter_bytes(b)[i],
    ensures
        a == b,
{
    assert(counter_bytes(a)[0] == counter_bytes(b)[0]);
    assert(a / 0x100_0000_0000_0000 == b / 0x100_0000_0000_0000);
    lemma_same_quotient(a, b, 1, 0x1_0000_0000_0000, 0x100_0000_0000_0000);
    lemma_same_quotient(a, b, 2, 0x100_0000_0000, 0x1_0000_0000_0000);
    lemma_same_quotient(a, b, 3, 0x1_0000_0000, 0x100_0000_0000);
    lemma_same_quotient(a, b, 4, 0x100_0000, 0x1_0000_0000);
    lemma_same_quotient(a, b, 5, 0x1_0000, 0x100_0000);
    lemma_same_quotient(a, b, 6, 0x100, 0x1_0000);
    lemma_same_quotient(a, b, 7, 1, 0x100);
}

/// Two counters that agree in the bytes above one and in that byte agree down to it.
proof fn lemma_same_quotient(a: u64, b: u64, index: int, divisor: u64, next: u64)
    requires
        0 < divisor,
        next == divisor * 0x100,
        0 <= index < 8,
        counter_bytes(a)[index] == (a / divisor % 0x100) as u8,
        counter_bytes(b)[index] == (b / divisor % 0x100) as u8,
        counter_bytes(a)[index] == counter_bytes(b)[index],
        a / next == b / next,
    ensures
        a / divisor == b / divisor,
{
    lemma_lowest_byte(a, divisor, next);
    lemma_lowest_byte(b, divisor, next);
}

} // verus!
