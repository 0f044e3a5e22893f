//! Password-based authenticated encryption for sealed archives.
//!
//! - **Argon2id** stretches the password into a 256-bit key, salted per archive.
//! - **ChaCha20-Poly1305** in the STREAM construction (32-bit big-endian counter
//!   and a last-chunk flag in the nonce) encrypts *and authenticates* the payload
//!   in 64 KiB chunks, so tampering, truncation or reordering is caught, and a
//!   wrong password fails cleanly instead of yielding plausible garbage.
//!
//! The stream is a header — magic `ABYX`, version, 16-byte salt, 7-byte nonce
//! prefix, then the Argon2 costs `m`, `t`, `p` as little-endian `u32`s — followed by
//! records `[tag][len: u32 LE][ciphertext]`, tag 0 for a chunk with more to come
//! and tag 1 for the last one.
//!
//! [`EncryptWriter`] collects the sealed stream in an output buffer;
//! [`DecryptReader`] is fed the stream piece by piece.
use crate::ans::{push_u32_le, read_u32_le};
use crate::ans_model::{extends, lemma_extends_shorter, lemma_fresh_bytes, lemma_le32, le32, u32_le_at};
use vstd::prelude::*;
use vstd::string::StringSliceAdditionalSpecFns;

use argon2::{Algorithm, Argon2, Params, Version};
use chacha20poly1305::aead::generic_array::GenericArray;
use chacha20poly1305::aead::stream::{NewStream, StreamBE32, StreamPrimitive};
use chacha20poly1305::{ChaCha20Poly1305, KeyInit};
use rand::RngCore;
use zeroize::Zeroize;

verus! {

/// Plaintext bytes per authenticated chunk (64 KiB).
pub const CHUNK: usize = 65536;

/// Random salt length fed to Argon2.
pub const SALT_LEN: usize = 16;

/// STREAM nonce-prefix length: the 12-byte ChaCha20-Poly1305 nonce less the five
/// bytes the construction spends on its counter and last-chunk flag.
pub const NONCE_LEN: usize = 7;

/// Layer version.
pub const VERSION: u8 = 1;

/// Tag of a chunk record with more to come.
pub const TAG_MORE: u8 = 0;

/// Tag of the last chunk record.
pub const TAG_LAST: u8 = 1;

/// Length of the header: magic, version, salt, nonce and three costs.
pub const HEADER_LEN: usize = 40;

/// Why sealing or opening failed.
#[derive(Clone, Copy, Debug, PartialEq, Eq, Structural)]
pub enum CryptoError {
    /// The operating system could not supply random bytes.
    Randomness,
    /// Argon2 refused the cost parameters or the password.
    KeyDerivation,
    /// The stream does not start with the encryption magic.
    BadMagic,
    /// The stream was written by another layer version.
    UnsupportedVersion(u8),
    /// A record claims more than a chunk and its tag.
    ChunkTooLarge,
    /// A record carries a tag other than 0 or 1.
    UnknownTag(u8),
    /// A chunk failed authentication (wrong password or corrupted stream), or the
    /// chunk counter ran out.
    Aead,
    /// The stream ends inside the header or a record.
    UnexpectedEnd,
}

// --- What the outside crates compute --------------------------------------------

/// The 32-byte key that Argon2id (version 0x13) derives from `password` and `salt`
/// with memory cost `m_cost` KiB, `t_cost` passes and `p_cost` lanes.
pub uninterp spec fn derived_key(password: Seq<u8>, salt: Seq<u8>, m_cost: u32, t_cost: u32, p_cost: u32) -> Seq<u8>;

/// The ChaCha20-Poly1305 ciphertext (tag included) of `msg` sealed as the chunk at
/// `position` of the STREAM keyed by `key` with nonce prefix `nonce`; `last` marks
/// the final chunk.
pub uninterp spec fn sealed(key: Seq<u8>, nonce: Seq<u8>, position: u32, last: bool, msg: Seq<u8>) -> Seq<u8>;

/// The costs that Argon2's `Params::new` accepts.
pub open spec fn params_accepted(m_cost: u32, t_cost: u32, p_cost: u32) -> bool {
    &&& 8 <= m_cost
    &&& 8 * p_cost <= m_cost
    &&& 1 <= t_cost
    &&& 1 <= p_cost <= 0xFF_FFFF
}

/// Fill a buffer of `n` bytes from the operating system's generator (`rand`'s
/// `OsRng::try_fill_bytes`). Nothing is claimed of the bytes; `None` when the
/// system source fails.
#[verifier::external_body]
fn random_bytes(n: usize) -> (r: Option<Vec<u8>>)
    ensures
        r matches Some(v) ==> v@.len() == n,
{
    let mut v = vec![0u8; n];
    match rand::rngs::OsRng.try_fill_bytes(&mut v) {
        Ok(()) => Some(v),
        Err(_) => None,
    }
}

/// Argon2's default costs (`Params::default()`, read back through `m_cost`,
/// `t_cost` and `p_cost`): 19 MiB of memory, two passes, one lane.
#[verifier::external_body]
fn default_costs() -> (r: (u32, u32, u32))
    ensures
        r == (19456u32, 2u32, 1u32),
{
    let params = Params::default();
    (params.m_cost(), params.t_cost(), params.p_cost())
}

/// Derive a 32-byte key with Argon2id, version 0x13 (`Params::new` with the costs
/// and no output length, `Argon2::new`, `hash_password_into`). It succeeds exactly
/// when `Params::new` accepts the costs and the password is at most `u32::MAX`
/// bytes long (a sixteen-byte salt and a 32-byte output are always in range); the
/// key depends on the inputs alone. It allocates `m_cost` KiB of working memory.
#[verifier::external_body]
fn derive_key(password: &[u8], salt: &[u8], m_cost: u32, t_cost: u32, p_cost: u32) -> (r: Option<[u8; 32]>)
    requires
        salt@.len() == SALT_LEN,
        p_cost <= 0x1FFF_FFFF,
    ensures
        r is Some == (params_accepted(m_cost, t_cost, p_cost) && password@.len() <= 0xFFFF_FFFF),
        r matches Some(k) ==> k@ == derived_key(password@, salt@, m_cost, t_cost, p_cost),
{
    let params = Params::new(m_cost, t_cost, p_cost, None).ok()?;
    let mut key = [0u8; 32];
    Argon2::new(Algorithm::Argon2id, Version::V0x13, params).hash_password_into(password, salt, &mut key).ok()?;
    Some(key)
}

/// Seal `msg` as the chunk at `position` of the STREAM (`StreamBE32` over
/// `ChaCha20Poly1305`, `StreamPrimitive::encrypt`). ChaCha20-Poly1305 refuses
/// only messages of 2^38 bytes and more, so a chunk is always sealed; the
/// ciphertext is the message followed by its 16-byte tag, and since opening it
/// gives the message back, no other chunk-sized message seals to it at that
/// place (nothing is claimed of messages the cipher refuses).
#[verifier::external_body]
fn seal_chunk(key: &[u8; 32], nonce: &[u8; 7], position: u32, last: bool, msg: &[u8]) -> (r: Option<Vec<u8>>)
    ensures
        msg@.len() <= CHUNK ==> r is Some,
        r matches Some(ct) ==> ct@ == sealed(key@, nonce@, position, last, msg@),
        r matches Some(ct) ==> ct@.len() == msg@.len() + 16,
        r matches Some(ct) ==> forall|m: Seq<u8>|
            m.len() <= CHUNK && #[trigger] sealed(key@, nonce@, position, last, m) == ct@ ==> m == msg@,
{
    let cipher = ChaCha20Poly1305::new(GenericArray::from_slice(key));
    let stream = StreamBE32::from_aead(cipher, GenericArray::from_slice(nonce));
    stream.encrypt(position, last, msg).ok()
}

/// Open the chunk at `position` of the STREAM (`StreamBE32` over
/// `ChaCha20Poly1305`, `StreamPrimitive::decrypt`): the tag verifies exactly when
/// `ct` is the seal of some message at that place, and the plaintext is then that
/// message, sixteen bytes shorter than `ct`.
#[verifier::external_body]
fn open_chunk(key: &[u8; 32], nonce: &[u8; 7], position: u32, last: bool, ct: &[u8]) -> (r: Option<Vec<u8>>)
    ensures
        r matches Some(p) ==> sealed(key@, nonce@, position, last, p@) == ct@ && p@.len() + 16 == ct@.len(),
        r matches Some(p) ==> forall|m: Seq<u8>|
            m.len() <= CHUNK && #[trigger] sealed(key@, nonce@, position, last, m) == ct@ ==> m == p@,
        r is None ==> forall|m: Seq<u8>|
            m.len() <= CHUNK ==> #[trigger] sealed(key@, nonce@, position, last, m) != ct@,
{
    let cipher = ChaCha20Poly1305::new(GenericArray::from_slice(key));
    let stream = StreamBE32::from_aead(cipher, GenericArray::from_slice(nonce));
    stream.decrypt(position, last, ct).ok()
}

/// Wipe a key from memory (`zeroize`'s `Zeroize::zeroize` on the array): every
/// byte becomes zero.
#[verifier::external_body]
fn wipe_key(key: &mut [u8; 32])
    ensures
        final(key)@ == Seq::new(32, |i: int| 0u8),
{
    key.zeroize();
}

// --- The sealed stream ------------------------------------------------------------

/// `ABYX`.
pub open spec fn crypt_magic() -> Seq<u8> {
    seq![0x41u8, 0x42u8, 0x59u8, 0x58u8]
}

/// The stream header.
pub open spec fn header_bytes(salt: Seq<u8>, nonce: Seq<u8>, m_cost: u32, t_cost: u32, p_cost: u32) -> Seq<u8> {
    crypt_magic() + seq![VERSION] + salt + nonce + le32(m_cost as int) + le32(t_cost as int) + le32(
        p_cost as int,
    )
}

/// One chunk record.
pub open spec fn record(tag: u8, ct: Seq<u8>) -> Seq<u8> {
    seq![tag] + le32(ct.len() as int) + ct
}

/// The records of the whole chunks at the front of `data`, the first at `pos`.
pub open spec fn more_records(key: Seq<u8>, nonce: Seq<u8>, data: Seq<u8>, pos: nat) -> Seq<u8>
    decreases data.len(),
{
    if data.len() < CHUNK {
        Seq::empty()
    } else {
        record(TAG_MORE, sealed(key, nonce, pos as u32, false, data.take(CHUNK as int))) + more_records(
            key,
            nonce,
            data.skip(CHUNK as int),
            pos + 1,
        )
    }
}

/// The records of `data`, the first at `pos`: a chunk is sealed as the last one
/// once no more than a chunk is left.
pub open spec fn sealed_records(key: Seq<u8>, nonce: Seq<u8>, data: Seq<u8>, pos: nat) -> Seq<u8>
    decreases data.len(),
{
    if data.len() > CHUNK {
        record(TAG_MORE, sealed(key, nonce, pos as u32, false, data.take(CHUNK as int))) + sealed_records(
            key,
            nonce,
            data.skip(CHUNK as int),
            pos + 1,
        )
    } else {
        record(TAG_LAST, sealed(key, nonce, pos as u32, true, data))
    }
}

/// The whole sealed stream of `data`.
pub open spec fn sealed_stream(
    password: Seq<u8>,
    salt: Seq<u8>,
    nonce: Seq<u8>,
    m_cost: u32,
    t_cost: u32,
    p_cost: u32,
    data: Seq<u8>,
) -> Seq<u8> {
    header_bytes(salt, nonce, m_cost, t_cost, p_cost) + sealed_records(
        derived_key(password, salt, m_cost, t_cost, p_cost),
        nonce,
        data,
        0,
    )
}

// --- Opening ------------------------------------------------------------------------

/// What opening `ct` at `position` gives: the message that seals to it, if any.
#[verifier::opaque]
pub open spec fn opened(key: Seq<u8>, nonce: Seq<u8>, position: u32, last: bool, ct: Seq<u8>) -> Option<Seq<u8>> {
    if exists|m: Seq<u8>| m.len() <= CHUNK && #[trigger] sealed(key, nonce, position, last, m) == ct {
        Some(choose|m: Seq<u8>| m.len() <= CHUNK && #[trigger] sealed(key, nonce, position, last, m) == ct)
    } else {
        None
    }
}

/// `done` before the outcome `r`.
pub open spec fn after(done: Seq<u8>, r: Result<Seq<u8>, CryptoError>) -> Result<Seq<u8>, CryptoError> {
    match r {
        Ok(x) => Ok(done + x),
        Err(e) => Err(e),
    }
}

/// Open the records of `s` from offset `at`, the first at `pos`.
#[verifier::opaque]
pub open spec fn open_records(key: Seq<u8>, nonce: Seq<u8>, s: Seq<u8>, at: int, pos: nat) -> Result<
    Seq<u8>,
    CryptoError,
>
    decreases s.len() - at,
{
    if at < 0 || at + 5 > s.len() {
        Err(CryptoError::UnexpectedEnd)
    } else {
        let tag = s[at];
        let len = u32_le_at(s, at + 1);
        if len > CHUNK + 16 {
            Err(CryptoError::ChunkTooLarge)
        } else if at + 5 + len > s.len() {
            Err(CryptoError::UnexpectedEnd)
        } else {
            let ct = s.subrange(at + 5, at + 5 + len);
            if tag == TAG_LAST {
                match opened(key, nonce, pos as u32, true, ct) {
                    Some(p) => Ok(p),
                    None => Err(CryptoError::Aead),
                }
            } else if tag == TAG_MORE {
                if pos >= 0xFFFF_FFFF {
                    Err(CryptoError::Aead)
                } else {
                    match opened(key, nonce, pos as u32, false, ct) {
                        Some(p) => after(p, open_records(key, nonce, s, at + 5 + len, pos + 1)),
                        None => Err(CryptoError::Aead),
                    }
                }
            } else {
                Err(CryptoError::UnknownTag(tag))
            }
        }
    }
}

/// What opening the stream `s` with `password` gives: the plaintext, or the first
/// error met reading it front to back. Bytes after the last record are not read.
pub open spec fn decrypt_spec(password: Seq<u8>, s: Seq<u8>) -> Result<Seq<u8>, CryptoError> {
    if s.len() < 4 {
        Err(CryptoError::UnexpectedEnd)
    } else if s.take(4) != crypt_magic() {
        Err(CryptoError::BadMagic)
    } else if s.len() < 5 {
        Err(CryptoError::UnexpectedEnd)
    } else if s[4] != VERSION {
        Err(CryptoError::UnsupportedVersion(s[4]))
    } else if s.len() < HEADER_LEN {
        Err(CryptoError::UnexpectedEnd)
    } else {
        let m_cost = u32_le_at(s, 28) as u32;
        let t_cost = u32_le_at(s, 32) as u32;
        let p_cost = u32_le_at(s, 36) as u32;
        if !(params_accepted(m_cost, t_cost, p_cost) && password.len() <= 0xFFFF_FFFF) {
            Err(CryptoError::KeyDerivation)
        } else {
            open_records(
                derived_key(password, s.subrange(5, 21), m_cost, t_cost, p_cost),
                s.subrange(21, 28),
                s,
                HEADER_LEN as int,
                0,
            )
        }
    }
}

// --- Facts about sealed chunks ----------------------------------------------------

/// What sealing `msg` at `pos` was seen to give: a ciphertext sixteen bytes
/// longer that no other chunk-sized message seals to, at a position the
/// counter allows.
#[verifier::opaque]
pub open spec fn chunk_sealed(key: Seq<u8>, nonce: Seq<u8>, pos: nat, last: bool, msg: Seq<u8>) -> bool {
    &&& pos <= 0xFFFF_FFFF
    &&& !last ==> pos < 0xFFFF_FFFF
    &&& msg.len() <= CHUNK
    &&& sealed(key, nonce, pos as u32, last, msg).len() == msg.len() + 16
    &&& forall|m: Seq<u8>|
        m.len() <= CHUNK && #[trigger] sealed(key, nonce, pos as u32, last, m) == sealed(key, nonce, pos as u32, last, msg)
            ==> m == msg
}

/// Every chunk of `more_records(key, nonce, data, pos)` was seen sealed.
pub open spec fn more_sealed(key: Seq<u8>, nonce: Seq<u8>, data: Seq<u8>, pos: nat) -> bool
    decreases data.len(),
{
    if data.len() < CHUNK {
        true
    } else {
        chunk_sealed(key, nonce, pos, false, data.take(CHUNK as int)) && more_sealed(
            key,
            nonce,
            data.skip(CHUNK as int),
            pos + 1,
        )
    }
}

/// Every chunk of `sealed_records(key, nonce, data, pos)` was seen sealed.
pub open spec fn records_sealed(key: Seq<u8>, nonce: Seq<u8>, data: Seq<u8>, pos: nat) -> bool
    decreases data.len(),
{
    if data.len() > CHUNK {
        chunk_sealed(key, nonce, pos, false, data.take(CHUNK as int)) && records_sealed(
            key,
            nonce,
            data.skip(CHUNK as int),
            pos + 1,
        )
    } else {
        chunk_sealed(key, nonce, pos, true, data)
    }
}

// --- Lemmas -------------------------------------------------------------------------

/// Where the header's fields are read back.
proof fn lemma_header(salt: Seq<u8>, nonce: Seq<u8>, m_cost: u32, t_cost: u32, p_cost: u32, rest: Seq<u8>)
    requires
        salt.len() == SALT_LEN,
        nonce.len() == NONCE_LEN,
    ensures
        ({
            let s = header_bytes(salt, nonce, m_cost, t_cost, p_cost) + rest;
            &&& header_bytes(salt, nonce, m_cost, t_cost, p_cost).len() == HEADER_LEN
            &&& s.take(4) == crypt_magic()
            &&& s[4] == VERSION
            &&& s.subrange(5, 21) == salt
            &&& s.subrange(21, 28) == nonce
            &&& u32_le_at(s, 28) == m_cost
            &&& u32_le_at(s, 32) == t_cost
            &&& u32_le_at(s, 36) == p_cost
        }),
{
    let h = header_bytes(salt, nonce, m_cost, t_cost, p_cost);
    let s = h + rest;
    assert(s.take(4) =~= crypt_magic());
    assert(s.subrange(5, 21) =~= salt);
    assert(s.subrange(21, 28) =~= nonce);
    assert(s.subrange(28, 32) =~= le32(m_cost as int));
    assert(s.subrange(32, 36) =~= le32(t_cost as int));
    assert(s.subrange(36, 40) =~= le32(p_cost as int));
    lemma_le32(s, 28, m_cost as int);
    lemma_le32(s, 32, t_cost as int);
    lemma_le32(s, 36, p_cost as int);
}

/// A record is read back where it lands.
proof fn lemma_record_at(pre: Seq<u8>, tag: u8, ct: Seq<u8>, rest: Seq<u8>)
    requires
        ct.len() < 0x1_0000_0000,
    ensures
        ({
            let s = pre + record(tag, ct) + rest;
            let at = pre.len() as int;
            &&& s[at] == tag
            &&& u32_le_at(s, at + 1) == ct.len()
            &&& at + 5 + ct.len() <= s.len()
            &&& s.subrange(at + 5, at + 5 + ct.len()) == ct
            &&& pre + record(tag, ct) + rest == (pre + record(tag, ct)) + rest
        }),
{
    let s = pre + record(tag, ct) + rest;
    let at = pre.len() as int;
    assert(s[at] == tag);
    assert(s.subrange(at + 1, at + 5) =~= le32(ct.len() as int));
    lemma_le32(s, at + 1, ct.len() as int);
    assert(s.subrange(at + 5, at + 5 + ct.len()) =~= ct);
}

/// A chunk seen sealed opens to its message.
proof fn lemma_opened(key: Seq<u8>, nonce: Seq<u8>, pos: nat, last: bool, msg: Seq<u8>)
    requires
        chunk_sealed(key, nonce, pos, last, msg),
    ensures
        opened(key, nonce, pos as u32, last, sealed(key, nonce, pos as u32, last, msg)) == Some(msg),
        sealed(key, nonce, pos as u32, last, msg).len() == msg.len() + 16,
        msg.len() <= CHUNK,
        pos <= 0xFFFF_FFFF,
        !last ==> pos < 0xFFFF_FFFF,
{
    reveal(opened);
    reveal(chunk_sealed);
    let ct = sealed(key, nonce, pos as u32, last, msg);
    assert(msg.len() <= CHUNK && sealed(key, nonce, pos as u32, last, msg) == ct);
    let m = choose|m: Seq<u8>| m.len() <= CHUNK && #[trigger] sealed(key, nonce, pos as u32, last, m) == ct;
    assert(sealed(key, nonce, pos as u32, last, m) == ct);
}

/// Opening a well-formed record at `at`.
proof fn lemma_open_step(key: Seq<u8>, nonce: Seq<u8>, s: Seq<u8>, at: int, pos: nat, ct: Seq<u8>)
    requires
        0 <= at,
        at + 5 + ct.len() <= s.len(),
        u32_le_at(s, at + 1) == ct.len(),
        ct.len() <= CHUNK + 16,
        s.subrange(at + 5, at + 5 + ct.len()) == ct,
    ensures
        s[at] == TAG_LAST ==> open_records(key, nonce, s, at, pos) == match opened(key, nonce, pos as u32, true, ct) {
            Some(p) => Ok(p),
            None => Err(CryptoError::Aead),
        },
        s[at] == TAG_MORE && pos < 0xFFFF_FFFF ==> open_records(key, nonce, s, at, pos) == match opened(
            key,
            nonce,
            pos as u32,
            false,
            ct,
        ) {
            Some(p) => after(p, open_records(key, nonce, s, at + 5 + ct.len(), pos + 1)),
            None => Err(CryptoError::Aead),
        },
        s[at] == TAG_MORE && pos >= 0xFFFF_FFFF ==> open_records(key, nonce, s, at, pos) == Err::<
            Seq<u8>,
            CryptoError,
        >(CryptoError::Aead),
        s[at] != TAG_MORE && s[at] != TAG_LAST ==> open_records(key, nonce, s, at, pos) == Err::<
            Seq<u8>,
            CryptoError,
        >(CryptoError::UnknownTag(s[at])),
{
    reveal_with_fuel(open_records, 1);
}

/// A record that claims more than a chunk and its tag is refused.
proof fn lemma_open_too_large(key: Seq<u8>, nonce: Seq<u8>, s: Seq<u8>, at: int, pos: nat)
    requires
        0 <= at,
        at + 5 <= s.len(),
        u32_le_at(s, at + 1) > CHUNK + 16,
    ensures
        open_records(key, nonce, s, at, pos) == Err::<Seq<u8>, CryptoError>(CryptoError::ChunkTooLarge),
{
    reveal_with_fuel(open_records, 1);
}

/// What opening a chunk was seen to give is what `opened` says.
proof fn lemma_open_result(key: Seq<u8>, nonce: Seq<u8>, pos: u32, last: bool, ct: Seq<u8>, r: Option<Seq<u8>>)
    requires
        ct.len() <= CHUNK + 16,
        r matches Some(p) ==> sealed(key, nonce, pos, last, p) == ct && p.len() + 16 == ct.len(),
        r matches Some(p) ==> forall|m: Seq<u8>|
            m.len() <= CHUNK && #[trigger] sealed(key, nonce, pos, last, m) == ct ==> m == p,
        r is None ==> forall|m: Seq<u8>| m.len() <= CHUNK ==> #[trigger] sealed(key, nonce, pos, last, m) != ct,
    ensures
        opened(key, nonce, pos, last, ct) == r,
{
    reveal(opened);
    match r {
        Some(p) => {
            assert(p.len() <= CHUNK && sealed(key, nonce, pos, last, p) == ct);
            let m = choose|m: Seq<u8>| m.len() <= CHUNK && #[trigger] sealed(key, nonce, pos, last, m) == ct;
            assert(sealed(key, nonce, pos, last, m) == ct);
        },
        None => {},
    }
}

/// `after` with nothing before.
proof fn lemma_after_empty(r: Result<Seq<u8>, CryptoError>)
    ensures
        after(Seq::empty(), r) == r,
{
    match r {
        Ok(x) => {
            assert(Seq::<u8>::empty() + x =~= x);
        },
        Err(_) => {},
    }
}

/// `after` twice.
proof fn lemma_after_after(a: Seq<u8>, b: Seq<u8>, r: Result<Seq<u8>, CryptoError>)
    ensures
        after(a, after(b, r)) == after(a + b, r),
{
    match r {
        Ok(x) => {
            assert(a + (b + x) =~= a + b + x);
        },
        Err(_) => {},
    }
}

/// A stream that extends `c` agrees with it wherever `c` has bytes.
proof fn lemma_agree(c: Seq<u8>, s: Seq<u8>)
    requires
        extends(c, s),
    ensures
        forall|i: int| 0 <= i < c.len() ==> #[trigger] s[i] == c[i],
        forall|i: int, j: int| 0 <= i <= j <= c.len() ==> #[trigger] s.subrange(i, j) == c.subrange(i, j),
{
    assert forall|i: int| 0 <= i < c.len() implies #[trigger] s[i] == c[i] by {
        assert(s.take(c.len() as int)[i] == s[i]);
    }
    assert forall|i: int, j: int| 0 <= i <= j <= c.len() implies #[trigger] s.subrange(i, j) == c.subrange(i, j) by {
        assert(s.subrange(i, j) =~= c.subrange(i, j));
    }
}

/// Once the header is in, opening any longer stream comes down to its records.
proof fn lemma_past_header(password: Seq<u8>, c: Seq<u8>, s: Seq<u8>)
    requires
        extends(c, s),
        c.len() >= HEADER_LEN,
        c.take(4) == crypt_magic(),
        c[4] == VERSION,
    ensures
        ({
            let m_cost = u32_le_at(c, 28) as u32;
            let t_cost = u32_le_at(c, 32) as u32;
            let p_cost = u32_le_at(c, 36) as u32;
            decrypt_spec(password, s) == if !(params_accepted(m_cost, t_cost, p_cost) && password.len() <= 0xFFFF_FFFF) {
                Err(CryptoError::KeyDerivation)
            } else {
                open_records(
                    derived_key(password, c.subrange(5, 21), m_cost, t_cost, p_cost),
                    c.subrange(21, 28),
                    s,
                    HEADER_LEN as int,
                    0,
                )
            }
        }),
{
    lemma_agree(c, s);
    assert(s.take(4) =~= c.take(4));
    assert(s.subrange(5, 21) == c.subrange(5, 21));
    assert(s.subrange(21, 28) == c.subrange(21, 28));
    assert(s[28] == c[28] && s[29] == c[29] && s[30] == c[30] && s[31] == c[31]);
    assert(s[32] == c[32] && s[33] == c[33] && s[34] == c[34] && s[35] == c[35]);
    assert(s[36] == c[36] && s[37] == c[37] && s[38] == c[38] && s[39] == c[39]);
}

/// Records whose chunks were all seen sealed open to their data.
#[verifier::spinoff_prover]
#[verifier::rlimit(40)]
proof fn lemma_open_sealed(key: Seq<u8>, nonce: Seq<u8>, pre: Seq<u8>, data: Seq<u8>, pos: nat)
    requires
        records_sealed(key, nonce, data, pos),
    ensures
        open_records(key, nonce, pre + sealed_records(key, nonce, data, pos), pre.len() as int, pos) == Ok::<
            Seq<u8>,
            CryptoError,
        >(data),
    decreases data.len(),
{
    let s = pre + sealed_records(key, nonce, data, pos);
    let at = pre.len() as int;
    if data.len() > CHUNK {
        let head = data.take(CHUNK as int);
        let ct = sealed(key, nonce, pos as u32, false, head);
        let rest = sealed_records(key, nonce, data.skip(CHUNK as int), pos + 1);
        assert(s =~= pre + record(TAG_MORE, ct) + rest);
        lemma_opened(key, nonce, pos, false, head);
        lemma_record_at(pre, TAG_MORE, ct, rest);
        lemma_open_step(key, nonce, s, at, pos, ct);
        lemma_open_sealed(key, nonce, pre + record(TAG_MORE, ct), data.skip(CHUNK as int), pos + 1);
        assert((pre + record(TAG_MORE, ct)).len() == at + 5 + ct.len());
        assert(head + data.skip(CHUNK as int) =~= data);
    } else {
        let ct = sealed(key, nonce, pos as u32, true, data);
        assert(s =~= pre + record(TAG_LAST, ct) + Seq::<u8>::empty());
        lemma_opened(key, nonce, pos, true, data);
        lemma_record_at(pre, TAG_LAST, ct, Seq::<u8>::empty());
        lemma_open_step(key, nonce, s, at, pos, ct);
    }
}

/// One more whole chunk after `q` whole chunks.
proof fn lemma_more_push(key: Seq<u8>, nonce: Seq<u8>, data: Seq<u8>, chunk: Seq<u8>, pos: nat, q: nat)
    requires
        data.len() == q * CHUNK,
        chunk.len() == CHUNK,
    ensures
        more_records(key, nonce, data + chunk, pos) == more_records(key, nonce, data, pos) + record(
            TAG_MORE,
            sealed(key, nonce, (pos + q) as u32, false, chunk),
        ),
        more_sealed(key, nonce, data + chunk, pos) == (more_sealed(key, nonce, data, pos) && chunk_sealed(
            key,
            nonce,
            pos + q,
            false,
            chunk,
        )),
    decreases q,
{
    if q == 0 {
        assert(data + chunk =~= chunk);
        assert(chunk.take(CHUNK as int) =~= chunk);
        assert(chunk.skip(CHUNK as int).len() == 0);
        assert(more_records(key, nonce, chunk.skip(CHUNK as int), pos + 1) =~= Seq::<u8>::empty());
        assert(more_sealed(key, nonce, chunk.skip(CHUNK as int), pos + 1));
        assert(more_records(key, nonce, data, pos) =~= Seq::<u8>::empty());
    } else {
        let d = data + chunk;
        assert(d.take(CHUNK as int) =~= data.take(CHUNK as int));
        assert(d.skip(CHUNK as int) =~= data.skip(CHUNK as int) + chunk);
        lemma_more_push(key, nonce, data.skip(CHUNK as int), chunk, pos + 1, (q - 1) as nat);
        assert(pos + 1 + (q - 1) == pos + q);
    }
}

/// The records of `data` are its `q` whole chunks, then the rest as the last one.
proof fn lemma_split_records(key: Seq<u8>, nonce: Seq<u8>, data: Seq<u8>, pos: nat, q: nat)
    requires
        q * CHUNK <= data.len() <= q * CHUNK + CHUNK,
        q == 0 || data.len() > q * CHUNK,
    ensures
        sealed_records(key, nonce, data, pos) == more_records(key, nonce, data.take(q * CHUNK), pos) + record(
            TAG_LAST,
            sealed(key, nonce, (pos + q) as u32, true, data.skip(q * CHUNK)),
        ),
        records_sealed(key, nonce, data, pos) == (more_sealed(key, nonce, data.take(q * CHUNK), pos)
            && chunk_sealed(key, nonce, pos + q, true, data.skip(q * CHUNK))),
    decreases q,
{
    if q == 0 {
        assert(data.take(0) =~= Seq::<u8>::empty());
        assert(data.skip(0) =~= data);
    } else {
        let t = data.skip(CHUNK as int);
        lemma_split_records(key, nonce, t, pos + 1, (q - 1) as nat);
        assert(data.take(q * CHUNK).take(CHUNK as int) =~= data.take(CHUNK as int));
        assert(data.take(q * CHUNK).skip(CHUNK as int) =~= t.take((q - 1) * CHUNK));
        assert(t.skip((q - 1) * CHUNK) =~= data.skip(q * CHUNK));
        assert(pos + 1 + (q - 1) == pos + q);
    }
}

// --- Encrypting ---------------------------------------------------------------------

/// The most plaintext one stream can carry: the chunk counter allows 2^32 chunks.
pub open spec fn input_limit() -> int {
    0x1_0000_0000_0000
}

/// Push the header fields.
fn push_header(out: &mut Vec<u8>, salt: &[u8], nonce: &[u8; 7], m_cost: u32, t_cost: u32, p_cost: u32)
    ensures
        final(out)@ == old(out)@ + header_bytes(salt@, nonce@, m_cost, t_cost, p_cost),
{
    out.push(0x41);
    out.push(0x42);
    out.push(0x59);
    out.push(0x58);
    out.push(VERSION);
    out.extend_from_slice(salt);
    out.extend_from_slice(nonce);
    push_u32_le(out, m_cost);
    push_u32_le(out, t_cost);
    push_u32_le(out, p_cost);
    assert(final(out)@ =~= old(out)@ + header_bytes(salt@, nonce@, m_cost, t_cost, p_cost));
}

/// Push one chunk record.
fn push_record(out: &mut Vec<u8>, tag: u8, ct: &[u8])
    requires
        ct@.len() <= CHUNK + 16,
    ensures
        final(out)@ == old(out)@ + record(tag, ct@),
{
    out.push(tag);
    push_u32_le(out, ct.len() as u32);
    out.extend_from_slice(ct);
    assert(final(out)@ =~= old(out)@ + record(tag, ct@));
}

/// An encrypting stream: everything written through it is sealed in 64 KiB
/// chunks behind a self-describing header, collected in an output buffer that
/// the caller drains. [`EncryptWriter::finish`] seals the last chunk; without it
/// the stream is incomplete and refuses to open.
pub struct EncryptWriter {
    out: Vec<u8>,
    buf: Vec<u8>,
    key: [u8; 32],
    nonce: [u8; 7],
    position: u32,
    finished: bool,
    input: Ghost<Seq<u8>>,
    password: Ghost<Seq<u8>>,
    salt: Ghost<Seq<u8>>,
    sealing_key: Ghost<Seq<u8>>,
    taken: Ghost<Seq<u8>>,
}

impl EncryptWriter {
    /// Every byte written so far.
    pub closed spec fn input(&self) -> Seq<u8> {
        self.input@
    }

    /// Every byte of the sealed stream produced so far (handed out or not).
    pub closed spec fn output(&self) -> Seq<u8> {
        self.taken@ + self.out@
    }

    /// The sealed bytes already handed out.
    pub closed spec fn emitted(&self) -> Seq<u8> {
        self.taken@
    }

    /// The last chunk has been sealed.
    pub closed spec fn is_finished(&self) -> bool {
        self.finished
    }

    /// The password's bytes.
    pub closed spec fn password(&self) -> Seq<u8> {
        self.password@
    }

    /// The salt in the header.
    pub closed spec fn salt(&self) -> Seq<u8> {
        self.salt@
    }

    /// The nonce prefix in the header.
    pub closed spec fn nonce(&self) -> Seq<u8> {
        self.nonce@
    }

    pub closed spec fn wf(&self) -> bool {
        let key = self.sealing_key@;
        let n = self.nonce@;
        let header = header_bytes(self.salt@, n, 19456, 2, 1);
        &&& self.salt@.len() == SALT_LEN
        &&& key == derived_key(self.password@, self.salt@, 19456, 2, 1)
        &&& self.password@.len() <= 0xFFFF_FFFF
        &&& self.input@.len() <= input_limit()
        &&& !self.finished ==> {
            let whole = self.input@.take(self.position * CHUNK);
            &&& self.key@ == key
            &&& self.buf@.len() <= CHUNK
            &&& self.position * CHUNK + self.buf@.len() == self.input@.len()
            &&& self.position > 0 ==> self.buf@.len() > 0
            &&& self.buf@ == self.input@.skip(self.position * CHUNK)
            &&& self.taken@ + self.out@ == header + more_records(key, n, whole, 0)
            &&& more_sealed(key, n, whole, 0)
        }
        &&& self.finished ==> {
            &&& self.taken@ + self.out@ == header + sealed_records(key, n, self.input@, 0)
            &&& records_sealed(key, n, self.input@, 0)
        }
    }

    /// Start a stream for `password` with the given salt and nonce prefix, at
    /// Argon2's default costs, writing the header.
    pub fn with_salt_and_nonce(password: &str, salt: &[u8; 16], nonce: &[u8; 7]) -> (r: Result<EncryptWriter, CryptoError>)
        ensures
            r is Ok <==> password.spec_bytes().len() <= 0xFFFF_FFFF,
            r matches Err(e) ==> e == CryptoError::KeyDerivation,
            r matches Ok(w) ==> {
                &&& w.wf()
                &&& !w.is_finished()
                &&& w.password() == password.spec_bytes()
                &&& w.salt() == salt@
                &&& w.nonce() == nonce@
                &&& w.input() == Seq::<u8>::empty()
                &&& w.emitted() == Seq::<u8>::empty()
                &&& w.output() == header_bytes(salt@, nonce@, 19456, 2, 1)
            },
    {
        let (m_cost, t_cost, p_cost) = default_costs();
        let pw = password.as_bytes();
        let key = match derive_key(pw, salt, m_cost, t_cost, p_cost) {
            Some(k) => k,
            None => {
                return Err(CryptoError::KeyDerivation);
            },
        };
        let mut out: Vec<u8> = Vec::new();
        push_header(&mut out, salt, nonce, m_cost, t_cost, p_cost);
        let w = EncryptWriter {
            out,
            buf: Vec::new(),
            key,
            nonce: *nonce,
            position: 0,
            finished: false,
            input: Ghost(Seq::empty()),
            password: Ghost(pw@),
            salt: Ghost(salt@),
            sealing_key: Ghost(key@),
            taken: Ghost(Seq::empty()),
        };
        proof {
            assert(w.input@.take(0) =~= Seq::<u8>::empty());
            assert(w.input@.skip(0) =~= w.buf@);
            assert(w.taken@ + w.out@ =~= header_bytes(salt@, nonce@, 19456, 2, 1) + more_records(key@, nonce@, Seq::<u8>::empty(), 0));
        }
        Ok(w)
    }

    /// Start a stream for `password` with a fresh random salt and nonce prefix from
    /// the operating system, writing the header.
    pub fn new(password: &str) -> (r: Result<EncryptWriter, CryptoError>)
        ensures
            password.spec_bytes().len() > 0xFFFF_FFFF ==> r is Err,
            r matches Err(e) ==> e == CryptoError::Randomness || (e == CryptoError::KeyDerivation
                && password.spec_bytes().len() > 0xFFFF_FFFF),
            r matches Ok(w) ==> {
                &&& w.wf()
                &&& !w.is_finished()
                &&& w.password() == password.spec_bytes()
                &&& w.salt().len() == SALT_LEN
                &&& w.nonce().len() == NONCE_LEN
                &&& w.input() == Seq::<u8>::empty()
                &&& w.emitted() == Seq::<u8>::empty()
                &&& w.output() == header_bytes(w.salt(), w.nonce(), 19456, 2, 1)
            },
    {
        let salt_v = match random_bytes(SALT_LEN) {
            Some(v) => v,
            None => {
                return Err(CryptoError::Randomness);
            },
        };
        let nonce_v = match random_bytes(NONCE_LEN) {
            Some(v) => v,
            None => {
                return Err(CryptoError::Randomness);
            },
        };
        let salt: [u8; 16] = [
            salt_v[0], salt_v[1], salt_v[2], salt_v[3], salt_v[4], salt_v[5], salt_v[6], salt_v[7],
            salt_v[8], salt_v[9], salt_v[10], salt_v[11], salt_v[12], salt_v[13], salt_v[14], salt_v[15],
        ];
        let nonce: [u8; 7] = [nonce_v[0], nonce_v[1], nonce_v[2], nonce_v[3], nonce_v[4], nonce_v[5], nonce_v[6]];
        EncryptWriter::with_salt_and_nonce(password, &salt, &nonce)
    }

    /// Seal everything but the last chunk of what has been written, buffering the
    /// rest. Fails only when the stream would need more chunks than the counter
    /// allows.
    pub fn write(&mut self, data: &[u8]) -> (r: Result<usize, CryptoError>)
        requires
            old(self).wf(),
            !old(self).is_finished(),
        ensures
            r is Ok <==> old(self).input().len() + data@.len() <= input_limit(),
            r matches Err(e) ==> e == CryptoError::Aead,
            final(self).password() == old(self).password(),
            final(self).salt() == old(self).salt(),
            final(self).nonce() == old(self).nonce(),
            r matches Ok(n) ==> {
                &&& n == data@.len()
                &&& final(self).wf()
                &&& !final(self).is_finished()
                &&& final(self).input() == old(self).input() + data@
                &&& final(self).password() == old(self).password()
                &&& final(self).salt() == old(self).salt()
                &&& final(self).nonce() == old(self).nonce()
                &&& final(self).emitted() == old(self).emitted()
                &&& old(self).output().is_prefix_of(final(self).output())
                &&& final(self).output().is_prefix_of(
                    sealed_stream(
                        final(self).password(),
                        final(self).salt(),
                        final(self).nonce(),
                        19456,
                        2,
                        1,
                        final(self).input(),
                    ),
                )
            },
    {
        let ghost key = self.sealing_key@;
        let ghost n = self.nonce@;
        let ghost header = header_bytes(self.salt@, n, 19456, 2, 1);
        let ghost p0 = self.position as int;
        let ghost out0 = self.taken@ + self.out@;
        self.buf.extend_from_slice(data);
        self.input = Ghost(self.input@ + data@);
        proof {
            assert(self.buf@ =~= self.input@.skip(p0 * CHUNK));
            assert(self.input@.take(p0 * CHUNK) =~= old(self).input@.take(p0 * CHUNK));
        }
        let mut start: usize = 0;
        while self.buf.len() - start > CHUNK
            invariant
                start <= self.buf@.len(),
                p0 <= self.position,
                start == (self.position - p0) * CHUNK,
                self.buf@ == self.input@.skip(p0 * CHUNK),
                self.input@ == old(self).input@ + data@,
                self.position * CHUNK + (self.buf@.len() - start) == self.input@.len(),
                self.position > 0 ==> self.buf@.len() - start > 0,
                p0 == old(self).position,
                self.key == old(self).key,
                self.nonce == old(self).nonce,
                self.salt == old(self).salt,
                self.password == old(self).password,
                self.sealing_key == old(self).sealing_key,
                self.taken == old(self).taken,
                self.finished == old(self).finished,
                !self.finished,
                key == self.sealing_key@,
                n == self.nonce@,
                self.key@ == key,
                header == header_bytes(self.salt@, n, 19456, 2, 1),
                out0.is_prefix_of(self.taken@ + self.out@),
                self.taken@ + self.out@ == header + more_records(key, n, self.input@.take(self.position * CHUNK), 0),
                more_sealed(key, n, self.input@.take(self.position * CHUNK), 0),
            decreases self.buf@.len() - start,
        {
            if self.position == u32::MAX {
                proof {
                    assert(self.input@.len() > input_limit());
                }
                return Err(CryptoError::Aead);
            }
            let ghost pos = self.position as int;
            let ghost whole = self.input@.take(pos * CHUNK);
            let ghost chunk = self.buf@.subrange(start as int, start + CHUNK);
            let sealed_ct = seal_chunk(&self.key, &self.nonce, self.position, false, &self.buf[start..start + CHUNK]);
            let ct = match sealed_ct {
                Some(c) => c,
                None => {
                    return Err(CryptoError::Aead);
                },
            };
            let ghost o1 = self.out@;
            push_record(&mut self.out, TAG_MORE, ct.as_slice());
            proof {
                assert(chunk =~= self.input@.subrange(pos * CHUNK, pos * CHUNK + CHUNK));
                assert(self.input@.take(pos * CHUNK + CHUNK) =~= whole + chunk);
                reveal(chunk_sealed);
                assert(chunk_sealed(key, n, pos as nat, false, chunk));
                lemma_more_push(key, n, whole, chunk, 0, pos as nat);
                assert(self.taken@ + self.out@ =~= (self.taken@ + o1) + record(TAG_MORE, ct@));
            }
            self.position = self.position + 1;
            start = start + CHUNK;
        }
        let ghost b = self.buf@;
        self.buf = vstd::slice::slice_to_vec(&self.buf[start..self.buf.len()]);
        proof {
            let pos = self.position as int;
            assert(self.buf@ =~= self.input@.skip(pos * CHUNK));
            lemma_split_records(key, n, self.input@, 0, pos as nat);
            assert(sealed_stream(self.password@, self.salt@, n, 19456, 2, 1, self.input@) =~= (header
                + more_records(key, n, self.input@.take(pos * CHUNK), 0)) + record(
                TAG_LAST,
                sealed(key, n, pos as u32, true, self.input@.skip(pos * CHUNK)),
            ));
        }
        Ok(data.len())
    }

    /// Seal the last chunk, then wipe the key. Idempotent.
    pub fn finish(&mut self)
        requires
            old(self).wf(),
        ensures
            final(self).wf(),
            final(self).is_finished(),
            final(self).input() == old(self).input(),
            final(self).password() == old(self).password(),
            final(self).salt() == old(self).salt(),
            final(self).nonce() == old(self).nonce(),
            final(self).emitted() == old(self).emitted(),
            final(self).output() == sealed_stream(
                final(self).password(),
                final(self).salt(),
                final(self).nonce(),
                19456,
                2,
                1,
                final(self).input(),
            ),
    {
        if self.finished {
            return;
        }
        let ghost key = self.sealing_key@;
        let ghost n = self.nonce@;
        let ghost pos = self.position as int;
        let ct = match seal_chunk(&self.key, &self.nonce, self.position, true, self.buf.as_slice()) {
            Some(c) => c,
            None => {
                proof {
                    assert(false);
                }
                return;
            },
        };
        let ghost o1 = self.out@;
        push_record(&mut self.out, TAG_LAST, ct.as_slice());
        wipe_key(&mut self.key);
        self.buf = Vec::new();
        self.finished = true;
        proof {
            reveal(chunk_sealed);
            assert(chunk_sealed(key, n, pos as nat, true, self.input@.skip(pos * CHUNK)));
            lemma_split_records(key, n, self.input@, 0, pos as nat);
            assert(self.taken@ + self.out@ =~= (self.taken@ + o1) + record(TAG_LAST, ct@));
            assert(self.taken@ + self.out@ =~= header_bytes(self.salt@, n, 19456, 2, 1) + sealed_records(key, n, self.input@, 0));
        }
    }

    /// Whether the last chunk has been sealed.
    pub fn finished(&self) -> (b: bool)
        requires
            self.wf(),
        ensures
            b == self.is_finished(),
            b ==> self.output() == sealed_stream(self.password(), self.salt(), self.nonce(), 19456, 2, 1, self.input()),
    {
        self.finished
    }

    /// Hand out the sealed bytes produced so far.
    pub fn take_output(&mut self) -> (r: Vec<u8>)
        requires
            old(self).wf(),
        ensures
            final(self).wf(),
            final(self).input() == old(self).input(),
            final(self).output() == old(self).output(),
            final(self).is_finished() == old(self).is_finished(),
            final(self).password() == old(self).password(),
            final(self).salt() == old(self).salt(),
            final(self).nonce() == old(self).nonce(),
            final(self).emitted() == old(self).output(),
            old(self).output() == old(self).emitted() + r@,
    {
        let mut r: Vec<u8> = Vec::new();
        std::mem::swap(&mut r, &mut self.out);
        self.taken = Ghost(self.taken@ + r@);
        assert(self.taken@ + self.out@ =~= old(self).taken@ + old(self).out@);
        r
    }

    /// The sealed bytes not yet handed out.
    pub fn into_inner(self) -> (r: Vec<u8>)
        requires
            self.wf(),
        ensures
            self.output() == self.emitted() + r@,
    {
        self.out
    }
}

// --- Decrypting ---------------------------------------------------------------------

/// Where the reader stands in the stream.
#[derive(Clone, Copy, PartialEq, Eq, Structural)]
enum Stage {
    Magic,
    Version,
    Params,
    RecordHead,
    RecordBody,
    Done,
}

/// A decrypting stream for what [`EncryptWriter`] produced, fed the stream piece
/// by piece (each piece exactly as long as [`DecryptReader::needs`] asks). Every
/// chunk is authenticated before its plaintext joins the output buffer, which the
/// caller drains.
pub struct DecryptReader {
    stage: Stage,
    password: Vec<u8>,
    key: [u8; 32],
    nonce: [u8; 7],
    position: u32,
    tag: u8,
    len: usize,
    out: Vec<u8>,
    consumed: Ghost<Seq<u8>>,
    pw: Ghost<Seq<u8>>,
    at: Ghost<int>,
    taken: Ghost<Seq<u8>>,
    open_key: Ghost<Seq<u8>>,
}

/// The bytes in an optional buffer.
spec fn view_opt(o: Option<Vec<u8>>) -> Option<Seq<u8>> {
    match o {
        Some(v) => Some(v@),
        None => None,
    }
}

/// What one feeding step did: `b` is `a` fed `bytes`, with outcome `r`.
spec fn fed(a: DecryptReader, b: DecryptReader, bytes: Seq<u8>, r: Result<(), CryptoError>) -> bool {
    &&& b.consumed@ == a.consumed@ + bytes
    &&& b.pw@ == a.pw@
    &&& b.taken@ == a.taken@
    &&& r is Ok ==> b.wf() && (a.taken@ + a.out@).is_prefix_of(b.taken@ + b.out@)
    &&& r matches Err(e) ==> forall|s: Seq<u8>|
        extends(b.consumed@, s) ==> #[trigger] decrypt_spec(b.pw@, s) == Err::<Seq<u8>, CryptoError>(e)
}

impl DecryptReader {
    /// Every byte of the stream fed so far.
    pub closed spec fn consumed(&self) -> Seq<u8> {
        self.consumed@
    }

    /// Every plaintext byte produced so far (handed out or not).
    pub closed spec fn output(&self) -> Seq<u8> {
        self.taken@ + self.out@
    }

    /// The plaintext already handed out.
    pub closed spec fn emitted(&self) -> Seq<u8> {
        self.taken@
    }

    /// The last chunk has been opened.
    pub closed spec fn is_done(&self) -> bool {
        self.stage == Stage::Done
    }

    /// The password's bytes.
    pub closed spec fn password(&self) -> Seq<u8> {
        self.pw@
    }

    /// How many bytes the reader takes next.
    pub closed spec fn wants(&self) -> nat {
        match self.stage {
            Stage::Magic => 4,
            Stage::Version => 1,
            Stage::Params => 35,
            Stage::RecordHead => 5,
            Stage::RecordBody => self.len as nat,
            Stage::Done => 0,
        }
    }

    pub closed spec fn wf(&self) -> bool {
        let c = self.consumed@;
        let o = self.taken@ + self.out@;
        let m_cost = u32_le_at(c, 28) as u32;
        let t_cost = u32_le_at(c, 32) as u32;
        let p_cost = u32_le_at(c, 36) as u32;
        let in_records = self.stage == Stage::RecordHead || self.stage == Stage::RecordBody;
        &&& self.stage == Stage::Magic ==> c.len() == 0 && self.password@ == self.pw@ && o.len() == 0
        &&& self.stage == Stage::Version ==> c == crypt_magic() && self.password@ == self.pw@ && o.len() == 0
        &&& self.stage == Stage::Params ==> {
            &&& c.len() == 5
            &&& c.take(4) == crypt_magic()
            &&& c[4] == VERSION
            &&& self.password@ == self.pw@
            &&& o.len() == 0
        }
        &&& (in_records || self.stage == Stage::Done) ==> {
            &&& c.len() >= HEADER_LEN
            &&& c.take(4) == crypt_magic()
            &&& c[4] == VERSION
            &&& self.nonce@ == c.subrange(21, 28)
            &&& self.open_key@ == derived_key(self.pw@, c.subrange(5, 21), m_cost, t_cost, p_cost)
            &&& params_accepted(m_cost, t_cost, p_cost)
            &&& self.pw@.len() <= 0xFFFF_FFFF
        }
        &&& in_records ==> {
            &&& self.key@ == self.open_key@
            &&& HEADER_LEN <= self.at@
            &&& forall|s: Seq<u8>|
                extends(c, s) ==> #[trigger] decrypt_spec(self.pw@, s) == after(
                    o,
                    open_records(self.open_key@, self.nonce@, s, self.at@, self.position as nat),
                )
        }
        &&& self.stage == Stage::RecordHead ==> c.len() == self.at@
        &&& self.stage == Stage::RecordBody ==> {
            &&& c.len() == self.at@ + 5
            &&& self.tag == c[self.at@]
            &&& self.len == u32_le_at(c, self.at@ + 1)
            &&& self.len <= CHUNK + 16
        }
        &&& self.stage == Stage::Done ==> forall|s: Seq<u8>|
            extends(c, s) ==> #[trigger] decrypt_spec(self.pw@, s) == Ok::<Seq<u8>, CryptoError>(o)
    }

    /// Start reading a stream sealed with `password`.
    pub fn new(password: &str) -> (r: DecryptReader)
        ensures
            r.wf(),
            !r.is_done(),
            r.password() == password.spec_bytes(),
            r.consumed() == Seq::<u8>::empty(),
            r.output() == Seq::<u8>::empty(),
            r.emitted() == Seq::<u8>::empty(),
            r.wants() == 4,
    {
        let pw = vstd::slice::slice_to_vec(password.as_bytes());
        let r = DecryptReader {
            stage: Stage::Magic,
            password: pw,
            key: [0u8; 32],
            nonce: [0u8; 7],
            position: 0,
            tag: 0,
            len: 0,
            out: Vec::new(),
            consumed: Ghost(Seq::empty()),
            pw: Ghost(password.spec_bytes()),
            at: Ghost(0),
            taken: Ghost(Seq::empty()),
            open_key: Ghost(Seq::empty()),
        };
        assert(r.taken@ + r.out@ =~= Seq::<u8>::empty());
        r
    }

    fn feed_magic(&mut self, bytes: &[u8]) -> (r: Result<(), CryptoError>)
        requires
            old(self).wf(),
            old(self).stage == Stage::Magic,
            bytes@.len() == 4,
        ensures
            fed(*old(self), *final(self), bytes@, r),
    {
        self.consumed = Ghost(self.consumed@ + bytes@);
        let c = Ghost(self.consumed@);
        assert(c@ =~= bytes@);
        if bytes[0] == 0x41 && bytes[1] == 0x42 && bytes[2] == 0x59 && bytes[3] == 0x58 {
            self.stage = Stage::Version;
            assert(c@ =~= crypt_magic());
            Ok(())
        } else {
            proof {
                assert forall|s: Seq<u8>| extends(c@, s) implies #[trigger] decrypt_spec(self.pw@, s) == Err::<
                    Seq<u8>,
                    CryptoError,
                >(CryptoError::BadMagic) by {
                    assert(s.take(4) =~= c@);
                    assert(c@ != crypt_magic()) by {
                        if c@ == crypt_magic() {
                            assert(c@[0] == crypt_magic()[0]);
                            assert(c@[1] == crypt_magic()[1]);
                            assert(c@[2] == crypt_magic()[2]);
                            assert(c@[3] == crypt_magic()[3]);
                        }
                    }
                }
            }
            Err(CryptoError::BadMagic)
        }
    }

    fn feed_version(&mut self, bytes: &[u8]) -> (r: Result<(), CryptoError>)
        requires
            old(self).wf(),
            old(self).stage == Stage::Version,
            bytes@.len() == 1,
        ensures
            fed(*old(self), *final(self), bytes@, r),
    {
        let ghost c0 = self.consumed@;
        self.consumed = Ghost(self.consumed@ + bytes@);
        let c = Ghost(self.consumed@);
        assert(c@.take(4) =~= c0);
        assert(c@[4] == bytes@[0]);
        if bytes[0] == VERSION {
            self.stage = Stage::Params;
            Ok(())
        } else {
            proof {
                assert forall|s: Seq<u8>| extends(c@, s) implies #[trigger] decrypt_spec(self.pw@, s) == Err::<
                    Seq<u8>,
                    CryptoError,
                >(CryptoError::UnsupportedVersion(bytes@[0])) by {
                    lemma_agree(c@, s);
                    assert(s.take(4) =~= c0);
                }
            }
            Err(CryptoError::UnsupportedVersion(bytes[0]))
        }
    }

    fn feed_params(&mut self, bytes: &[u8]) -> (r: Result<(), CryptoError>)
        requires
            old(self).wf(),
            old(self).stage == Stage::Params,
            bytes@.len() == 35,
        ensures
            fed(*old(self), *final(self), bytes@, r),
    {
        let ghost c0 = self.consumed@;
        self.consumed = Ghost(self.consumed@ + bytes@);
        let c = Ghost(self.consumed@);
        let m_cost = read_u32_le(bytes, 23);
        let t_cost = read_u32_le(bytes, 27);
        let p_cost = read_u32_le(bytes, 31);
        proof {
            assert(c@.take(4) =~= c0.take(4));
            assert(c@[4] == c0[4]);
            assert(c@.subrange(5, 21) =~= bytes@.subrange(0, 16));
            assert(c@.subrange(21, 28) =~= bytes@.subrange(16, 23));
            assert(u32_le_at(c@, 28) == m_cost);
            assert(u32_le_at(c@, 32) == t_cost);
            assert(u32_le_at(c@, 36) == p_cost);
        }
        if p_cost > 0x1FFF_FFFF {
            proof {
                assert forall|s: Seq<u8>| extends(c@, s) implies #[trigger] decrypt_spec(self.pw@, s) == Err::<
                    Seq<u8>,
                    CryptoError,
                >(CryptoError::KeyDerivation) by {
                    lemma_past_header(self.pw@, c@, s);
                }
            }
            return Err(CryptoError::KeyDerivation);
        }
        let key = match derive_key(self.password.as_slice(), &bytes[0..16], m_cost, t_cost, p_cost) {
            Some(k) => k,
            None => {
                proof {
                    assert forall|s: Seq<u8>| extends(c@, s) implies #[trigger] decrypt_spec(self.pw@, s)
                        == Err::<Seq<u8>, CryptoError>(CryptoError::KeyDerivation) by {
                        lemma_past_header(self.pw@, c@, s);
                    }
                }
                return Err(CryptoError::KeyDerivation);
            },
        };
        self.key = key;
        self.nonce = [bytes[16], bytes[17], bytes[18], bytes[19], bytes[20], bytes[21], bytes[22]];
        self.open_key = Ghost(key@);
        self.password = Vec::new();
        self.position = 0;
        self.at = Ghost(HEADER_LEN as int);
        self.stage = Stage::RecordHead;
        proof {
            assert(self.nonce@ =~= c@.subrange(21, 28));
            assert forall|s: Seq<u8>| extends(c@, s) implies #[trigger] decrypt_spec(self.pw@, s) == after(
                self.taken@ + self.out@,
                open_records(self.open_key@, self.nonce@, s, self.at@, self.position as nat),
            ) by {
                lemma_past_header(self.pw@, c@, s);
                lemma_after_empty(open_records(self.open_key@, self.nonce@, s, self.at@, 0));
                assert(self.taken@ + self.out@ =~= Seq::<u8>::empty());
            }
        }
        Ok(())
    }

    fn feed_head(&mut self, bytes: &[u8]) -> (r: Result<(), CryptoError>)
        requires
            old(self).wf(),
            old(self).stage == Stage::RecordHead,
            bytes@.len() == 5,
        ensures
            fed(*old(self), *final(self), bytes@, r),
    {
        let ghost c0 = self.consumed@;
        let ghost at = self.at@;
        self.consumed = Ghost(self.consumed@ + bytes@);
        let c = Ghost(self.consumed@);
        let len = read_u32_le(bytes, 1);
        proof {
            assert(c@[at] == bytes@[0]);
            assert(u32_le_at(c@, at + 1) == len);
            assert(c@.take(4) =~= c0.take(4));
            assert(c@.subrange(5, 21) =~= c0.subrange(5, 21));
            assert(c@.subrange(21, 28) =~= c0.subrange(21, 28));
            assert(u32_le_at(c@, 28) == u32_le_at(c0, 28));
            assert(u32_le_at(c@, 32) == u32_le_at(c0, 32));
            assert(u32_le_at(c@, 36) == u32_le_at(c0, 36));
            assert forall|s: Seq<u8>| extends(c@, s) implies extends(c0, s) by {
                lemma_extends_shorter(c0, bytes@, s);
            }
        }
        if len > (CHUNK + 16) as u32 {
            proof {
                assert forall|s: Seq<u8>| extends(c@, s) implies #[trigger] decrypt_spec(self.pw@, s) == Err::<
                    Seq<u8>,
                    CryptoError,
                >(CryptoError::ChunkTooLarge) by {
                    lemma_agree(c@, s);
                    lemma_open_too_large(self.open_key@, self.nonce@, s, at, self.position as nat);
                }
            }
            return Err(CryptoError::ChunkTooLarge);
        }
        self.tag = bytes[0];
        self.len = len as usize;
        self.stage = Stage::RecordBody;
        Ok(())
    }

    fn feed_body(&mut self, bytes: &[u8]) -> (r: Result<(), CryptoError>)
        requires
            old(self).wf(),
            old(self).stage == Stage::RecordBody,
            bytes@.len() == old(self).len,
        ensures
            fed(*old(self), *final(self), bytes@, r),
    {
        let ghost c0 = self.consumed@;
        let ghost at = self.at@;
        let ghost o0 = self.taken@ + self.out@;
        let ghost key = self.open_key@;
        let ghost n = self.nonce@;
        let ghost pos = self.position as nat;
        self.consumed = Ghost(self.consumed@ + bytes@);
        let c = Ghost(self.consumed@);
        proof {
            assert(c@.take(4) =~= c0.take(4));
            assert(c@.subrange(5, 21) =~= c0.subrange(5, 21));
            assert(c@.subrange(21, 28) =~= c0.subrange(21, 28));
            assert(u32_le_at(c@, 28) == u32_le_at(c0, 28));
            assert(u32_le_at(c@, 32) == u32_le_at(c0, 32));
            assert(u32_le_at(c@, 36) == u32_le_at(c0, 36));
            assert(c@[at] == self.tag);
            assert(u32_le_at(c@, at + 1) == self.len);
            assert(c@.subrange(at + 5, at + 5 + bytes@.len()) =~= bytes@);
            assert forall|s: Seq<u8>| extends(c@, s) implies {
                &&& decrypt_spec(self.pw@, s) == after(o0, open_records(key, n, s, at, pos))
                &&& s[at] == self.tag
                &&& u32_le_at(s, at + 1) == bytes@.len()
                &&& s.subrange(at + 5, at + 5 + bytes@.len()) == bytes@
                &&& at + 5 + bytes@.len() <= s.len()
            } by {
                lemma_extends_shorter(c0, bytes@, s);
                lemma_agree(c@, s);
            }
        }
        if self.tag == TAG_LAST {
            let opened_chunk = open_chunk(&self.key, &self.nonce, self.position, true, bytes);
            let ghost seen = view_opt(opened_chunk);
            proof {
                lemma_open_result(key, n, pos as u32, true, bytes@, seen);
            }
            match opened_chunk {
                None => {
                    proof {
                        assert forall|s: Seq<u8>| extends(c@, s) implies #[trigger] decrypt_spec(self.pw@, s)
                            == Err::<Seq<u8>, CryptoError>(CryptoError::Aead) by {
                            lemma_open_step(key, n, s, at, pos, bytes@);
                        }
                    }
                    Err(CryptoError::Aead)
                },
                Some(p) => {
                    self.out.extend_from_slice(p.as_slice());
                    wipe_key(&mut self.key);
                    self.stage = Stage::Done;
                    proof {
                        assert(self.taken@ + self.out@ =~= o0 + p@);
                        assert forall|s: Seq<u8>| extends(c@, s) implies #[trigger] decrypt_spec(self.pw@, s)
                            == Ok::<Seq<u8>, CryptoError>(self.taken@ + self.out@) by {
                            lemma_open_step(key, n, s, at, pos, bytes@);
                        }
                    }
                    Ok(())
                },
            }
        } else if self.tag == TAG_MORE {
            if self.position == u32::MAX {
                proof {
                    assert forall|s: Seq<u8>| extends(c@, s) implies #[trigger] decrypt_spec(self.pw@, s) == Err::<
                        Seq<u8>,
                        CryptoError,
                    >(CryptoError::Aead) by {
                        lemma_open_step(key, n, s, at, pos, bytes@);
                    }
                }
                return Err(CryptoError::Aead);
            }
            let opened_chunk = open_chunk(&self.key, &self.nonce, self.position, false, bytes);
            let ghost seen = view_opt(opened_chunk);
            proof {
                lemma_open_result(key, n, pos as u32, false, bytes@, seen);
            }
            match opened_chunk {
                None => {
                    proof {
                        assert forall|s: Seq<u8>| extends(c@, s) implies #[trigger] decrypt_spec(self.pw@, s)
                            == Err::<Seq<u8>, CryptoError>(CryptoError::Aead) by {
                            lemma_open_step(key, n, s, at, pos, bytes@);
                        }
                    }
                    Err(CryptoError::Aead)
                },
                Some(p) => {
                    self.out.extend_from_slice(p.as_slice());
                    self.position = self.position + 1;
                    self.at = Ghost(at + 5 + bytes@.len());
                    self.stage = Stage::RecordHead;
                    proof {
                        assert(self.taken@ + self.out@ =~= o0 + p@);
                        assert forall|s: Seq<u8>| extends(c@, s) implies #[trigger] decrypt_spec(self.pw@, s)
                            == after(
                            self.taken@ + self.out@,
                            open_records(self.open_key@, self.nonce@, s, self.at@, self.position as nat),
                        ) by {
                            lemma_open_step(key, n, s, at, pos, bytes@);
                            lemma_after_after(o0, p@, open_records(key, n, s, at + 5 + bytes@.len(), pos + 1));
                        }
                    }
                    Ok(())
                },
            }
        } else {
            proof {
                assert forall|s: Seq<u8>| extends(c@, s) implies #[trigger] decrypt_spec(self.pw@, s) == Err::<
                    Seq<u8>,
                    CryptoError,
                >(CryptoError::UnknownTag(self.tag)) by {
                    lemma_open_step(key, n, s, at, pos, bytes@);
                }
            }
            Err(CryptoError::UnknownTag(self.tag))
        }
    }

    /// Take the next piece of the stream, exactly [`DecryptReader::needs`] bytes
    /// long: the header's fields are checked and the key derived as they arrive,
    /// and each chunk is authenticated before its plaintext joins the output.
    pub fn feed(&mut self, bytes: &[u8]) -> (r: Result<(), CryptoError>)
        requires
            old(self).wf(),
            !old(self).is_done(),
            bytes@.len() == old(self).wants(),
        ensures
            final(self).consumed() == old(self).consumed() + bytes@,
            final(self).password() == old(self).password(),
            final(self).emitted() == old(self).emitted(),
            r is Ok ==> final(self).wf(),
            r is Ok ==> old(self).output().is_prefix_of(final(self).output()),
            r is Ok && final(self).is_done() ==> decrypt_spec(final(self).password(), final(self).consumed())
                == Ok::<Seq<u8>, CryptoError>(final(self).output()),
            r is Ok ==> forall|s: Seq<u8>|
                extends(final(self).consumed(), s) && #[trigger] decrypt_spec(final(self).password(), s) is Ok
                    ==> final(self).output().is_prefix_of(decrypt_spec(final(self).password(), s)->Ok_0),
            r matches Err(e) ==> forall|s: Seq<u8>|
                extends(final(self).consumed(), s) ==> #[trigger] decrypt_spec(final(self).password(), s)
                    == Err::<Seq<u8>, CryptoError>(e),
    {
        let r = match self.stage {
            Stage::Magic => self.feed_magic(bytes),
            Stage::Version => self.feed_version(bytes),
            Stage::Params => self.feed_params(bytes),
            Stage::RecordHead => self.feed_head(bytes),
            _ => self.feed_body(bytes),
        };
        proof {
            if r is Ok {
                let c = self.consumed@;
                let o = self.taken@ + self.out@;
                assert forall|s: Seq<u8>| extends(c, s) && #[trigger] decrypt_spec(self.pw@, s) is Ok implies o.is_prefix_of(
                    decrypt_spec(self.pw@, s)->Ok_0,
                ) by {
                    if self.stage == Stage::RecordHead || self.stage == Stage::RecordBody {
                        let rest = open_records(self.open_key@, self.nonce@, s, self.at@, self.position as nat);
                        assert(o.is_prefix_of(o + rest->Ok_0)) by {
                            assert((o + rest->Ok_0).take(o.len() as int) =~= o);
                        }
                    } else if self.stage != Stage::Done {
                        assert(o =~= Seq::<u8>::empty());
                        assert(o.is_prefix_of(decrypt_spec(self.pw@, s)->Ok_0)) by {
                            assert(decrypt_spec(self.pw@, s)->Ok_0.take(0) =~= o);
                        }
                    } else {
                        assert(o.is_prefix_of(o)) by {
                            assert(o.take(o.len() as int) =~= o);
                        }
                    }
                }
                if self.stage == Stage::Done {
                    assert(extends(c, c)) by {
                        assert(c.take(c.len() as int) =~= c);
                    }
                }
            }
        }
        r
    }

    /// How many bytes the reader takes next.
    pub fn needs(&self) -> (n: usize)
        requires
            self.wf(),
        ensures
            n == self.wants(),
    {
        match self.stage {
            Stage::Magic => 4,
            Stage::Version => 1,
            Stage::Params => 35,
            Stage::RecordHead => 5,
            Stage::RecordBody => self.len,
            Stage::Done => 0,
        }
    }

    /// Whether the last chunk has been opened.
    pub fn done(&self) -> (b: bool)
        ensures
            b == self.is_done(),
    {
        self.stage == Stage::Done
    }

    /// Hand out the plaintext produced so far.
    pub fn take_output(&mut self) -> (r: Vec<u8>)
        requires
            old(self).wf(),
        ensures
            final(self).wf(),
            final(self).consumed() == old(self).consumed(),
            final(self).output() == old(self).output(),
            final(self).password() == old(self).password(),
            final(self).is_done() == old(self).is_done(),
            final(self).wants() == old(self).wants(),
            final(self).emitted() == old(self).output(),
            old(self).output() == old(self).emitted() + r@,
    {
        let mut r: Vec<u8> = Vec::new();
        std::mem::swap(&mut r, &mut self.out);
        self.taken = Ghost(self.taken@ + r@);
        assert(self.taken@ + self.out@ =~= old(self).taken@ + old(self).out@);
        r
    }
}

/// A finished writer's output is the whole sealed stream of what was written.
pub proof fn lemma_finished_sealer(w: &EncryptWriter)
    requires
        w.wf(),
        w.is_finished(),
    ensures
        w.output() == sealed_stream(w.password(), w.salt(), w.nonce(), 19456, 2, 1, w.input()),
{
}

/// A finished writer's stream opens, with the writer's password, to exactly the
/// bytes written.
pub proof fn lemma_writer_stream_opens(w: &EncryptWriter)
    requires
        w.wf(),
        w.is_finished(),
    ensures
        decrypt_spec(w.password(), w.output()) == Ok::<Seq<u8>, CryptoError>(w.input()),
{
    let key = derived_key(w.password(), w.salt(), 19456, 2, 1);
    let header = header_bytes(w.salt(), w.nonce(), 19456, 2, 1);
    let recs = sealed_records(key, w.nonce(), w.input(), 0);
    lemma_header(w.salt(), w.nonce(), 19456, 2, 1, recs);
    lemma_open_sealed(key, w.nonce(), header, w.input(), 0);
    assert(w.output().subrange(5, 21) == w.salt());
}

/// A reader fed the stream of a finished writer, with the same password, up to
/// the last chunk has decrypted exactly what was written.
pub proof fn lemma_reader_opens_writer(w: &EncryptWriter, rd: &DecryptReader)
    requires
        w.wf(),
        w.is_finished(),
        rd.wf(),
        rd.is_done(),
        rd.password() == w.password(),
        extends(rd.consumed(), w.output()),
    ensures
        rd.output() == w.input(),
{
    lemma_writer_stream_opens(w);
}

/// How many records a stream of `n` bytes takes: one per started chunk, and one
/// for an empty stream.
pub open spec fn record_count(n: int) -> int {
    if n == 0 {
        1
    } else {
        (n - 1) / (CHUNK as int) + 1
    }
}

/// Each record adds its tag, its length and the 16-byte authentication tag to
/// the chunk it holds.
proof fn lemma_records_len(key: Seq<u8>, nonce: Seq<u8>, data: Seq<u8>, pos: nat)
    requires
        records_sealed(key, nonce, data, pos),
    ensures
        sealed_records(key, nonce, data, pos).len() == data.len() + 21 * record_count(data.len() as int),
    decreases data.len(),
{
    reveal(chunk_sealed);
    let n = data.len() as int;
    if n > CHUNK {
        lemma_records_len(key, nonce, data.skip(CHUNK as int), pos + 1);
        assert((n - CHUNK - 1) / (CHUNK as int) + 1 == (n - 1) / (CHUNK as int)) by (nonlinear_arith)
            requires
                n > CHUNK,
                CHUNK == 65536,
        ;
    } else if n > 0 {
        assert((n - 1) / (CHUNK as int) == 0) by (nonlinear_arith)
            requires
                0 < n <= CHUNK,
                CHUNK == 65536,
        ;
    }
}

/// A finished stream is the 40-byte header, then for each started 64 KiB chunk
/// of the data (one for empty data) a record of 21 bytes more than the chunk:
/// its tag, its length and the cipher's 16-byte tag.
pub proof fn lemma_sealed_length(w: &EncryptWriter)
    requires
        w.wf(),
        w.is_finished(),
    ensures
        w.output().len() == HEADER_LEN + 21 * record_count(w.input().len() as int) + w.input().len(),
{
    let key = w.sealing_key@;
    lemma_records_len(key, w.nonce@, w.input@, 0);
}

} // verus!
