//! The `.abyss` container: the engine's own sealed form.
//!
//! On-disk shape:
//!
//! ```text
//!   [6]  magic "ABYSSC"
//!   [1]  version
//!   [1]  flags        (bit 0: encrypted)
//!   [...] payload  =  encrypt?( ans( tar(files...) ) )
//! ```
//!
//! The pipeline is bundle, compress, encrypt on the way down, and the exact
//! reverse on the way up; encryption is the outermost layer.
use crate::ans::{lemma_finished_writer, AnsWriter};
use crate::ans_model::{ans_magic, decoded_stream, encoded_stream, lemma_stream_roundtrip, AnsError};
use crate::crypto::{
    decrypt_spec, header_bytes, input_limit, lemma_finished_sealer, lemma_writer_stream_opens, sealed_stream, CryptoError,
    EncryptWriter,
};
use vstd::prelude::*;
use vstd::string::StringSliceAdditionalSpecFns;

verus! {

/// Container version.
pub const ABYSS_VERSION: u8 = 1;

/// Flag bit: the payload is encrypted.
pub const FLAG_ENCRYPTED: u8 = 1;

/// Why a `.abyss` archive cannot be opened.
#[derive(Clone, Copy, Debug, PartialEq, Eq, Structural)]
pub enum AbyssError {
    /// The file ends inside the header.
    Truncated,
    /// Not an `.abyss` archive.
    BadMagic,
    /// Written by another container version.
    UnsupportedVersion(u8),
    /// The archive is sealed and no password was given.
    PasswordRequired,
}

/// `ABYSSC`.
pub open spec fn abyss_magic() -> Seq<u8> {
    seq![0x41u8, 0x42u8, 0x59u8, 0x53u8, 0x53u8, 0x43u8]
}

/// The container header.
pub open spec fn abyss_header(encrypted: bool) -> Seq<u8> {
    abyss_magic() + seq![ABYSS_VERSION, if encrypted { FLAG_ENCRYPTED } else { 0u8 }]
}

/// What reading a header from the file's first bytes gives: whether the
/// payload is encrypted.
pub open spec fn header_spec(bytes: Seq<u8>) -> Result<bool, AbyssError> {
    if bytes.len() < 6 {
        Err(AbyssError::Truncated)
    } else if bytes.take(6) != abyss_magic() {
        Err(AbyssError::BadMagic)
    } else if bytes.len() < 8 {
        Err(AbyssError::Truncated)
    } else if bytes[6] != ABYSS_VERSION {
        Err(AbyssError::UnsupportedVersion(bytes[6]))
    } else {
        Ok(bytes[7] % 2 == 1)
    }
}

/// Write the container header (magic, version, flags).
pub fn write_header(out: &mut Vec<u8>, encrypted: bool)
    ensures
        final(out)@ == old(out)@ + abyss_header(encrypted),
{
    out.push(0x41);
    out.push(0x42);
    out.push(0x59);
    out.push(0x53);
    out.push(0x53);
    out.push(0x43);
    out.push(ABYSS_VERSION);
    out.push(if encrypted { FLAG_ENCRYPTED } else { 0 });
    assert(final(out)@ =~= old(out)@ + abyss_header(encrypted));
}

/// Read and validate the header from the file's first bytes (at most eight are
/// looked at), returning whether the archive is encrypted.
pub fn read_header(bytes: &[u8]) -> (r: Result<bool, AbyssError>)
    ensures
        r == header_spec(bytes@),
{
    if bytes.len() < 6 {
        return Err(AbyssError::Truncated);
    }
    if !(bytes[0] == 0x41 && bytes[1] == 0x42 && bytes[2] == 0x59 && bytes[3] == 0x53 && bytes[4] == 0x53 && bytes[5]
        == 0x43) {
        assert(bytes@.take(6) != abyss_magic()) by {
            if bytes@.take(6) == abyss_magic() {
                assert(bytes@.take(6)[0] == bytes@[0]);
                assert(bytes@.take(6)[1] == bytes@[1]);
                assert(bytes@.take(6)[2] == bytes@[2]);
                assert(bytes@.take(6)[3] == bytes@[3]);
                assert(bytes@.take(6)[4] == bytes@[4]);
                assert(bytes@.take(6)[5] == bytes@[5]);
            }
        }
        return Err(AbyssError::BadMagic);
    }
    assert(bytes@.take(6) =~= abyss_magic());
    if bytes.len() < 8 {
        return Err(AbyssError::Truncated);
    }
    if bytes[6] != ABYSS_VERSION {
        return Err(AbyssError::UnsupportedVersion(bytes[6]));
    }
    let flags = bytes[7];
    assert((flags & 1u8) != 0 <==> flags % 2 == 1) by (bit_vector);
    Ok(flags & FLAG_ENCRYPTED != 0)
}

/// The password to decrypt the payload with: none for an unsealed archive,
/// and a sealed one cannot be opened without one.
pub fn payload_password(encrypted: bool, password: Option<&str>) -> (r: Result<Option<&str>, AbyssError>)
    ensures
        !encrypted ==> r == Ok::<Option<&str>, AbyssError>(None),
        encrypted && password is Some ==> r == Ok::<Option<&str>, AbyssError>(password),
        encrypted && password is None ==> r == Err::<Option<&str>, AbyssError>(AbyssError::PasswordRequired),
{
    if !encrypted {
        Ok(None)
    } else {
        match password {
            Some(pw) => Ok(Some(pw)),
            None => Err(AbyssError::PasswordRequired),
        }
    }
}

/// A header as written reads back as written.
pub proof fn lemma_header_roundtrip(encrypted: bool, rest: Seq<u8>)
    ensures
        header_spec(abyss_header(encrypted) + rest) == Ok::<bool, AbyssError>(encrypted),
{
    let s = abyss_header(encrypted) + rest;
    assert(s.take(6) =~= abyss_magic());
    assert(s[6] == ABYSS_VERSION);
    assert(s[7] == if encrypted { 1u8 } else { 0u8 });
}

// --- Writing the container ---------------------------------------------------------

/// Writes an `.abyss` container: the header, then the ANS-coded payload, sealed
/// with a password when one is given. Everything written through it is the
/// payload (a tar bundle); the container bytes collect in an output buffer that
/// the caller drains.
pub struct AbyssWriter {
    ans: AnsWriter,
    seal: Option<EncryptWriter>,
    out: Vec<u8>,
    taken: Ghost<Seq<u8>>,
}

/// The whole container for `data`: the header, then the ANS stream, sealed when
/// `sealed` holds with the password, salt and nonce prefix given, at Argon2's
/// default costs.
pub open spec fn abyss_stream(
    sealed: bool,
    password: Seq<u8>,
    salt: Seq<u8>,
    nonce: Seq<u8>,
    data: Seq<u8>,
) -> Seq<u8> {
    if sealed {
        abyss_header(true) + sealed_stream(password, salt, nonce, 19456, 2, 1, encoded_stream(data))
    } else {
        abyss_header(false) + encoded_stream(data)
    }
}

impl AbyssWriter {
    /// Every payload byte written so far.
    pub closed spec fn input(&self) -> Seq<u8> {
        self.ans.input()
    }

    /// Every container byte produced so far (handed out or not).
    pub closed spec fn output(&self) -> Seq<u8> {
        self.taken@ + self.out@
    }

    /// The container bytes already handed out.
    pub closed spec fn emitted(&self) -> Seq<u8> {
        self.taken@
    }

    /// The ANS-coded payload produced so far: what the seal, when there is one,
    /// has taken in.
    pub closed spec fn coded(&self) -> Seq<u8> {
        self.ans.emitted()
    }

    /// The payload is sealed with a password.
    pub closed spec fn is_sealed(&self) -> bool {
        self.seal is Some
    }

    /// The container is complete.
    pub closed spec fn is_finished(&self) -> bool {
        self.ans.is_finished()
    }

    /// The password's bytes (empty when unsealed).
    pub closed spec fn password(&self) -> Seq<u8> {
        match self.seal {
            Some(s) => s.password(),
            None => Seq::empty(),
        }
    }

    /// The salt of the encryption header (empty when unsealed).
    pub closed spec fn salt(&self) -> Seq<u8> {
        match self.seal {
            Some(s) => s.salt(),
            None => Seq::empty(),
        }
    }

    /// The nonce prefix of the encryption header (empty when unsealed).
    pub closed spec fn nonce(&self) -> Seq<u8> {
        match self.seal {
            Some(s) => s.nonce(),
            None => Seq::empty(),
        }
    }

    pub closed spec fn wf(&self) -> bool {
        &&& self.ans.wf()
        &&& self.ans.output() == self.ans.emitted()
        &&& match self.seal {
            None => self.taken@ + self.out@ == abyss_header(false) + self.ans.emitted(),
            Some(s) => {
                &&& s.wf()
                &&& s.output() == s.emitted()
                &&& s.input() == self.ans.emitted()
                &&& s.is_finished() == self.ans.is_finished()
                &&& self.taken@ + self.out@ == abyss_header(true) + s.emitted()
            },
        }
    }

    /// Start a container, sealed when a password is given.
    pub fn new(password: Option<&str>) -> (r: Result<AbyssWriter, CryptoError>)
        ensures
            password is None ==> r is Ok,
            password matches Some(pw) && pw.spec_bytes().len() > 0xFFFF_FFFF ==> r is Err,
            r matches Err(e) ==> password matches Some(pw) && (e == CryptoError::Randomness || (e
                == CryptoError::KeyDerivation && pw.spec_bytes().len() > 0xFFFF_FFFF)),
            r matches Ok(w) ==> {
                &&& w.wf()
                &&& !w.is_finished()
                &&& w.is_sealed() == password is Some
                &&& w.input() == Seq::<u8>::empty()
                &&& w.emitted() == Seq::<u8>::empty()
                &&& password matches Some(pw) ==> w.password() == pw.spec_bytes()
            },
    {
        let mut out: Vec<u8> = Vec::new();
        write_header(&mut out, password.is_some());
        let mut ans = AnsWriter::new();
        let piece = ans.take_output();
        match password {
            None => {
                let mut p = piece;
                out.append(&mut p);
                let w = AbyssWriter { ans, seal: None, out, taken: Ghost(Seq::empty()) };
                assert(w.taken@ + w.out@ =~= abyss_header(false) + w.ans.emitted());
                Ok(w)
            },
            Some(pw) => {
                let mut enc = match EncryptWriter::new(pw) {
                    Ok(e) => e,
                    Err(e) => {
                        return Err(e);
                    },
                };
                let mut head = enc.take_output();
                out.append(&mut head);
                match enc.write(piece.as_slice()) {
                    Ok(_) => {},
                    Err(e) => {
                        proof {
                            assert(false);
                        }
                        return Err(e);
                    },
                }
                let ghost o1 = out@;
                let mut sealed = enc.take_output();
                out.append(&mut sealed);
                let w = AbyssWriter { ans, seal: Some(enc), out, taken: Ghost(Seq::empty()) };
                proof {
                    assert(w.taken@ + w.out@ =~= abyss_header(true) + enc.emitted());
                }
                Ok(w)
            },
        }
    }

    /// Write payload bytes: they are ANS-coded, and sealed when the container is.
    /// Fails exactly when a sealed payload's coded bytes would outgrow the
    /// encryption layer's chunk counter; the container then stays sealed with
    /// the same password, salt and nonce.
    pub fn write(&mut self, data: &[u8]) -> (r: Result<usize, CryptoError>)
        requires
            old(self).wf(),
            !old(self).is_finished(),
        ensures
            r is Ok <==> (!old(self).is_sealed() || final(self).coded().len() <= input_limit()),
            r matches Err(e) ==> e == CryptoError::Aead,
            final(self).is_sealed() == old(self).is_sealed(),
            final(self).input() == old(self).input() + data@,
            final(self).password() == old(self).password(),
            final(self).salt() == old(self).salt(),
            final(self).nonce() == old(self).nonce(),
            old(self).coded().is_prefix_of(final(self).coded()),
            final(self).coded().is_prefix_of(encoded_stream(final(self).input())),
            r matches Ok(n) ==> {
                &&& n == data@.len()
                &&& final(self).wf()
                &&& !final(self).is_finished()
                &&& final(self).is_sealed() == old(self).is_sealed()
                &&& final(self).input() == old(self).input() + data@
                &&& final(self).password() == old(self).password()
                &&& final(self).salt() == old(self).salt()
                &&& final(self).nonce() == old(self).nonce()
                &&& final(self).emitted() == old(self).emitted()
                &&& old(self).output().is_prefix_of(final(self).output())
            },
    {
        let ghost e0 = self.ans.emitted();
        let n = self.ans.write(data);
        let mut piece = self.ans.take_output();
        let ghost pv = piece@;
        assert(self.ans.emitted() == e0 + pv);
        let ghost o0 = self.out@;
        if self.seal.is_none() {
            self.out.append(&mut piece);
            proof {
                assert(self.taken@ + self.out@ =~= (self.taken@ + o0) + pv);
                assert(abyss_header(false) + self.ans.emitted() =~= (abyss_header(false) + e0) + pv);
                assert(self.taken@ + self.out@ =~= abyss_header(false) + self.ans.emitted());
                assert((self.taken@ + o0).is_prefix_of(self.taken@ + self.out@)) by {
                    assert((self.taken@ + self.out@).take((self.taken@ + o0).len() as int) =~= self.taken@ + o0);
                }
            }
            Ok(n)
        } else {
            let mut enc = self.seal.take().unwrap();
            let ghost s0 = enc.emitted();
            match enc.write(piece.as_slice()) {
                Ok(_) => {},
                Err(e) => {
                    self.seal = Some(enc);
                    return Err(e);
                },
            }
            let mut sealed = enc.take_output();
            let ghost sv = sealed@;
            self.out.append(&mut sealed);
            self.seal = Some(enc);
            proof {
                assert(self.taken@ + self.out@ =~= (self.taken@ + o0) + sv);
                assert(abyss_header(true) + enc.emitted() =~= (abyss_header(true) + s0) + sv);
                assert(self.taken@ + self.out@ =~= abyss_header(true) + enc.emitted());
                assert((self.taken@ + o0).is_prefix_of(self.taken@ + self.out@)) by {
                    assert((self.taken@ + self.out@).take((self.taken@ + o0).len() as int) =~= self.taken@ + o0);
                }
            }
            Ok(n)
        }
    }

    /// Code the last block and the end marker, then seal the last chunk when
    /// the container is sealed. Idempotent.
    pub fn finish(&mut self) -> (r: Result<(), CryptoError>)
        requires
            old(self).wf(),
        ensures
            r is Ok <==> (!old(self).is_sealed() || old(self).is_finished() || encoded_stream(
                old(self).input(),
            ).len() <= input_limit()),
            r matches Err(e) ==> e == CryptoError::Aead,
            final(self).is_sealed() == old(self).is_sealed(),
            final(self).input() == old(self).input(),
            final(self).password() == old(self).password(),
            final(self).salt() == old(self).salt(),
            final(self).nonce() == old(self).nonce(),
            final(self).coded() == encoded_stream(final(self).input()),
            r is Ok ==> {
                &&& final(self).wf()
                &&& final(self).is_finished()
                &&& final(self).is_sealed() == old(self).is_sealed()
                &&& final(self).input() == old(self).input()
                &&& final(self).password() == old(self).password()
                &&& final(self).salt() == old(self).salt()
                &&& final(self).nonce() == old(self).nonce()
                &&& final(self).emitted() == old(self).emitted()
                &&& final(self).output() == abyss_stream(
                    final(self).is_sealed(),
                    final(self).password(),
                    final(self).salt(),
                    final(self).nonce(),
                    final(self).input(),
                )
            },
    {
        if self.ans.finished() {
            proof {
                lemma_finished_writer(&self.ans);
                if self.seal is Some {
                    lemma_finished_sealer(&self.seal->Some_0);
                }
            }
            return Ok(());
        }
        let ghost e0 = self.ans.emitted();
        self.ans.finish();
        let mut piece = self.ans.take_output();
        let ghost pv = piece@;
        assert(self.ans.emitted() == e0 + pv);
        let ghost o0 = self.out@;
        if self.seal.is_none() {
            self.out.append(&mut piece);
            proof {
                assert(self.taken@ + self.out@ =~= (self.taken@ + o0) + pv);
                assert(abyss_header(false) + self.ans.emitted() =~= (abyss_header(false) + e0) + pv);
                assert(self.taken@ + self.out@ =~= abyss_header(false) + self.ans.emitted());
                lemma_finished_writer(&self.ans);
            }
            Ok(())
        } else {
            let mut enc = self.seal.take().unwrap();
            let ghost s0 = enc.emitted();
            match enc.write(piece.as_slice()) {
                Ok(_) => {},
                Err(e) => {
                    self.seal = Some(enc);
                    return Err(e);
                },
            }
            enc.finish();
            let mut sealed = enc.take_output();
            let ghost sv = sealed@;
            self.out.append(&mut sealed);
            self.seal = Some(enc);
            proof {
                assert(self.taken@ + self.out@ =~= (self.taken@ + o0) + sv);
                assert(abyss_header(true) + enc.emitted() =~= (abyss_header(true) + s0) + sv);
                assert(self.taken@ + self.out@ =~= abyss_header(true) + enc.emitted());
                lemma_finished_writer(&self.ans);
                lemma_finished_sealer(&enc);
            }
            Ok(())
        }
    }

    /// Hand out the container bytes produced so far.
    pub fn take_output(&mut self) -> (r: Vec<u8>)
        requires
            old(self).wf(),
        ensures
            final(self).wf(),
            final(self).input() == old(self).input(),
            final(self).output() == old(self).output(),
            final(self).is_finished() == old(self).is_finished(),
            final(self).is_sealed() == old(self).is_sealed(),
            final(self).password() == old(self).password(),
            final(self).salt() == old(self).salt(),
            final(self).nonce() == old(self).nonce(),
            final(self).emitted() == old(self).output(),
            old(self).output() == old(self).emitted() + r@,
    {
        let mut r: Vec<u8> = Vec::new();
        std::mem::swap(&mut r, &mut self.out);
        self.taken = Ghost(self.taken@ + r@);
        assert(self.taken@ + self.out@ =~= old(self).taken@ + old(self).out@);
        r
    }

    /// The container bytes not yet handed out.
    pub fn into_inner(self) -> (r: Vec<u8>)
        requires
            self.wf(),
        ensures
            self.output() == self.emitted() + r@,
    {
        self.out
    }
}

/// A finished container opens to exactly the payload written: its header reads
/// back whether it is sealed, and what follows it decrypts (with the writer's
/// password, when sealed) to an ANS stream that decodes to the payload.
pub proof fn lemma_abyss_stream_opens(w: &AbyssWriter)
    requires
        w.wf(),
        w.is_finished(),
    ensures
        header_spec(w.output()) == Ok::<bool, AbyssError>(w.is_sealed()),
        w.is_sealed() ==> decrypt_spec(w.password(), w.output().skip(8)) == Ok::<Seq<u8>, CryptoError>(
            encoded_stream(w.input()),
        ),
        !w.is_sealed() ==> w.output().skip(8) == encoded_stream(w.input()),
        decoded_stream(encoded_stream(w.input())) == Ok::<Seq<u8>, AnsError>(w.input()),
{
    lemma_stream_roundtrip(w.input());
    lemma_finished_writer(&w.ans);
    let rest = w.output().skip(8);
    assert(w.output() =~= abyss_header(w.is_sealed()) + rest);
    lemma_header_roundtrip(w.is_sealed(), rest);
    match w.seal {
        Some(s) => {
            lemma_finished_sealer(&s);
            lemma_writer_stream_opens(&s);
            assert(rest =~= sealed_stream(s.password(), s.salt(), s.nonce(), 19456, 2, 1, s.input()));
        },
        None => {},
    }
}

} // verus!
