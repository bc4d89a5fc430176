use vstd::arithmetic::div_mod::lemma_div_is_ordered;
use vstd::prelude::*;
use vstd::utf8::{decode_utf8, encode_utf8, valid_utf8};

use crate::envelope::{
    be32_bytes, be32_value, block, decode, decode_spec, encode, frame, lemma_be32_inverse, lemma_envelope_round_trip,
    push_block, read_block, read_block_spec, Scheme,
};
use crate::error::StoreError;

verus! {

broadcast use vstd::utf8::group_utf8_lib;

/// The key material that seals and opens a profile.
#[derive(Debug)]
pub enum Cipher {
    /// A passphrase from which the symmetric key is derived.
    Passphrase(String),
    /// The fingerprint of a key that the key agent holds.
    Recipient(String),
}

impl Cipher {
    pub open spec fn scheme_spec(&self) -> Scheme {
        match self {
            Cipher::Passphrase(_) => Scheme::Passphrase,
            Cipher::Recipient(_) => Scheme::Recipient,
        }
    }

    /// The scheme that this key material belongs to.
    pub fn scheme(&self) -> (r: Scheme)
        ensures
            r == self.scheme_spec(),
    {
        match self {
            Cipher::Passphrase(_) => Scheme::Passphrase,
            Cipher::Recipient(_) => Scheme::Recipient,
        }
    }
}

/// The sealed contents of a profile file, its envelope taken off.
#[derive(Debug)]
pub enum Sealed {
    /// The passphrase scheme's sealed block.
    Passphrase(Vec<u8>),
    /// The recipient scheme's fingerprint and the key agent's ciphertext.
    Recipient(String, Vec<u8>),
}

/// What a sealed file holds, as plain values.
pub enum SealedModel {
    Passphrase(Seq<u8>),
    Recipient(Seq<char>, Seq<u8>),
}

impl View for Sealed {
    type V = SealedModel;

    open spec fn view(&self) -> SealedModel {
        match self {
            Sealed::Passphrase(b) => SealedModel::Passphrase(b@),
            Sealed::Recipient(f, c) => SealedModel::Recipient(f@, c@),
        }
    }
}

/// The file of the passphrase scheme: the sealed block, length-prefixed.
pub open spec fn passphrase_file(sealed: Seq<u8>) -> Seq<u8> {
    frame(Scheme::Passphrase, block(sealed))
}

/// The file of the recipient scheme: the fingerprint in UTF-8 and the
/// ciphertext, each length-prefixed.
pub open spec fn recipient_file(fingerprint: Seq<char>, ciphertext: Seq<u8>) -> Seq<u8> {
    frame(Scheme::Recipient, block(encode_utf8(fingerprint)) + block(ciphertext))
}

/// What a file holds once its envelope and scheme body are read.
pub open spec fn sealed_spec(file: Seq<u8>) -> Result<SealedModel, StoreError> {
    match decode_spec(file) {
        Err(e) => Err(e),
        Ok((Scheme::Passphrase, body)) => match read_block_spec(body) {
            Some((s, rest)) => if rest.len() == 0 {
                Ok(SealedModel::Passphrase(s))
            } else {
                Err(StoreError::Corrupt)
            },
            None => Err(StoreError::Corrupt),
        },
        Ok((Scheme::Recipient, body)) => match read_block_spec(body) {
            Some((f, rest)) => if !valid_utf8(f) {
                Err(StoreError::Corrupt)
            } else {
                match read_block_spec(rest) {
                    Some((c, rest2)) => if rest2.len() == 0 {
                        Ok(SealedModel::Recipient(decode_utf8(f), c))
                    } else {
                        Err(StoreError::Corrupt)
                    },
                    None => Err(StoreError::Corrupt),
                }
            },
            None => Err(StoreError::Corrupt),
        },
    }
}

/// What opening a passphrase-sealed block with a passphrase gives: the
/// plaintext, or `Err(true)` where the file key does not unwrap with the
/// passphrase, or `Err(false)` where the block fails otherwise.
pub uninterp spec fn age_opened(sealed: Seq<u8>, passphrase: Seq<char>) -> Result<Seq<u8>, bool>;

/// The most that age's passphrase encryption adds to a plaintext of `n`
/// bytes: a header of under 240 bytes with its 16-byte nonce, and a 16-byte
/// tag for each chunk of 64 KiB, the last one possibly empty.
pub open spec fn age_overhead_bound(n: int) -> int {
    n + 16 * (n / 65536 + 1) + 256
}

/// Relies on age's passphrase encryption (`Encryptor::with_user_passphrase`,
/// `wrap_output`, `finish`): written into memory it does not fail, and its
/// output is the header, the nonce and one tagged chunk per 64 KiB. Each call
/// draws a fresh salt and file key, so nothing more is stated of the bytes.
#[verifier::external_body]
fn age_seal(plaintext: &[u8], passphrase: &str) -> (r: Option<Vec<u8>>)
    ensures
        r is Some,
        r matches Some(f) ==> f@.len() <= age_overhead_bound(plaintext@.len() as int),
{
    let secret = age::secrecy::Secret::new(passphrase.to_owned());
    let encryptor = age::Encryptor::with_user_passphrase(secret);
    let mut out: Vec<u8> = Vec::new();
    let mut writer = encryptor.wrap_output(&mut out).ok()?;
    std::io::Write::write_all(&mut writer, plaintext).ok()?;
    writer.finish().ok()?;
    Some(out)
}

/// Relies on age's passphrase decryption (`Decryptor::new`, `decrypt` with a
/// fixed bound of 22 on the scrypt work factor, then reading the stream):
/// with the bound fixed, the outcome depends on the bytes and the passphrase
/// alone. A file key that does not unwrap with the passphrase
/// (`DecryptionFailed`) is reported as a wrong key, every other failure as
/// corruption.
#[verifier::external_body]
fn age_open(sealed: &[u8], passphrase: &str) -> (r: Result<Vec<u8>, StoreError>)
    ensures
        match age_opened(sealed@, passphrase@) {
            Ok(p) => r matches Ok(x) && x@ == p,
            Err(true) => r == Err::<Vec<u8>, StoreError>(StoreError::BadKey),
            Err(false) => r == Err::<Vec<u8>, StoreError>(StoreError::Corrupt),
        },
{
    let secret = age::secrecy::Secret::new(passphrase.to_owned());
    let decryptor = match age::Decryptor::new(sealed) {
        Ok(age::Decryptor::Passphrase(d)) => d,
        _ => return Err(StoreError::Corrupt),
    };
    let mut reader = match decryptor.decrypt(&secret, Some(22)) {
        Ok(reader) => reader,
        Err(age::DecryptError::DecryptionFailed) => return Err(StoreError::BadKey),
        Err(_) => return Err(StoreError::Corrupt),
    };
    let mut out: Vec<u8> = Vec::new();
    match std::io::Read::read_to_end(&mut reader, &mut out) {
        Ok(_) => Ok(out),
        Err(_) => Err(StoreError::Corrupt),
    }
}

/// Frames a passphrase-sealed block into a complete file.
pub fn passphrase_file_from(sealed: &[u8]) -> (r: Result<Vec<u8>, StoreError>)
    ensures
        sealed@.len() <= u32::MAX ==> (r matches Ok(f) && f@ == passphrase_file(sealed@)),
        sealed@.len() > u32::MAX ==> r == Err::<Vec<u8>, StoreError>(StoreError::InvalidValue),
{
    if sealed.len() > 0xffff_ffffusize {
        return Err(StoreError::InvalidValue);
    }
    let mut body: Vec<u8> = Vec::new();
    push_block(&mut body, sealed);
    assert(body@ =~= block(sealed@));
    Ok(encode(Scheme::Passphrase, body.as_slice()))
}

/// The largest payload that sealing with a passphrase takes: its sealed
/// block then still fits a four-byte length.
pub const MAX_SEALED_PAYLOAD: usize = 0xF000_0000;

proof fn lemma_overhead_fits(n: int)
    requires
        0 <= n <= MAX_SEALED_PAYLOAD,
    ensures
        age_overhead_bound(n) <= u32::MAX,
{
    lemma_div_is_ordered(n, MAX_SEALED_PAYLOAD as int, 65536);
    assert(MAX_SEALED_PAYLOAD as int / 65536 == 61440);
}

/// Frames a freshly sealed block, given what opening it again with the same
/// passphrase gave: only a block that gave back exactly the payload is
/// framed; any other outcome fails with `Corrupt`.
pub fn frame_checked(payload: &[u8], sealed: &[u8], reopened: Result<Vec<u8>, StoreError>) -> (r: Result<
    Vec<u8>,
    StoreError,
>)
    ensures
        match reopened {
            Ok(p) => if p@ != payload@ {
                r == Err::<Vec<u8>, StoreError>(StoreError::Corrupt)
            } else if sealed@.len() > u32::MAX {
                r == Err::<Vec<u8>, StoreError>(StoreError::InvalidValue)
            } else {
                r matches Ok(f) && f@ == passphrase_file(sealed@)
            },
            Err(_) => r == Err::<Vec<u8>, StoreError>(StoreError::Corrupt),
        },
{
    match reopened {
        Err(_) => Err(StoreError::Corrupt),
        Ok(p) => if !bytes_eq(p.as_slice(), payload) {
            Err(StoreError::Corrupt)
        } else {
            passphrase_file_from(sealed)
        },
    }
}

/// Seals a payload with a passphrase and frames it into a complete file.
/// The sealed block is opened again with the same passphrase, and the file
/// comes out only where that gives back the payload; otherwise sealing
/// fails with `Corrupt`. A payload of at most `MAX_SEALED_PAYLOAD` bytes
/// never fails with `InvalidValue`.
pub fn seal_with_passphrase(payload: &[u8], passphrase: &str) -> (r: Result<Vec<u8>, StoreError>)
    ensures
        r matches Ok(f) ==> exists|s: Seq<u8>|
            s.len() <= u32::MAX && f@ == passphrase_file(s) && age_opened(s, passphrase@) == Ok::<
                Seq<u8>,
                bool,
            >(payload@),
        r matches Err(e) ==> e == StoreError::InvalidValue || e == StoreError::Corrupt,
        payload@.len() <= MAX_SEALED_PAYLOAD ==> r != Err::<Vec<u8>, StoreError>(StoreError::InvalidValue),
{
    match age_seal(payload, passphrase) {
        None => Err(StoreError::InvalidValue),
        Some(sealed) => {
            proof {
                if payload@.len() <= MAX_SEALED_PAYLOAD {
                    lemma_overhead_fits(payload@.len() as int);
                }
            }
            let reopened = age_open(sealed.as_slice(), passphrase);
            let r = frame_checked(payload, sealed.as_slice(), reopened);
            proof {
                if r is Ok {
                    assert(age_opened(sealed@, passphrase@) == Ok::<Seq<u8>, bool>(payload@));
                }
            }
            r
        },
    }
}

/// Frames the key agent's outcome for a fingerprint into a complete file;
/// the agent's failure is passed on unchanged.
pub fn seal_with_recipient(fingerprint: &str, agent: Result<Vec<u8>, StoreError>) -> (r: Result<Vec<u8>, StoreError>)
    ensures
        match agent {
            Err(e) => r == Err::<Vec<u8>, StoreError>(e),
            Ok(c) => if encode_utf8(fingerprint@).len() <= u32::MAX && c@.len() <= u32::MAX {
                r matches Ok(f) && f@ == recipient_file(fingerprint@, c@)
            } else {
                r == Err::<Vec<u8>, StoreError>(StoreError::InvalidValue)
            },
        },
{
    let c = match agent {
        Err(e) => return Err(e),
        Ok(c) => c,
    };
    let fp = fingerprint.as_bytes();
    if fp.len() > 0xffff_ffffusize || c.len() > 0xffff_ffffusize {
        return Err(StoreError::InvalidValue);
    }
    let mut body: Vec<u8> = Vec::new();
    push_block(&mut body, fp);
    push_block(&mut body, c.as_slice());
    assert(body@ =~= block(encode_utf8(fingerprint@)) + block(c@));
    Ok(encode(Scheme::Recipient, body.as_slice()))
}

/// What the key agent seals for a recipient file: the fingerprint in UTF-8,
/// length-prefixed, then the payload. Opening checks the fingerprint against
/// the one the file records, so that a changed record does not load.
pub open spec fn recipient_plaintext(fingerprint: Seq<char>, payload: Seq<u8>) -> Seq<u8> {
    block(encode_utf8(fingerprint)) + payload
}

/// The plaintext to hand the key agent for a payload; fails with
/// `InvalidValue` where the fingerprint does not fit a four-byte length.
pub fn bind_fingerprint(fingerprint: &str, payload: &[u8]) -> (r: Result<Vec<u8>, StoreError>)
    ensures
        encode_utf8(fingerprint@).len() <= u32::MAX ==> (r matches Ok(b) && b@ == recipient_plaintext(
            fingerprint@,
            payload@,
        )),
        encode_utf8(fingerprint@).len() > u32::MAX ==> r == Err::<Vec<u8>, StoreError>(StoreError::InvalidValue),
{
    let fp = fingerprint.as_bytes();
    if fp.len() > 0xffff_ffffusize {
        return Err(StoreError::InvalidValue);
    }
    let mut out: Vec<u8> = Vec::new();
    push_block(&mut out, fp);
    let ghost framed = out@;
    let mut i: usize = 0;
    while i < payload.len()
        invariant
            i <= payload@.len(),
            out@ == framed + payload@.subrange(0, i as int),
        decreases payload@.len() - i,
    {
        out.push(payload[i]);
        i = i + 1;
        assert(payload@.subrange(0, i as int) == payload@.subrange(0, i - 1) + seq![payload@[i - 1]]);
    }
    assert(payload@.subrange(0, payload@.len() as int) == payload@);
    Ok(out)
}

fn bytes_eq(a: &[u8], b: &[u8]) -> (r: bool)
    ensures
        r == (a@ == b@),
{
    if a.len() != b.len() {
        return false;
    }
    let mut i: usize = 0;
    while i < a.len()
        invariant
            i <= a@.len(),
            a@.len() == b@.len(),
            forall|j: int| 0 <= j < i ==> a@[j] == b@[j],
        decreases a@.len() - i,
    {
        if a[i] != b[i] {
            return false;
        }
        i = i + 1;
    }
    assert(a@ =~= b@);
    true
}

/// The payload inside what the key agent opened; fails with `Corrupt` where
/// the opened bytes do not name `fingerprint` first.
pub fn unbind_fingerprint(fingerprint: &str, opened: &[u8]) -> (r: Result<Vec<u8>, StoreError>)
    ensures
        match read_block_spec(opened@) {
            Some((f, rest)) => if f == encode_utf8(fingerprint@) {
                r matches Ok(p) && p@ == rest
            } else {
                r == Err::<Vec<u8>, StoreError>(StoreError::Corrupt)
            },
            None => r == Err::<Vec<u8>, StoreError>(StoreError::Corrupt),
        },
{
    match read_block(opened) {
        None => Err(StoreError::Corrupt),
        Some((f, rest)) => if bytes_eq(f.as_slice(), fingerprint.as_bytes()) {
            Ok(rest)
        } else {
            Err(StoreError::Corrupt)
        },
    }
}

/// Takes the envelope and the scheme body off a file.
pub fn open_envelope(file: &[u8]) -> (r: Result<Sealed, StoreError>)
    ensures
        match (r, sealed_spec(file@)) {
            (Ok(s), Ok(m)) => s@ == m,
            (Err(e), Err(f)) => e == f,
            _ => false,
        },
{
    let (scheme, body) = match decode(file) {
        Err(e) => return Err(e),
        Ok(x) => x,
    };
    match scheme {
        Scheme::Passphrase => match read_block(body.as_slice()) {
            Some((s, rest)) => if rest.len() == 0 {
                Ok(Sealed::Passphrase(s))
            } else {
                Err(StoreError::Corrupt)
            },
            None => Err(StoreError::Corrupt),
        },
        Scheme::Recipient => match read_block(body.as_slice()) {
            Some((f, rest)) => match crate::profile::string_from_bytes(f) {
                None => Err(StoreError::Corrupt),
                Some(fp) => match read_block(rest.as_slice()) {
                    Some((c, rest2)) => if rest2.len() == 0 {
                        Ok(Sealed::Recipient(fp, c))
                    } else {
                        Err(StoreError::Corrupt)
                    },
                    None => Err(StoreError::Corrupt),
                },
            },
            None => Err(StoreError::Corrupt),
        },
    }
}

/// Opens a passphrase-sealed block: a wrong passphrase fails with `BadKey`,
/// any other failure with `Corrupt`.
pub fn open_with_passphrase(sealed: &[u8], passphrase: &str) -> (r: Result<Vec<u8>, StoreError>)
    ensures
        match age_opened(sealed@, passphrase@) {
            Ok(p) => r matches Ok(x) && x@ == p,
            Err(true) => r == Err::<Vec<u8>, StoreError>(StoreError::BadKey),
            Err(false) => r == Err::<Vec<u8>, StoreError>(StoreError::Corrupt),
        },
{
    age_open(sealed, passphrase)
}

/// Changing any one byte of the length prefix of a passphrase file (offsets
/// 7 to 10) is caught before anything is decrypted: reading the file fails
/// with `Corrupt`.
pub proof fn lemma_length_tamper_detected(s: Seq<u8>, i: int, b: u8)
    requires
        s.len() <= u32::MAX,
        7 <= i < 11,
        b != passphrase_file(s)[i],
    ensures
        sealed_spec(passphrase_file(s).update(i, b)) == Err::<SealedModel, StoreError>(StoreError::Corrupt),
{
    let f = passphrase_file(s);
    let g = f.update(i, b);
    let body = block(s);
    lemma_envelope_round_trip(Scheme::Passphrase, body);
    assert(f.subrange(0, 4) =~= g.subrange(0, 4));
    let body2 = g.subrange(7, g.len() as int);
    assert(body2 =~= body.update(i - 7, b));
    assert(decode_spec(g) == Ok::<(Scheme, Seq<u8>), StoreError>((Scheme::Passphrase, body2)));
    let n2 = be32_value(body2[0], body2[1], body2[2], body2[3]);
    lemma_be32_inverse(body2[0], body2[1], body2[2], body2[3]);
    if n2 == s.len() as u32 {
        assert(be32_bytes(n2)[i - 7] == body2[i - 7]);
        assert(body[i - 7] == be32_bytes(s.len() as u32)[i - 7]);
        assert(f[i] == body[i - 7]);
        assert(false);
    }
    if body2.len() - 4 >= n2 as int {
        assert(n2 < s.len());
        assert(body2.subrange(4 + n2 as int, body2.len() as int).len() > 0);
    }
}

} // verus!
