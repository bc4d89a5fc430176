use vstd::prelude::*;
use vstd::utf8::{decode_utf8, encode_utf8, valid_utf8};

use crate::cipher::{
    age_opened, open_envelope, open_with_passphrase, passphrase_file, recipient_file, recipient_plaintext,
    seal_with_passphrase, sealed_spec, unbind_fingerprint, Cipher, Sealed, SealedModel, MAX_SEALED_PAYLOAD,
};
use crate::envelope::{identify_spec, lemma_block_round_trip, lemma_envelope_round_trip, read_block_spec, Scheme};
use crate::error::StoreError;
use crate::payload::{lemma_payload_injective, parse, payload_text, serializable, serialize};
use crate::vars::{edited, inserted, removed, Env, EnvModel, EnvVec};

verus! {

broadcast use vstd::utf8::group_utf8_lib;

/// The payload bytes that stand for a set of variables.
pub open spec fn payload_bytes(m: Seq<EnvModel>) -> Seq<u8> {
    encode_utf8(payload_text(m))
}

/// The payload bytes of a set; fails with `InvalidValue` exactly where the
/// set cannot be serialized.
pub fn encode_payload(envs: &EnvVec) -> (r: Result<Vec<u8>, StoreError>)
    requires
        envs.wf(),
    ensures
        r is Ok <==> serializable(envs@),
        r matches Ok(b) ==> b@ == payload_bytes(envs@),
        r matches Err(e) ==> e == StoreError::InvalidValue,
{
    let s = serialize(envs)?;
    Ok(s.as_str().as_bytes_vec())
}

/// Reads payload bytes back into a set of variables; fails with `Corrupt`
/// where the bytes are the payload of no set.
pub fn decode_payload(bytes: Vec<u8>) -> (r: Result<EnvVec, StoreError>)
    ensures
        r matches Ok(v) ==> v.wf() && serializable(v@) && payload_bytes(v@) == bytes@,
        forall|m: Seq<EnvModel>|
            serializable(m) && #[trigger] payload_bytes(m) == bytes@ ==> (r matches Ok(v) && v@ == m),
        r matches Err(e) ==> e == StoreError::Corrupt,
{
    let ghost b = bytes@;
    let s = match string_from_bytes(bytes) {
        None => return Err(StoreError::Corrupt),
        Some(s) => s,
    };
    let r = parse(s.as_str());
    proof {
        assert forall|m: Seq<EnvModel>| serializable(m) && #[trigger] payload_bytes(m) == b
            implies payload_text(m) == s@ by {
        }
    }
    r
}

/// Relies on `String::from_utf8`: it accepts exactly the valid UTF-8 byte
/// strings and keeps their characters.
#[verifier::external_body]
pub(crate) fn string_from_bytes(b: Vec<u8>) -> (r: Option<String>)
    ensures
        r is Some <==> valid_utf8(b@),
        r matches Some(s) ==> s@ == decode_utf8(b@),
{
    String::from_utf8(b).ok()
}

/// A named set of variables, where it is stored, and the key material that
/// seals it.
#[derive(Debug)]
pub struct Profile {
    pub name: String,
    pub path: String,
    pub envs: EnvVec,
    pub cipher: Cipher,
}

impl Profile {
    pub open spec fn wf(&self) -> bool {
        self.envs.wf()
    }

    /// A profile in memory; nothing is written.
    pub fn new(name: String, envs: EnvVec, path: String, cipher: Cipher) -> (r: Profile)
        ensures
            r.name == name,
            r.envs == envs,
            r.path == path,
            r.cipher == cipher,
    {
        Profile { name, path, envs, cipher }
    }

    /// Appends a variable; fails with `Duplicate` where the name is taken.
    pub fn insert_env(&mut self, name: String, value: String) -> (r: Result<(), StoreError>)
        requires
            old(self).wf(),
        ensures
            final(self).wf(),
            final(self).name == old(self).name,
            final(self).path == old(self).path,
            final(self).cipher == old(self).cipher,
            match inserted(
                old(self).envs@,
                EnvModel { name: name@, value: value@, comment: None, expires: None },
            ) {
                Ok(m) => r is Ok && final(self).envs@ == m,
                Err(e) => r == Err::<(), StoreError>(e) && final(self).envs@ == old(self).envs@,
            },
    {
        self.envs.insert(Env::new(name, value, None, None))
    }

    /// Gives a variable a new value in place; fails with `Missing` where
    /// there is none of that name.
    pub fn edit_env(&mut self, name: String, value: String) -> (r: Result<(), StoreError>)
        requires
            old(self).wf(),
        ensures
            final(self).wf(),
            final(self).name == old(self).name,
            final(self).path == old(self).path,
            final(self).cipher == old(self).cipher,
            match edited(old(self).envs@, name@, value@) {
                Ok(m) => r is Ok && final(self).envs@ == m,
                Err(e) => r == Err::<(), StoreError>(e) && final(self).envs@ == old(self).envs@,
            },
    {
        self.envs.edit(name.as_str(), value)
    }

    /// Removes a variable; fails with `Missing` where there is none of that
    /// name.
    pub fn remove_env(&mut self, name: &str) -> (r: Result<(), StoreError>)
        requires
            old(self).wf(),
        ensures
            final(self).wf(),
            final(self).name == old(self).name,
            final(self).path == old(self).path,
            final(self).cipher == old(self).cipher,
            match removed(old(self).envs@, name@) {
                Ok(m) => r is Ok && final(self).envs@ == m,
                Err(e) => r == Err::<(), StoreError>(e) && final(self).envs@ == old(self).envs@,
            },
    {
        self.envs.remove(name)
    }

    /// The payload bytes of this profile's variables.
    pub fn payload(&self) -> (r: Result<Vec<u8>, StoreError>)
        requires
            self.wf(),
        ensures
            r is Ok <==> serializable(self.envs@),
            r matches Ok(b) ==> b@ == payload_bytes(self.envs@),
            r matches Err(e) ==> e == StoreError::InvalidValue,
    {
        encode_payload(&self.envs)
    }

    /// The complete file of a profile sealed with its passphrase, checked to
    /// open again to the profile's payload. A variable that cannot be
    /// serialized fails with `InvalidValue` before anything is encrypted; a
    /// block that does not open again to the payload fails with `Corrupt`.
    /// A profile of the recipient scheme fails with `AgentUnavailable`: its
    /// key agent is reached through `payload`, `bind_fingerprint` and
    /// `seal_with_recipient`.
    pub fn seal(&self) -> (r: Result<Vec<u8>, StoreError>)
        requires
            self.wf(),
        ensures
            match self.cipher {
                Cipher::Recipient(_) => r == Err::<Vec<u8>, StoreError>(StoreError::AgentUnavailable),
                Cipher::Passphrase(pass) => {
                    &&& !serializable(self.envs@) ==> r == Err::<Vec<u8>, StoreError>(StoreError::InvalidValue)
                    &&& serializable(self.envs@) && payload_bytes(self.envs@).len() <= MAX_SEALED_PAYLOAD
                        ==> (r is Ok || r == Err::<Vec<u8>, StoreError>(StoreError::Corrupt))
                    &&& r matches Ok(f) ==> exists|s: Seq<u8>|
                        s.len() <= u32::MAX && f@ == passphrase_file(s) && age_opened(s, pass@) == Ok::<
                            Seq<u8>,
                            bool,
                        >(payload_bytes(self.envs@))
                    &&& r matches Err(e) ==> e == StoreError::InvalidValue || e == StoreError::Corrupt
                },
            },
    {
        match &self.cipher {
            Cipher::Recipient(_) => Err(StoreError::AgentUnavailable),
            Cipher::Passphrase(pass) => {
                let p = self.payload()?;
                seal_with_passphrase(p.as_slice(), pass.as_str())
            },
        }
    }

    /// A profile from the plaintext that its cipher opened, or the failure
    /// of the opening passed on.
    pub fn from_plaintext(name: String, path: String, cipher: Cipher, opened: Result<Vec<u8>, StoreError>) -> (r:
        Result<Profile, StoreError>)
        ensures
            match opened {
                Err(e) => r == Err::<Profile, StoreError>(e),
                Ok(p) => {
                    &&& r matches Ok(prof) ==> prof.wf() && serializable(prof.envs@) && payload_bytes(
                        prof.envs@,
                    ) == p@ && prof.name == name && prof.path == path && prof.cipher == cipher
                    &&& forall|m: Seq<EnvModel>|
                        serializable(m) && #[trigger] payload_bytes(m) == p@ ==> (r matches Ok(prof)
                            && prof.envs@ == m)
                    &&& r matches Err(e) ==> e == StoreError::Corrupt
                },
            },
    {
        let p = match opened {
            Err(e) => return Err(e),
            Ok(p) => p,
        };
        let envs = decode_payload(p)?;
        Ok(Profile { name, path, envs, cipher })
    }

    /// A profile of the recipient scheme from what the key agent opened: the
    /// fingerprint that the file records must lead the opened bytes, and the
    /// rest must be a payload. The agent's failure is passed on.
    pub fn from_agent(name: String, path: String, fingerprint: String, opened: Result<Vec<u8>, StoreError>) -> (r:
        Result<Profile, StoreError>)
        ensures
            match opened {
                Err(e) => r == Err::<Profile, StoreError>(e),
                Ok(o) => match read_block_spec(o@) {
                    Some((f, p)) => if f == encode_utf8(fingerprint@) {
                        &&& r matches Ok(prof) ==> prof.wf() && serializable(prof.envs@) && payload_bytes(
                            prof.envs@,
                        ) == p && prof.name == name && prof.path == path && prof.cipher == Cipher::Recipient(
                            fingerprint,
                        )
                        &&& forall|m: Seq<EnvModel>|
                            serializable(m) && #[trigger] payload_bytes(m) == p ==> (r matches Ok(prof)
                                && prof.envs@ == m)
                        &&& r matches Err(e) ==> e == StoreError::Corrupt
                    } else {
                        r == Err::<Profile, StoreError>(StoreError::Corrupt)
                    },
                    None => r == Err::<Profile, StoreError>(StoreError::Corrupt),
                },
            },
    {
        let o = match opened {
            Err(e) => return Err(e),
            Ok(o) => o,
        };
        let p = unbind_fingerprint(fingerprint.as_str(), o.as_slice());
        Profile::from_plaintext(name, path, Cipher::Recipient(fingerprint), p)
    }

    /// Loads a profile of the passphrase scheme from its file: the envelope
    /// is read, the block opened with the passphrase and the payload parsed.
    /// A file of the recipient scheme fails with `BadKey`: a passphrase does
    /// not open it.
    pub fn load_with_passphrase(name: String, path: String, file: &[u8], passphrase: String) -> (r: Result<
        Profile,
        StoreError,
    >)
        ensures
            match sealed_spec(file@) {
                Err(e) => r == Err::<Profile, StoreError>(e),
                Ok(SealedModel::Recipient(_, _)) => r == Err::<Profile, StoreError>(StoreError::BadKey),
                Ok(SealedModel::Passphrase(s)) => match age_opened(s, passphrase@) {
                    Err(true) => r == Err::<Profile, StoreError>(StoreError::BadKey),
                    Err(false) => r == Err::<Profile, StoreError>(StoreError::Corrupt),
                    Ok(p) => {
                        &&& r matches Ok(prof) ==> prof.wf() && serializable(prof.envs@) && payload_bytes(
                            prof.envs@,
                        ) == p && prof.name == name && prof.path == path
                        &&& forall|m: Seq<EnvModel>|
                            serializable(m) && #[trigger] payload_bytes(m) == p ==> (r matches Ok(prof)
                                && prof.envs@ == m)
                        &&& r matches Err(e) ==> e == StoreError::Corrupt
                    },
                },
            },
    {
        let sealed = match open_envelope(file)? {
            Sealed::Recipient(_, _) => return Err(StoreError::BadKey),
            Sealed::Passphrase(s) => s,
        };
        let opened = open_with_passphrase(sealed.as_slice(), passphrase.as_str());
        Profile::from_plaintext(name, path, Cipher::Passphrase(passphrase), opened)
    }
}

/// A file sealed either way reads back, envelope and scheme body taken off,
/// as what was sealed into it.
pub proof fn lemma_sealed_round_trip(s: Seq<u8>, fingerprint: Seq<char>, c: Seq<u8>)
    requires
        s.len() <= u32::MAX,
        encode_utf8(fingerprint).len() <= u32::MAX,
        c.len() <= u32::MAX,
    ensures
        sealed_spec(passphrase_file(s)) == Ok::<SealedModel, StoreError>(SealedModel::Passphrase(s)),
        sealed_spec(recipient_file(fingerprint, c)) == Ok::<SealedModel, StoreError>(
            SealedModel::Recipient(fingerprint, c),
        ),
{
    let pb = crate::envelope::block(s);
    lemma_envelope_round_trip(Scheme::Passphrase, pb);
    lemma_block_round_trip(s, Seq::<u8>::empty());
    assert(pb + Seq::<u8>::empty() =~= pb);
    let fb = encode_utf8(fingerprint);
    let cb = crate::envelope::block(c);
    let rb = crate::envelope::block(fb) + cb;
    lemma_envelope_round_trip(Scheme::Recipient, rb);
    lemma_block_round_trip(fb, cb);
    lemma_block_round_trip(c, Seq::<u8>::empty());
    assert(cb + Seq::<u8>::empty() =~= cb);
}

/// What is persisted loads back unchanged, as far as this library goes: a
/// file sealed either way gives back exactly the bytes sealed into it, and
/// a set read back from the payload bytes of a serializable set is that set.
/// Between the two stands the cipher, which must open what it sealed.
pub proof fn lemma_persist_load_round_trip(
    m: Seq<EnvModel>,
    v: Seq<EnvModel>,
    s: Seq<u8>,
    fingerprint: Seq<char>,
    c: Seq<u8>,
)
    requires
        serializable(m),
        serializable(v),
        payload_bytes(v) == payload_bytes(m),
        s.len() <= u32::MAX,
        encode_utf8(fingerprint).len() <= u32::MAX,
        c.len() <= u32::MAX,
    ensures
        v == m,
        read_block_spec(recipient_plaintext(fingerprint, payload_bytes(m))) == Some(
            (encode_utf8(fingerprint), payload_bytes(m)),
        ),
        sealed_spec(passphrase_file(s)) == Ok::<SealedModel, StoreError>(SealedModel::Passphrase(s)),
        sealed_spec(recipient_file(fingerprint, c)) == Ok::<SealedModel, StoreError>(
            SealedModel::Recipient(fingerprint, c),
        ),
{
    lemma_sealed_round_trip(s, fingerprint, c);
    lemma_block_round_trip(encode_utf8(fingerprint), payload_bytes(m));
    assert(payload_text(v) == decode_utf8(payload_bytes(v)));
    assert(payload_text(m) == decode_utf8(payload_bytes(m)));
    lemma_payload_injective(v, m);
}

/// A file that `Profile::seal` produced loads back, with the same
/// passphrase, as exactly the set it sealed: the envelope gives back the
/// sealed block, the block opens to the set's payload, and no other
/// serializable set has that payload.
pub proof fn lemma_seal_then_load(m: Seq<EnvModel>, s: Seq<u8>, passphrase: Seq<char>)
    requires
        serializable(m),
        s.len() <= u32::MAX,
        age_opened(s, passphrase) == Ok::<Seq<u8>, bool>(payload_bytes(m)),
    ensures
        sealed_spec(passphrase_file(s)) == Ok::<SealedModel, StoreError>(SealedModel::Passphrase(s)),
        age_opened(s, passphrase) matches Ok(p) && forall|v: Seq<EnvModel>|
            serializable(v) && #[trigger] payload_bytes(v) == p ==> v == m,
{
    lemma_sealed_round_trip(s, Seq::<char>::empty(), Seq::<u8>::empty());
    assert forall|v: Seq<EnvModel>| serializable(v) && #[trigger] payload_bytes(v) == payload_bytes(m)
        implies v == m by {
        lemma_persist_load_round_trip(m, v, s, Seq::<char>::empty(), Seq::<u8>::empty());
    }
}

/// A recipient file whose recorded fingerprint was changed does not load:
/// what the agent opens still names the fingerprint it was sealed for, which
/// is not the one the file now records.
pub proof fn lemma_fingerprint_tamper_detected(fingerprint: Seq<char>, recorded: Seq<char>, p: Seq<u8>)
    requires
        fingerprint != recorded,
        encode_utf8(fingerprint).len() <= u32::MAX,
    ensures
        read_block_spec(recipient_plaintext(fingerprint, p)) == Some((encode_utf8(fingerprint), p)),
        encode_utf8(fingerprint) != encode_utf8(recorded),
{
    lemma_block_round_trip(encode_utf8(fingerprint), p);
    assert(decode_utf8(encode_utf8(fingerprint)) == fingerprint);
    assert(decode_utf8(encode_utf8(recorded)) == recorded);
}

/// Every file that sealing produces names its own scheme: identification,
/// which needs no key material, sends a passphrase file to the passphrase
/// and a recipient file to the key agent.
pub proof fn lemma_identify_sealed(s: Seq<u8>, fingerprint: Seq<char>, c: Seq<u8>)
    ensures
        identify_spec(passphrase_file(s)) == Ok::<Scheme, StoreError>(Scheme::Passphrase),
        identify_spec(recipient_file(fingerprint, c)) == Ok::<Scheme, StoreError>(Scheme::Recipient),
{
    lemma_envelope_round_trip(Scheme::Passphrase, crate::envelope::block(s));
    lemma_envelope_round_trip(
        Scheme::Recipient,
        crate::envelope::block(encode_utf8(fingerprint)) + crate::envelope::block(c),
    );
}

} // verus!
