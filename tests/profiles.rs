use envio::cipher::{bind_fingerprint, open_envelope, seal_with_recipient, unbind_fingerprint, Cipher, Sealed, MAX_SEALED_PAYLOAD};
use envio::date::Date;
use envio::envelope::{identify, Scheme};
use envio::error::StoreError;
use envio::profile::{decode_payload, encode_payload, Profile};
use envio::store::{expired_names, export_text, profile_file_name, profile_names, sort_names};
use envio::vars::{Env, EnvVec};

fn dev_profile() -> Profile {
    let mut p = Profile::new(
        "dev".to_string(),
        EnvVec::new(),
        "/tmp/profiles/dev.env".to_string(),
        Cipher::Passphrase("hunter2xy".to_string()),
    );
    p.insert_env("DATABASE_URL".to_string(), "postgres://x".to_string()).unwrap();
    p
}

fn load(file: &[u8], pass: &str) -> Result<Profile, StoreError> {
    Profile::load_with_passphrase("dev".to_string(), "/tmp/profiles/dev.env".to_string(), file, pass.to_string())
}

#[test]
fn passphrase_profile_round_trip() {
    let file = dev_profile().seal().unwrap();
    assert_eq!(&file[..7], b"ENV1\x01\0\0");
    assert_eq!(identify(&file), Ok(Scheme::Passphrase));
    let p = load(&file, "hunter2xy").unwrap();
    assert_eq!(p.envs.keys(), vec!["DATABASE_URL"]);
    assert_eq!(p.envs.get("DATABASE_URL"), Some(&"postgres://x".to_string()));
    assert_eq!(p.name, "dev");
}

#[test]
fn wrong_passphrase_is_bad_key() {
    let file = dev_profile().seal().unwrap();
    assert!(matches!(load(&file, "wrong!pass"), Err(StoreError::BadKey)));
}

#[test]
fn corrupt_last_byte_is_corrupt() {
    let mut file = dev_profile().seal().unwrap();
    let n = file.len();
    file[n - 1] ^= 0x01;
    assert!(matches!(load(&file, "hunter2xy"), Err(StoreError::Corrupt)));
}

#[test]
fn tampering_never_loads() {
    let file = dev_profile().seal().unwrap();
    for &at in &[7usize, 9, 11, 40, file.len() / 2, file.len() - 20] {
        let mut f = file.clone();
        f[at] ^= 0x40;
        match load(&f, "hunter2xy") {
            Err(StoreError::Corrupt) | Err(StoreError::BadKey) => {}
            other => panic!("byte {} flipped gave {:?}", at, other.map(|p| p.envs.keys())),
        }
    }
}

#[test]
fn sealing_rejects_invalid_values_first() {
    let mut p = dev_profile();
    p.insert_env("BAD".to_string(), "a=b".to_string()).unwrap();
    assert_eq!(p.seal(), Err(StoreError::InvalidValue));
}

#[test]
fn passphrase_cannot_open_recipient_file() {
    let file = seal_with_recipient("DEADBEEFCAFEBABE", Ok(vec![1, 2, 3])).unwrap();
    assert!(matches!(load(&file, "hunter2xy"), Err(StoreError::BadKey)));
}

fn three_vars() -> EnvVec {
    let mut envs = EnvVec::new();
    envs.insert(Env::new("A".to_string(), "1".to_string(), None, None)).unwrap();
    envs.insert(Env::new("B".to_string(), "two".to_string(), Some("note".to_string()), None)).unwrap();
    envs.insert(Env::new("C".to_string(), "".to_string(), None, Some(Date::from_ymd(2031, 7, 1).unwrap())))
        .unwrap();
    envs
}

// The key agent is stood in for by a reversible transformation.
fn agent_seal(plaintext: &[u8]) -> Result<Vec<u8>, StoreError> {
    Ok(plaintext.iter().map(|b| b ^ 0x5a).collect())
}

fn agent_open(ciphertext: &[u8]) -> Result<Vec<u8>, StoreError> {
    Ok(ciphertext.iter().map(|b| b ^ 0x5a).collect())
}

fn prod_file() -> Vec<u8> {
    let prod = Profile::new(
        "prod".to_string(),
        three_vars(),
        "p".to_string(),
        Cipher::Recipient("DEADBEEFCAFEBABE".to_string()),
    );
    let payload = prod.payload().unwrap();
    let plaintext = bind_fingerprint("DEADBEEFCAFEBABE", &payload).unwrap();
    seal_with_recipient("DEADBEEFCAFEBABE", agent_seal(&plaintext)).unwrap()
}

fn load_prod(file: &[u8]) -> Result<Profile, StoreError> {
    let (fp, ct) = match open_envelope(file)? {
        Sealed::Recipient(fp, ct) => (fp, ct),
        Sealed::Passphrase(_) => panic!("wrong scheme"),
    };
    Profile::from_agent("prod".to_string(), "p".to_string(), fp, agent_open(&ct))
}

#[test]
fn recipient_profile_round_trip() {
    let file = prod_file();
    assert_eq!(identify(&file), Ok(Scheme::Recipient));
    assert_eq!(&file[7..11], &[0, 0, 0, 16]);
    assert_eq!(&file[11..27], b"DEADBEEFCAFEBABE");
    let p = load_prod(&file).unwrap();
    assert_eq!(p.envs.keys(), vec!["A", "B", "C"]);
    assert_eq!(p.envs.get("B"), Some(&"two".to_string()));
    assert_eq!(p.envs.entries()[1].comment.as_deref(), Some("note"));
    assert_eq!(p.envs.entries()[2].expiration_date, Some(Date { year: 2031, month: 7, day: 1 }));
    assert!(matches!(p.cipher, Cipher::Recipient(ref f) if f == "DEADBEEFCAFEBABE"));
}

#[test]
fn changed_fingerprint_record_does_not_load() {
    let mut file = prod_file();
    file[11] = b'F';
    assert!(matches!(load_prod(&file), Err(StoreError::Corrupt)));
}

#[test]
fn fingerprint_binding() {
    let b = bind_fingerprint("AB", b"X=1\n").unwrap();
    assert_eq!(b, b"\0\0\0\x02ABX=1\n".to_vec());
    assert_eq!(unbind_fingerprint("AB", &b), Ok(b"X=1\n".to_vec()));
    assert_eq!(unbind_fingerprint("AC", &b), Err(StoreError::Corrupt));
    assert_eq!(unbind_fingerprint("AB", b"\0\0"), Err(StoreError::Corrupt));
}

#[test]
fn sealing_limit_is_large() {
    assert_eq!(MAX_SEALED_PAYLOAD, 0xF000_0000);
}

#[test]
fn agent_failure_is_passed_on() {
    assert_eq!(
        seal_with_recipient("DEADBEEFCAFEBABE", Err(StoreError::AgentUnavailable)),
        Err(StoreError::AgentUnavailable)
    );
    let r = Profile::from_agent("p".to_string(), "p".to_string(), "F".to_string(), Err(StoreError::AgentUnavailable));
    assert!(matches!(r, Err(StoreError::AgentUnavailable)));
}

#[test]
fn recipient_body_errors_are_corrupt() {
    assert!(matches!(open_envelope(b"ENV1\x02\0\0\0\0\0\x05ab"), Err(StoreError::Corrupt)));
    assert!(matches!(open_envelope(b"ENV1\x02\0\0\0\0\0\x01\xff\0\0\0\0"), Err(StoreError::Corrupt)));
    assert!(matches!(open_envelope(b"ENV1\x01\0\0\0\0\0\x01ab"), Err(StoreError::Corrupt)));
    assert!(matches!(open_envelope(b"XNV1\x01\0\0"), Err(StoreError::BadEnvelope)));
}

#[test]
fn payload_bytes_round_trip() {
    let mut envs = EnvVec::new();
    envs.insert(Env::new("K".to_string(), "é".to_string(), None, None)).unwrap();
    let b = encode_payload(&envs).unwrap();
    assert_eq!(b, "K=é\n".as_bytes().to_vec());
    let back = decode_payload(b).unwrap();
    assert_eq!(back.get("K"), Some(&"é".to_string()));
    assert!(matches!(decode_payload(vec![0xff, b'\n']), Err(StoreError::Corrupt)));
}

#[test]
fn export_selected_only() {
    let mut p = dev_profile();
    p.insert_env("OTHER".to_string(), "1".to_string()).unwrap();
    let text = export_text(&p.envs, &vec!["DATABASE_URL".to_string()]).unwrap();
    assert_eq!(text, "DATABASE_URL=postgres://x\n");
    assert_eq!(export_text(&p.envs, &vec![]).unwrap(), "DATABASE_URL=postgres://x\nOTHER=1\n");
    assert_eq!(export_text(&p.envs, &vec!["NOPE".to_string()]), Err(StoreError::Missing));
    assert_eq!(export_text(&EnvVec::new(), &vec![]), Err(StoreError::Missing));
}

#[test]
fn listing_skips_hidden_and_foreign_files() {
    let files: Vec<String> = vec!["dev.env", ".hidden.env", "notes.txt", "prod.env"]
        .into_iter()
        .map(String::from)
        .collect();
    assert_eq!(profile_names(&files), vec!["dev", "prod"]);
    let more: Vec<String> = vec![".env", "a.b.env", "x.envy", "env", "y.ENV"].into_iter().map(String::from).collect();
    assert_eq!(profile_names(&more), vec!["a.b"]);
}

#[test]
fn profile_file_names() {
    assert_eq!(profile_file_name("dev"), Ok("dev.env".to_string()));
    assert_eq!(profile_file_name(".dev"), Err(StoreError::InvalidValue));
    assert_eq!(profile_file_name("a/b"), Err(StoreError::InvalidValue));
    assert_eq!(profile_file_name("a\\b"), Err(StoreError::InvalidValue));
    assert_eq!(profile_file_name(""), Err(StoreError::InvalidValue));
    let listed = profile_names(&vec![profile_file_name("staging").unwrap()]);
    assert_eq!(listed, vec!["staging"]);
}

#[test]
fn expired_variables() {
    let mut envs = EnvVec::new();
    envs.insert(Env::new("OLD".to_string(), "1".to_string(), None, Some(Date::from_ymd(2020, 1, 1).unwrap()))).unwrap();
    envs.insert(Env::new("NONE".to_string(), "1".to_string(), None, None)).unwrap();
    envs.insert(Env::new("TODAY".to_string(), "1".to_string(), None, Some(Date::from_ymd(2024, 6, 1).unwrap()))).unwrap();
    envs.insert(Env::new("LATER".to_string(), "1".to_string(), None, Some(Date::from_ymd(2024, 6, 2).unwrap()))).unwrap();
    let today = Date::from_ymd(2024, 6, 1).unwrap();
    assert_eq!(expired_names(&envs, &today), vec!["OLD", "TODAY"]);
}

#[test]
fn edit_and_remove_through_profile() {
    let mut p = dev_profile();
    p.edit_env("DATABASE_URL".to_string(), "postgres://y".to_string()).unwrap();
    assert_eq!(p.envs.get("DATABASE_URL"), Some(&"postgres://y".to_string()));
    assert_eq!(p.edit_env("NOPE".to_string(), "1".to_string()), Err(StoreError::Missing));
    assert_eq!(p.insert_env("DATABASE_URL".to_string(), "z".to_string()), Err(StoreError::Duplicate));
    p.remove_env("DATABASE_URL").unwrap();
    assert!(p.envs.is_empty());
    assert_eq!(p.remove_env("DATABASE_URL"), Err(StoreError::Missing));
    assert_eq!(p.payload().unwrap(), Vec::<u8>::new());
}

#[test]
fn listing_sorts_names() {
    let files: Vec<String> = vec!["prod.env", "dev.env", "b.env", "ab.env", "a.env", "dev2.env"]
        .into_iter()
        .map(String::from)
        .collect();
    assert_eq!(sort_names(profile_names(&files)), vec!["a", "ab", "b", "dev", "dev2", "prod"]);
    assert_eq!(sort_names(vec!["x".to_string(), "x".to_string()]), vec!["x", "x"]);
}

#[test]
fn recipient_profile_is_not_sealed_with_a_passphrase() {
    let p = Profile::new("p".to_string(), EnvVec::new(), "p".to_string(), Cipher::Recipient("F".to_string()));
    assert_eq!(p.seal(), Err(StoreError::AgentUnavailable));
}
