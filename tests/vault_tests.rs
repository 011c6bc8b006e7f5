use vault::{
    close_vault, decode_vault, encode_vault, handle_add_cmd, handle_delete_key,
    handle_delete_vault_cmd, handle_list_cmd, handle_new_vault_cmd, handle_val_for_key_cmd,
    key_secret_file, load_keygen, make_new_key, open_sealed, open_vault, seal_vault,
    vault_file_name, Entry, SecretKey, Vault, VaultError, VaultErrorKind, VaultFiles, VaultKeyName,
};

fn no_files() -> VaultFiles {
    VaultFiles { key_file: None, vault_file: None }
}

fn new_vault(name: &str) -> VaultFiles {
    let mut files = no_files();
    assert!(handle_new_vault_cmd(name, &mut files).is_ok());
    files
}

fn entry(k: &str, v: &str) -> Entry {
    Entry { key: k.to_string(), value: v.to_string() }
}

fn sample_vault() -> Vault {
    let mut v = Vault::new("sample");
    v.add_entry(entry("name", "fred"));
    v.add_entry(entry("quote\"back\\slash", "tab\tnew\nline\u{1}\u{1f}"));
    v.add_entry(entry("unicode é 中", "emoji 🙂"));
    v.add_entry(entry("", ""));
    v
}

fn same_vault(a: &Vault, b: &Vault) -> bool {
    a.name == b.name
        && a.entries.len() == b.entries.len()
        && a.entries.iter().zip(b.entries.iter()).all(|(x, y)| x.key == y.key && x.value == y.value)
}

fn key_error<T>(r: Result<T, VaultError>) -> VaultErrorKind {
    match r {
        Ok(_) => panic!("expected an error"),
        Err(e) => e.kind,
    }
}

fn fresh_key() -> SecretKey {
    let mut files = no_files();
    make_new_key(&mut files)
}

#[test]
fn read_secret_key() {
    let name = "xxx";
    let mut files = no_files();
    let k = make_new_key(&mut files);
    let x = load_keygen(files.key_file.as_ref().unwrap()).unwrap();
    assert!(k == x);
    assert_eq!(VaultKeyName::key_from_name(name), "xxx.vlt.key");
}

#[test]
fn new_vault_created() {
    let files = new_vault("test1");
    assert_eq!(VaultKeyName::key_from_name("test1"), "test1.vlt.key");
    assert_eq!(vault_file_name("test1"), "test1.vlt");
    assert!(files.key_file.is_some());
    assert!(files.vault_file.is_some());
}

#[test]
fn add_entry_read_back() {
    let mut files = new_vault("test2");
    assert!(handle_add_cmd(&mut files, "name", "fred").is_ok());
    let r = handle_val_for_key_cmd(&files, "name");
    assert!(r.is_ok());
    let val = r.unwrap();
    assert_eq!(val, "fred".to_string());
}

#[test]
fn add_entry_delete_it_try_read_back() {
    let mut files = new_vault("test3");
    assert!(handle_add_cmd(&mut files, "name", "fred").is_ok());
    let r = handle_val_for_key_cmd(&files, "name");
    assert!(r.is_ok());
    assert_eq!(r.unwrap(), "fred".to_string());
    let r = handle_delete_key(&mut files, "name");
    assert!(r.is_ok());
    let r = handle_val_for_key_cmd(&files, "name");
    match r {
        Ok(_) => {
            assert!(false)
        }
        Err(s) => {
            assert_eq!(s.reason, "No such key in this vault".to_string())
        }
    }
}

#[test]
fn seal_then_open_gives_the_vault_back() {
    let key = fresh_key();
    let v = sample_vault();
    let sealed = seal_vault(&key, &v).unwrap();
    let back = open_sealed(&key, &sealed).unwrap();
    assert!(same_vault(&v, &back));
}

#[test]
fn sealed_bytes_hide_the_text_and_add_forty_bytes() {
    let key = fresh_key();
    let v = sample_vault();
    let text = encode_vault(&v);
    let sealed = seal_vault(&key, &v).unwrap();
    assert_eq!(sealed.len(), text.len() + 40);
    assert!(!sealed.windows(text.len()).any(|w| w == text.as_slice()));
    let again = seal_vault(&key, &v).unwrap();
    assert_ne!(sealed, again);
}

#[test]
fn flipping_any_byte_fails_authentication() {
    let key = fresh_key();
    let mut v = Vault::new("t");
    v.add_entry(entry("k", "v"));
    let sealed = seal_vault(&key, &v).unwrap();
    for i in 0..sealed.len() {
        let mut bad = sealed.clone();
        bad[i] ^= 0x01;
        let r = open_sealed(&key, &bad);
        assert_eq!(r.unwrap_err().kind, VaultErrorKind::AuthFailed);
    }
}

#[test]
fn wrong_key_fails_authentication() {
    let k1 = fresh_key();
    let k2 = fresh_key();
    assert!(k1 != k2);
    let sealed = seal_vault(&k1, &sample_vault()).unwrap();
    assert_eq!(open_sealed(&k2, &sealed).unwrap_err().kind, VaultErrorKind::AuthFailed);
}

#[test]
fn adding_the_same_entry_twice_is_adding_it_once() {
    let mut once = sample_vault();
    once.add_entry(entry("name", "barney"));
    let mut twice = sample_vault();
    twice.add_entry(entry("name", "barney"));
    twice.add_entry(entry("name", "barney"));
    assert!(same_vault(&once, &twice));
    assert_eq!(twice.entries.len(), 4);
    assert_eq!(twice.get("name"), Some("barney".to_string()));
}

#[test]
fn new_then_load_is_empty() {
    let files = new_vault("v1");
    let v = open_vault(&files).unwrap();
    assert_eq!(v.name, "v1");
    assert!(v.entries.is_empty());
}

#[test]
fn get_missing_on_fresh_vault_leaves_file_alone() {
    let files = new_vault("test3");
    let before = files.vault_file.clone();
    let r = handle_val_for_key_cmd(&files, "missing");
    let e = r.unwrap_err();
    assert_eq!(e.kind, VaultErrorKind::NoSuchKey);
    assert_eq!(e.reason, "No such key in this vault");
    assert_eq!(files.vault_file, before);
}

#[test]
fn stored_key_loads_bit_for_bit() {
    let mut files = no_files();
    let k = make_new_key(&mut files);
    assert_eq!(k.as_bytes().len(), 32);
    let x = load_keygen(files.key_file.as_ref().unwrap()).unwrap();
    assert_eq!(k.as_bytes(), x.as_bytes());
}

#[test]
fn key_file_of_wrong_length_is_invalid() {
    assert_eq!(key_error(load_keygen(&[7u8; 31])), VaultErrorKind::KeyInvalid);
    assert_eq!(key_error(load_keygen(&[7u8; 33])), VaultErrorKind::KeyInvalid);
    assert_eq!(key_error(load_keygen(&[])), VaultErrorKind::KeyInvalid);
    assert!(load_keygen(&[7u8; 32]).is_ok());
}

#[test]
fn missing_files_are_not_found() {
    assert_eq!(open_vault(&no_files()).unwrap_err().kind, VaultErrorKind::NotFound);
    let mut files = new_vault("a");
    files.vault_file = None;
    assert_eq!(open_vault(&files).unwrap_err().kind, VaultErrorKind::NotFound);
    let r = key_secret_file("a", &no_files());
    assert_eq!(key_error(r), VaultErrorKind::NotFound);
}

#[test]
fn key_secret_file_names_both_files() {
    let files = new_vault("box");
    let (kn, k, vn) = key_secret_file("box", &files).unwrap();
    assert_eq!(kn, "box.vlt.key");
    assert_eq!(vn, "box.vlt");
    assert_eq!(k.as_bytes(), files.key_file.as_ref().unwrap().as_slice());
}

#[test]
fn authentic_payload_that_is_no_vault_is_a_decode_error() {
    let key = fresh_key();
    let sk = orion::aead::SecretKey::from_slice(key.as_bytes()).unwrap();
    let sealed = orion::aead::seal(&sk, b"{\"name\": \"x\", \"entries\": {}}").unwrap();
    assert_eq!(open_sealed(&key, &sealed).unwrap_err().kind, VaultErrorKind::Decode);
    let sealed = orion::aead::seal(&sk, b"{\"name\":\"x\",\"entries\":{}}").unwrap();
    let v = open_sealed(&key, &sealed).unwrap();
    assert_eq!(v.name, "x");
}

#[test]
fn delete_of_unknown_key_still_rewrites() {
    let mut files = new_vault("d");
    assert!(handle_add_cmd(&mut files, "a", "1").is_ok());
    let before = files.vault_file.clone();
    let e = handle_delete_key(&mut files, "zzz").unwrap_err();
    assert_eq!(e.kind, VaultErrorKind::UnknownKey);
    assert_eq!(e.reason, "Unknown key");
    assert_ne!(files.vault_file, before);
    assert_eq!(handle_val_for_key_cmd(&files, "a").unwrap(), "1");
}

#[test]
fn list_gives_keys_one_per_line() {
    let mut files = new_vault("l");
    assert_eq!(handle_list_cmd(&files).unwrap(), "");
    assert!(handle_add_cmd(&mut files, "b", "2").is_ok());
    assert!(handle_add_cmd(&mut files, "a", "1").is_ok());
    assert!(handle_add_cmd(&mut files, "b", "3").is_ok());
    assert_eq!(handle_list_cmd(&files).unwrap(), "b\na\n");
}

#[test]
fn delete_vault_removes_both_files() {
    let mut files = new_vault("gone");
    assert!(handle_delete_vault_cmd(&mut files).is_ok());
    assert!(files.key_file.is_none() && files.vault_file.is_none());
    let e = handle_delete_vault_cmd(&mut files).unwrap_err();
    assert_eq!(e.kind, VaultErrorKind::NotFound);
}

#[test]
fn delete_vault_without_payload_removes_key_and_fails() {
    let mut files = new_vault("half");
    files.vault_file = None;
    let e = handle_delete_vault_cmd(&mut files).unwrap_err();
    assert_eq!(e.kind, VaultErrorKind::NotFound);
    assert!(files.key_file.is_none());
}

#[test]
fn close_vault_needs_an_existing_payload() {
    let mut files = new_vault("c");
    let mut v = open_vault(&files).unwrap();
    v.add_entry(entry("x", "y"));
    files.vault_file = None;
    assert_eq!(close_vault(v, &mut files).unwrap_err().kind, VaultErrorKind::NotFound);
    assert!(files.vault_file.is_none());
}

#[test]
fn canonical_text_is_exact() {
    let mut v = Vault::new("n");
    v.add_entry(entry("a", "b\"c"));
    v.add_entry(entry("d", "\u{8}\u{c}\u{1}\\"));
    let text = String::from_utf8(encode_vault(&v)).unwrap();
    assert_eq!(
        text,
        "{\"name\":\"n\",\"entries\":{\"a\":\"b\\\"c\",\"d\":\"\\b\\f\\u0001\\\\\"}}"
    );
    let empty = String::from_utf8(encode_vault(&Vault::new(""))).unwrap();
    assert_eq!(empty, "{\"name\":\"\",\"entries\":{}}");
}

#[test]
fn canonical_text_agrees_with_serde_json() {
    let v = sample_vault();
    let text = encode_vault(&v);
    let parsed: serde_json::Value = serde_json::from_slice(&text).unwrap();
    assert_eq!(parsed["name"], serde_json::Value::String("sample".to_string()));
    for e in &v.entries {
        assert_eq!(parsed["entries"][e.key.as_str()].as_str(), Some(e.value.as_str()));
        let q = serde_json::to_string(&e.key).unwrap();
        assert!(String::from_utf8(text.clone()).unwrap().contains(&q));
    }
}

#[test]
fn decode_reads_back_what_encode_writes() {
    let v = sample_vault();
    let back = decode_vault(&encode_vault(&v)).unwrap();
    assert!(same_vault(&v, &back));
}

#[test]
fn decode_refuses_non_canonical_text() {
    assert!(decode_vault(b"{\"name\":\"x\",\"entries\":{}}").is_some());
    assert!(decode_vault(b"{\"name\":\"x\",\"entries\":{}} ").is_none());
    assert!(decode_vault(b"{\"name\":\"x\",\"entries\":{\"k\":\"1\",\"k\":\"2\"}}").is_none());
    assert!(decode_vault(b"{\"name\":\"\\u0041\",\"entries\":{}}").is_none());
    assert!(decode_vault(b"{\"name\":\"\xff\",\"entries\":{}}").is_none());
    assert!(decode_vault(b"{\"name\":\"x\",\"entries\":{\"k\":\"1\",}}").is_none());
    assert!(decode_vault(b"").is_none());
    let v = decode_vault(b"{\"name\":\"\\u001f\\n\",\"entries\":{\"\\\"\":\"\xc3\xa9\"}}").unwrap();
    assert_eq!(v.name, "\u{1f}\n");
    assert_eq!(v.get("\""), Some("é".to_string()));
}

#[test]
fn remove_and_get_on_the_table() {
    let mut v = sample_vault();
    assert_eq!(v.remove("name"), Some("fred".to_string()));
    assert_eq!(v.remove("name"), None);
    assert_eq!(v.get("name"), None);
    assert_eq!(v.list_keys().len(), 3);
    assert_eq!(v.get(""), Some("".to_string()));
}

#[test]
fn error_text_is_its_reason() {
    let e = vault::VaultError::of_kind(VaultErrorKind::UnknownKey);
    assert_eq!(e.to_string(), "Unknown key");
}
