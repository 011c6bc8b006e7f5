//! Keys, sealing, and the two files of a vault: `"{name}.vlt.key"` holds the
//! 32-byte key and `"{name}.vlt"` the sealed canonical text. The commands work
//! on the contents of that file pair; reading and writing the files themselves
//! is left to the caller.

use crate::codec::{decode_vault, encode_vault, is_text_of, lemma_text_determines_vault, vault_text};
use crate::crypto::{aead_open, aead_seal, opened, random_key, KEY_LEN, MAX_PLAINTEXT};
use crate::vault::{
    keys_unique, lookup, upsert, without_key, Entry, Vault, VaultError, VaultErrorKind,
    VaultKeyName, VaultModel,
};
use vstd::prelude::*;

verus! {

/// A symmetric key: exactly 32 bytes. It has no `Debug`, so that it is not
/// printed by accident.
pub struct SecretKey {
    pub bytes: Vec<u8>,
}

impl SecretKey {
    pub open spec fn wf(&self) -> bool {
        self.bytes@.len() == KEY_LEN
    }

    /// The key's bytes.
    pub fn as_bytes(&self) -> (r: &[u8])
        ensures
            r@ == self.bytes@,
    {
        self.bytes.as_slice()
    }
}

impl PartialEq for SecretKey {
    fn eq(&self, o: &SecretKey) -> (r: bool) {
        let a = self.bytes.as_slice();
        let b = o.bytes.as_slice();
        if a.len() != b.len() {
            return false;
        }
        let mut i: usize = 0;
        while i < a.len()
            invariant
                a@ == self.bytes@,
                b@ == o.bytes@,
                a@.len() == b@.len(),
                i <= a@.len(),
                forall|j: int| 0 <= j < i ==> a@[j] == b@[j],
            decreases a@.len() - i,
        {
            if a[i] != b[i] {
                return false;
            }
            i = i + 1;
        }
        assert(a@ =~= b@);
        true
    }
}

impl vstd::std_specs::cmp::PartialEqSpecImpl for SecretKey {
    open spec fn obeys_eq_spec() -> bool {
        true
    }

    open spec fn eq_spec(&self, o: &SecretKey) -> bool {
        self.bytes@ == o.bytes@
    }
}

/// The contents of a vault's file pair; `None` where a file is absent.
pub struct VaultFiles {
    pub key_file: Option<Vec<u8>>,
    pub vault_file: Option<Vec<u8>>,
}

pub struct FilesModel {
    pub key: Option<Seq<u8>>,
    pub data: Option<Seq<u8>>,
}

pub open spec fn bytes_of(f: Option<Vec<u8>>) -> Option<Seq<u8>> {
    match f {
        Some(b) => Some(b@),
        None => None,
    }
}

impl View for VaultFiles {
    type V = FilesModel;

    open spec fn view(&self) -> FilesModel {
        FilesModel { key: bytes_of(self.key_file), data: bytes_of(self.vault_file) }
    }
}

/// The key that a key file holds: its bytes, where there are exactly 32.
pub open spec fn key_spec(f: Option<Seq<u8>>) -> Result<Seq<u8>, VaultErrorKind> {
    match f {
        None => Err(VaultErrorKind::NotFound),
        Some(k) => if k.len() == KEY_LEN {
            Ok(k)
        } else {
            Err(VaultErrorKind::KeyInvalid)
        },
    }
}

/// `p` is the canonical text of some vault.
pub open spec fn has_vault_text(p: Seq<u8>) -> bool {
    exists|m: VaultModel| is_text_of(p, m)
}

/// The vault whose canonical text `p` is; meaningful where `has_vault_text(p)`.
pub open spec fn vault_of_text(p: Seq<u8>) -> VaultModel {
    choose|m: VaultModel| is_text_of(p, m)
}

/// What opening `sealed` under `key` yields: the vault whose canonical text it
/// authenticates to.
pub open spec fn open_spec(key: Seq<u8>, sealed: Seq<u8>) -> Result<VaultModel, VaultErrorKind> {
    match opened(key, sealed) {
        None => Err(VaultErrorKind::AuthFailed),
        Some(p) => if has_vault_text(p) {
            Ok(vault_of_text(p))
        } else {
            Err(VaultErrorKind::Decode)
        },
    }
}

/// What loading the vault of a file pair yields.
pub open spec fn load_spec(f: FilesModel) -> Result<VaultModel, VaultErrorKind> {
    match key_spec(f.key) {
        Err(e) => Err(e),
        Ok(k) => match f.data {
            None => Err(VaultErrorKind::NotFound),
            Some(d) => open_spec(k, d),
        },
    }
}

/// `sealed` is a sealing of the vault `m` under `key`.
pub open spec fn seals(key: Seq<u8>, sealed: Seq<u8>, m: VaultModel) -> bool {
    opened(key, sealed) == Some(vault_text(m))
}

/// The abstract outcome of a call that yields a vault.
pub open spec fn vault_outcome(r: Result<Vault, VaultError>) -> Result<VaultModel, VaultErrorKind> {
    match r {
        Ok(v) => Ok(v@),
        Err(e) => Err(e.kind),
    }
}

/// The vault named `name`, with no entries.
pub open spec fn empty_vault(name: Seq<char>) -> VaultModel {
    VaultModel { name, entries: Seq::empty() }
}

/// The payload file of vault `name` is `"{name}.vlt"`.
pub fn vault_file_name(name: &str) -> (r: String)
    ensures
        r@ == name@ + ".vlt"@,
{
    let mut r = name.to_owned();
    r.append(".vlt");
    r
}

/// The key held by a key file's contents.
pub fn load_keygen(contents: &[u8]) -> (r: Result<SecretKey, VaultError>)
    ensures
        r matches Ok(k) ==> k.wf() && key_spec(Some(contents@)) == Ok::<Seq<u8>, VaultErrorKind>(k.bytes@),
        r matches Err(e) ==> key_spec(Some(contents@)) == Err::<Seq<u8>, VaultErrorKind>(e.kind),
{
    if contents.len() != KEY_LEN {
        return Err(VaultError::of_kind(VaultErrorKind::KeyInvalid));
    }
    Ok(SecretKey { bytes: vstd::slice::slice_to_vec(contents) })
}

/// Generates a fresh random key and stores it as the key file.
pub fn make_new_key(files: &mut VaultFiles) -> (r: SecretKey)
    ensures
        r.wf(),
        final(files)@.key == Some(r.bytes@),
        final(files)@.data == old(files)@.data,
{
    let b = random_key();
    files.key_file = Some(b.clone());
    SecretKey { bytes: b }
}

/// Seals `v` under `key`: its canonical text, encrypted and authenticated. It
/// fails only where that text is too long to seal.
pub fn seal_vault(key: &SecretKey, v: &Vault) -> (r: Result<Vec<u8>, VaultError>)
    requires
        key.wf(),
    ensures
        r matches Ok(c) ==> seals(key.bytes@, c@, v@),
        r is Err <==> vault_text(v@).len() > MAX_PLAINTEXT,
        r matches Err(e) ==> e.kind == VaultErrorKind::TooLarge,
{
    let text = encode_vault(v);
    if text.len() as u64 > MAX_PLAINTEXT {
        return Err(VaultError::of_kind(VaultErrorKind::TooLarge));
    }
    Ok(aead_seal(key.bytes.as_slice(), text.as_slice()))
}

/// Authenticates and decrypts `sealed` under `key`, then reads the vault.
pub fn open_sealed(key: &SecretKey, sealed: &[u8]) -> (r: Result<Vault, VaultError>)
    requires
        key.wf(),
    ensures
        vault_outcome(r) == open_spec(key.bytes@, sealed@),
        r matches Ok(v) ==> v.wf(),
{
    let p = match aead_open(key.bytes.as_slice(), sealed) {
        Some(p) => p,
        None => {
            return Err(VaultError::of_kind(VaultErrorKind::AuthFailed));
        },
    };
    match decode_vault(p.as_slice()) {
        Some(v) => {
            proof {
                assert(is_text_of(p@, v@));
                assert(has_vault_text(p@));
                assert(is_text_of(p@, vault_of_text(p@)));
            }
            Ok(v)
        },
        None => {
            proof {
                if has_vault_text(p@) {
                    assert(is_text_of(p@, vault_of_text(p@)));
                }
            }
            Err(VaultError::of_kind(VaultErrorKind::Decode))
        },
    }
}

/// The key file's name, the key, and the payload file's name of vault `name`.
pub fn key_secret_file(name: &str, files: &VaultFiles) -> (r: Result<
    (String, SecretKey, String),
    VaultError,
>)
    ensures
        r matches Ok((kn, k, vn)) ==> k.wf() && key_spec(files@.key) == Ok::<Seq<u8>, VaultErrorKind>(k.bytes@) && kn@ == name@
            + ".vlt.key"@ && vn@ == name@ + ".vlt"@,
        r matches Err(e) ==> key_spec(files@.key) == Err::<Seq<u8>, VaultErrorKind>(e.kind),
{
    let key = match &files.key_file {
        Some(b) => load_keygen(b.as_slice())?,
        None => {
            return Err(VaultError::of_kind(VaultErrorKind::NotFound));
        },
    };
    Ok((VaultKeyName::key_from_name(name), key, vault_file_name(name)))
}

/// Whether the vault `m` can be written back over the file pair `f`: the key
/// loads, the payload file exists, and the text is not too long to seal.
pub open spec fn persist_check(f: FilesModel, m: VaultModel) -> Result<Seq<u8>, VaultErrorKind> {
    match key_spec(f.key) {
        Err(e) => Err(e),
        Ok(k) => if f.data is None {
            Err(VaultErrorKind::NotFound)
        } else if vault_text(m).len() > MAX_PLAINTEXT {
            Err(VaultErrorKind::TooLarge)
        } else {
            Ok(k)
        },
    }
}

/// `new` is `old` with the payload file replaced by a sealing of `m` under the
/// key of `old`.
pub open spec fn persisted(old: FilesModel, new: FilesModel, m: VaultModel) -> bool {
    &&& new.key == old.key
    &&& new.data is Some
    &&& seals(old.key->Some_0, new.data->Some_0, m)
}

/// Writing `m` back over `old` gave `new` and the outcome `r`.
pub open spec fn written(
    old: FilesModel,
    new: FilesModel,
    m: VaultModel,
    r: Result<(), VaultErrorKind>,
) -> bool {
    match persist_check(old, m) {
        Err(e) => r == Err::<(), VaultErrorKind>(e) && new == old,
        Ok(_) => r == Ok::<(), VaultErrorKind>(()) && persisted(old, new, m),
    }
}

pub open spec fn unit_outcome(r: Result<(), VaultError>) -> Result<(), VaultErrorKind> {
    match r {
        Ok(_) => Ok(()),
        Err(e) => Err(e.kind),
    }
}

pub open spec fn text_outcome(r: Result<String, VaultError>) -> Result<Seq<char>, VaultErrorKind> {
    match r {
        Ok(s) => Ok(s@),
        Err(e) => Err(e.kind),
    }
}

/// `m` with `k` set to `v`.
pub open spec fn with_entry(m: VaultModel, k: Seq<char>, v: Seq<char>) -> VaultModel {
    VaultModel { name: m.name, entries: upsert(m.entries, k, v) }
}

/// `m` without key `k`.
pub open spec fn without_entry(m: VaultModel, k: Seq<char>) -> VaultModel {
    VaultModel { name: m.name, entries: without_key(m.entries, k) }
}

/// What `get` of key `k` yields on the file pair `f`.
pub open spec fn get_spec(f: FilesModel, k: Seq<char>) -> Result<Seq<char>, VaultErrorKind> {
    match load_spec(f) {
        Err(e) => Err(e),
        Ok(m) => match lookup(m.entries, k) {
            Some(v) => Ok(v),
            None => Err(VaultErrorKind::NoSuchKey),
        },
    }
}

/// The keys, each followed by a newline.
pub open spec fn listing(es: Seq<(Seq<char>, Seq<char>)>) -> Seq<char>
    decreases es.len(),
{
    if es.len() == 0 {
        Seq::empty()
    } else {
        listing(es.drop_last()) + es.last().0 + seq!['\n']
    }
}

/// Loads the vault of a file pair: its key, then its sealed payload.
pub fn open_vault(files: &VaultFiles) -> (r: Result<Vault, VaultError>)
    ensures
        vault_outcome(r) == load_spec(files@),
        r matches Ok(v) ==> v.wf(),
{
    let key = match &files.key_file {
        Some(b) => load_keygen(b.as_slice())?,
        None => {
            return Err(VaultError::of_kind(VaultErrorKind::NotFound));
        },
    };
    match &files.vault_file {
        Some(c) => open_sealed(&key, c.as_slice()),
        None => Err(VaultError::of_kind(VaultErrorKind::NotFound)),
    }
}

/// Seals `v` under the pair's key and writes it over the payload file, which
/// must already exist. On failure nothing is written.
pub fn close_vault(v: Vault, files: &mut VaultFiles) -> (r: Result<(), VaultError>)
    ensures
        written(old(files)@, final(files)@, v@, unit_outcome(r)),
{
    let key = match &files.key_file {
        Some(b) => load_keygen(b.as_slice())?,
        None => {
            return Err(VaultError::of_kind(VaultErrorKind::NotFound));
        },
    };
    if files.vault_file.is_none() {
        return Err(VaultError::of_kind(VaultErrorKind::NotFound));
    }
    let c = seal_vault(&key, &v)?;
    files.vault_file = Some(c);
    Ok(())
}

/// Creates vault `name`: a fresh key in the key file and a sealed empty vault in
/// the payload file, replacing whatever they held. The key is written first, so
/// a failure to seal leaves the new key beside the old payload.
pub fn handle_new_vault_cmd(name: &str, files: &mut VaultFiles) -> (r: Result<(), VaultError>)
    ensures
        final(files)@.key matches Some(k) && k.len() == KEY_LEN,
        r is Ok <==> vault_text(empty_vault(name@)).len() <= MAX_PLAINTEXT,
        r is Ok ==> (final(files)@.data matches Some(c) && seals(final(files)@.key->Some_0, c, empty_vault(name@))),
        r matches Err(e) ==> e.kind == VaultErrorKind::TooLarge && final(files)@.data == old(files)@.data,
{
    let key = make_new_key(files);
    let v = Vault::new(name);
    proof {
        assert(v@ == empty_vault(name@));
    }
    let c = seal_vault(&key, &v)?;
    files.vault_file = Some(c);
    Ok(())
}

/// Loads the vault, upserts `key` = `val`, and writes it back.
pub fn handle_add_cmd(files: &mut VaultFiles, key: &str, val: &str) -> (r: Result<(), VaultError>)
    ensures
        load_spec(old(files)@) matches Err(e) ==> unit_outcome(r) == Err::<(), VaultErrorKind>(e)
            && final(files)@ == old(files)@,
        load_spec(old(files)@) matches Ok(m) ==> written(
            old(files)@,
            final(files)@,
            with_entry(m, key@, val@),
            unit_outcome(r),
        ),
{
    let mut vault = open_vault(files)?;
    let e = Entry { key: key.to_owned(), value: val.to_owned() };
    vault.add_entry(e);
    close_vault(vault, files)
}

/// Loads the vault, removes `key`, and writes it back; then reports an unknown
/// key where there was none (the payload is rewritten either way).
pub fn handle_delete_key(files: &mut VaultFiles, key: &str) -> (r: Result<(), VaultError>)
    ensures
        load_spec(old(files)@) matches Err(e) ==> unit_outcome(r) == Err::<(), VaultErrorKind>(e)
            && final(files)@ == old(files)@,
        load_spec(old(files)@) matches Ok(m) ==> ({
            let w = persist_check(old(files)@, without_entry(m, key@));
            &&& w matches Err(e) ==> unit_outcome(r) == Err::<(), VaultErrorKind>(e)
                && final(files)@ == old(files)@
            &&& w is Ok ==> persisted(old(files)@, final(files)@, without_entry(m, key@))
            &&& w is Ok && lookup(m.entries, key@) is Some ==> r is Ok
            &&& w is Ok && lookup(m.entries, key@) is None ==> unit_outcome(r) == Err::<
                (),
                VaultErrorKind,
            >(VaultErrorKind::UnknownKey)
        }),
{
    let mut vault = open_vault(files)?;
    let removed = vault.remove(key);
    close_vault(vault, files)?;
    match removed {
        None => Err(VaultError::of_kind(VaultErrorKind::UnknownKey)),
        Some(_) => Ok(()),
    }
}

/// The value stored under `key`.
pub fn handle_val_for_key_cmd(files: &VaultFiles, key: &str) -> (r: Result<String, VaultError>)
    ensures
        text_outcome(r) == get_spec(files@, key@),
{
    let v = open_vault(files)?;
    match v.get(key) {
        None => Err(VaultError::of_kind(VaultErrorKind::NoSuchKey)),
        Some(val) => Ok(val),
    }
}

/// The vault's keys, one per line.
pub fn handle_list_cmd(files: &VaultFiles) -> (r: Result<String, VaultError>)
    ensures
        text_outcome(r) == match load_spec(files@) {
            Ok(m) => Ok(listing(m.entries)),
            Err(e) => Err(e),
        },
{
    let v = open_vault(files)?;
    let ghost es = v@.entries;
    let mut result = String::new();
    let mut i: usize = 0;
    proof {
        assert(es.subrange(0, 0) =~= Seq::<(Seq<char>, Seq<char>)>::empty());
    }
    while i < v.entries.len()
        invariant
            es == v@.entries,
            i <= es.len(),
            result@ == listing(es.subrange(0, i as int)),
        decreases es.len() - i,
    {
        result.append(v.entries[i].key.as_str());
        result.append("\n");
        proof {
            reveal_strlit("\n");
            assert(es.subrange(0, i + 1).drop_last() =~= es.subrange(0, i as int));
            assert(es[i as int].0 == v.entries@[i as int].key@);
            assert(result@ =~= listing(es.subrange(0, i + 1)));
        }
        i = i + 1;
    }
    proof {
        assert(es.subrange(0, i as int) =~= es);
    }
    Ok(result)
}

/// Removes the key file, then the payload file. The key must load first; a
/// missing payload file is reported after the key file is gone.
pub fn handle_delete_vault_cmd(files: &mut VaultFiles) -> (r: Result<(), VaultError>)
    ensures
        key_spec(old(files)@.key) matches Err(e) ==> unit_outcome(r) == Err::<(), VaultErrorKind>(e)
            && final(files)@ == old(files)@,
        key_spec(old(files)@.key) is Ok ==> final(files)@.key is None && final(files)@.data is None
            && (r is Ok <==> old(files)@.data is Some),
        key_spec(old(files)@.key) is Ok ==> (r matches Err(e) ==> e.kind == VaultErrorKind::NotFound),
{
    match &files.key_file {
        Some(b) => {
            load_keygen(b.as_slice())?;
        },
        None => {
            return Err(VaultError::of_kind(VaultErrorKind::NotFound));
        },
    }
    files.key_file = None;
    if files.vault_file.is_none() {
        return Err(VaultError::of_kind(VaultErrorKind::NotFound));
    }
    files.vault_file = None;
    Ok(())
}

/// Round trip: whatever `seal_vault` returns for a well-formed vault under a
/// key opens under that key to the same vault.
pub proof fn lemma_round_trip(key: Seq<u8>, sealed: Seq<u8>, m: VaultModel)
    requires
        key.len() == KEY_LEN,
        keys_unique(m.entries),
        seals(key, sealed, m),
    ensures
        open_spec(key, sealed) == Ok::<VaultModel, VaultErrorKind>(m),
{
    let t = vault_text(m);
    assert(is_text_of(t, m));
    assert(has_vault_text(t));
    lemma_text_determines_vault(t, vault_of_text(t), m);
}

/// Lifecycle: after `handle_new_vault_cmd(name)` succeeds, loading the file
/// pair gives the vault `name` with no entries.
pub proof fn lemma_new_then_load(name: Seq<char>, key: Seq<u8>, sealed: Seq<u8>)
    requires
        key.len() == KEY_LEN,
        seals(key, sealed, empty_vault(name)),
    ensures
        load_spec(FilesModel { key: Some(key), data: Some(sealed) }) == Ok::<
            VaultModel,
            VaultErrorKind,
        >(empty_vault(name)),
{
    lemma_round_trip(key, sealed, empty_vault(name));
}

/// Key persistence: the key that `make_new_key` stores loads back from the key
/// file bit for bit.
pub proof fn lemma_key_persists(key: Seq<u8>)
    requires
        key.len() == KEY_LEN,
    ensures
        key_spec(Some(key)) == Ok::<Seq<u8>, VaultErrorKind>(key),
{
}

} // verus!
