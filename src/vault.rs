//! The entry table: a named set of string entries with unique keys, and the
//! library's error type.

use vstd::prelude::*;
use vstd::utf8::*;

verus! {

broadcast use vstd::utf8::group_utf8_lib;

/// The abstract contents of a vault: its name, and its entries in the order
/// in which they were first added.
pub struct VaultModel {
    pub name: Seq<char>,
    pub entries: Seq<(Seq<char>, Seq<char>)>,
}

/// No key occurs twice.
pub open spec fn keys_unique(es: Seq<(Seq<char>, Seq<char>)>) -> bool {
    forall|i: int, j: int| 0 <= i < j < es.len() ==> (#[trigger] es[i]).0 != (#[trigger] es[j]).0
}

pub open spec fn has_key(es: Seq<(Seq<char>, Seq<char>)>, k: Seq<char>) -> bool {
    exists|i: int| 0 <= i < es.len() && (#[trigger] es[i]).0 == k
}

/// The position of key `k`; meaningful only where `has_key(es, k)`.
pub open spec fn key_index(es: Seq<(Seq<char>, Seq<char>)>, k: Seq<char>) -> int {
    choose|i: int| 0 <= i < es.len() && (#[trigger] es[i]).0 == k
}

/// The value stored under `k`, if any.
pub open spec fn lookup(es: Seq<(Seq<char>, Seq<char>)>, k: Seq<char>) -> Option<Seq<char>> {
    if has_key(es, k) {
        Some(es[key_index(es, k)].1)
    } else {
        None
    }
}

/// The entries seen as a mapping from key to value.
pub open spec fn entry_map(es: Seq<(Seq<char>, Seq<char>)>) -> Map<Seq<char>, Seq<char>> {
    Map::new(|k: Seq<char>| has_key(es, k), |k: Seq<char>| es[key_index(es, k)].1)
}

/// Upsert: the value of an existing key is replaced in place; a new key is
/// appended.
pub open spec fn upsert(es: Seq<(Seq<char>, Seq<char>)>, k: Seq<char>, v: Seq<char>) -> Seq<
    (Seq<char>, Seq<char>),
> {
    if has_key(es, k) {
        es.update(key_index(es, k), (k, v))
    } else {
        es.push((k, v))
    }
}

/// Removal of key `k`, where present; the other entries keep their order.
pub open spec fn without_key(es: Seq<(Seq<char>, Seq<char>)>, k: Seq<char>) -> Seq<
    (Seq<char>, Seq<char>),
> {
    if has_key(es, k) {
        es.remove(key_index(es, k))
    } else {
        es
    }
}

/// With unique keys, the position of a key is the one position that holds it.
pub proof fn lemma_key_index(es: Seq<(Seq<char>, Seq<char>)>, i: int)
    requires
        keys_unique(es),
        0 <= i < es.len(),
    ensures
        has_key(es, es[i].0),
        key_index(es, es[i].0) == i,
{
    let k = es[i].0;
    assert(has_key(es, k));
    let j = key_index(es, k);
    if j < i {
        assert(es[j].0 != es[i].0);
    } else if i < j {
        assert(es[i].0 != es[j].0);
    }
}

/// Upsert keeps the keys unique and leaves `k` mapped to `v`.
proof fn lemma_upsert(es: Seq<(Seq<char>, Seq<char>)>, k: Seq<char>, v: Seq<char>)
    requires
        keys_unique(es),
    ensures
        keys_unique(upsert(es, k, v)),
        has_key(upsert(es, k, v), k),
        upsert(es, k, v)[key_index(upsert(es, k, v), k)] == (k, v),
{
    let u = upsert(es, k, v);
    if has_key(es, k) {
        let i = key_index(es, k);
        assert forall|a: int, b: int| 0 <= a < b < u.len() implies (#[trigger] u[a]).0 != (
        #[trigger] u[b]).0 by {
            assert(es[a].0 != es[b].0);
        }
        lemma_key_index(u, i);
    } else {
        let i = es.len() as int;
        assert forall|a: int, b: int| 0 <= a < b < u.len() implies (#[trigger] u[a]).0 != (
        #[trigger] u[b]).0 by {
            if b < es.len() {
                assert(es[a].0 != es[b].0);
            } else {
                assert(u[a] == es[a]);
            }
        }
        lemma_key_index(u, i);
    }
}

/// Adding the same entry twice is the same as adding it once.
pub proof fn lemma_add_entry_idempotent(es: Seq<(Seq<char>, Seq<char>)>, k: Seq<char>, v: Seq<char>)
    requires
        keys_unique(es),
    ensures
        upsert(upsert(es, k, v), k, v) == upsert(es, k, v),
{
    let u = upsert(es, k, v);
    lemma_upsert(es, k, v);
    assert(u.update(key_index(u, k), (k, v)) =~= u);
}

/// The input of an add: one key and its value.
#[derive(Debug)]
pub struct Entry {
    pub key: String,
    pub value: String,
}

impl View for Entry {
    type V = (Seq<char>, Seq<char>);

    open spec fn view(&self) -> (Seq<char>, Seq<char>) {
        (self.key@, self.value@)
    }
}

/// The abstract entries of a list of `Entry` values.
pub open spec fn entry_seq(es: Seq<Entry>) -> Seq<(Seq<char>, Seq<char>)> {
    es.map_values(|e: Entry| e@)
}

/// Names the key file that belongs to a vault.
#[derive(Debug)]
pub struct VaultKeyName;

impl VaultKeyName {
    /// The key file of vault `name` is `"{name}.vlt.key"`.
    pub fn key_from_name(name: &str) -> (r: String)
        ensures
            r@ == name@ + ".vlt.key"@,
    {
        let mut r = name.to_owned();
        r.append(".vlt.key");
        r
    }
}

/// A named table of string entries. Well-formed when no key occurs twice.
#[derive(Debug)]
pub struct Vault {
    pub name: String,
    pub entries: Vec<Entry>,
}

impl View for Vault {
    type V = VaultModel;

    open spec fn view(&self) -> VaultModel {
        VaultModel { name: self.name@, entries: entry_seq(self.entries@) }
    }
}

/// Whether two strings hold the same characters.
pub fn same_text(a: &str, b: &str) -> (r: bool)
    ensures
        r == (a@ == b@),
{
    let x = a.as_bytes();
    let y = b.as_bytes();
    if x.len() != y.len() {
        proof {
            if a@ == b@ {
                assert(x@ == y@);
            }
        }
        return false;
    }
    let mut i: usize = 0;
    while i < x.len()
        invariant
            x@ == encode_utf8(a@),
            y@ == encode_utf8(b@),
            x@.len() == y@.len(),
            i <= x@.len(),
            forall|j: int| 0 <= j < i ==> x@[j] == y@[j],
        decreases x@.len() - i,
    {
        if x[i] != y[i] {
            proof {
                if a@ == b@ {
                    assert(x@ == y@);
                }
            }
            return false;
        }
        i = i + 1;
    }
    proof {
        assert(x@ =~= y@);
        encode_utf8_decode_utf8(a@);
        encode_utf8_decode_utf8(b@);
    }
    true
}

/// Whether some entry of `es` has key `key`.
pub fn holds_key(es: &Vec<Entry>, key: &str) -> (r: bool)
    ensures
        r == has_key(entry_seq(es@), key@),
{
    let mut i: usize = 0;
    while i < es.len()
        invariant
            i <= es@.len(),
            forall|j: int| 0 <= j < i ==> (#[trigger] entry_seq(es@)[j]).0 != key@,
        decreases es@.len() - i,
    {
        if same_text(es[i].key.as_str(), key) {
            assert(entry_seq(es@)[i as int].0 == key@);
            return true;
        }
        i = i + 1;
    }
    false
}

impl Vault {
    pub open spec fn wf(&self) -> bool {
        keys_unique(self@.entries)
    }

    /// A vault with the given name and no entries.
    pub fn new(name: &str) -> (r: Vault)
        ensures
            r.wf(),
            r@.name == name@,
            r@.entries == Seq::<(Seq<char>, Seq<char>)>::empty(),
    {
        let r = Vault { name: name.to_owned(), entries: Vec::new() };
        assert(r@.entries =~= Seq::<(Seq<char>, Seq<char>)>::empty());
        r
    }

    /// The position of `key` among the entries, if it is there.
    pub fn find(&self, key: &str) -> (r: Option<usize>)
        requires
            self.wf(),
        ensures
            r is None <==> !has_key(self@.entries, key@),
            r matches Some(i) ==> i == key_index(self@.entries, key@) && i < self@.entries.len(),
    {
        let mut i: usize = 0;
        while i < self.entries.len()
            invariant
                self.wf(),
                i <= self.entries@.len(),
                forall|j: int| 0 <= j < i ==> (#[trigger] self@.entries[j]).0 != key@,
            decreases self.entries@.len() - i,
        {
            if same_text(self.entries[i].key.as_str(), key) {
                proof {
                    lemma_key_index(self@.entries, i as int);
                }
                return Some(i);
            }
            i = i + 1;
        }
        None
    }

    /// Upserts `e`: an existing value under `e.key` is overwritten, otherwise
    /// the entry is added.
    pub fn add_entry(&mut self, e: Entry)
        requires
            old(self).wf(),
        ensures
            final(self).wf(),
            final(self)@.name == old(self)@.name,
            final(self)@.entries == upsert(old(self)@.entries, e.key@, e.value@),
    {
        let ghost es = self@.entries;
        match self.find(e.key.as_str()) {
            Some(i) => {
                self.entries.set(i, e);
                proof {
                    assert(self@.entries =~= upsert(es, e.key@, e.value@));
                    assert forall|a: int, b: int| 0 <= a < b < self@.entries.len() implies (
                    #[trigger] self@.entries[a]).0 != (#[trigger] self@.entries[b]).0 by {
                        assert(es[a].0 != es[b].0);
                    }
                }
            },
            None => {
                self.entries.push(e);
                proof {
                    assert(self@.entries =~= upsert(es, e@.0, e@.1));
                    assert forall|a: int, b: int| 0 <= a < b < self@.entries.len() implies (
                    #[trigger] self@.entries[a]).0 != (#[trigger] self@.entries[b]).0 by {
                        if b < es.len() {
                            assert(es[a].0 != es[b].0);
                        } else {
                            assert(es[a].0 != e.key@);
                        }
                    }
                }
            },
        }
    }

    /// The value stored under `key`, if any.
    pub fn get(&self, key: &str) -> (r: Option<String>)
        requires
            self.wf(),
        ensures
            r matches Some(v) ==> lookup(self@.entries, key@) == Some(v@),
            r is None ==> lookup(self@.entries, key@) is None,
    {
        match self.find(key) {
            Some(i) => Some(self.entries[i].value.clone()),
            None => None,
        }
    }

    /// Removes the entry under `key`; returns its value, or `None` when the key
    /// was absent (and nothing changed).
    pub fn remove(&mut self, key: &str) -> (r: Option<String>)
        requires
            old(self).wf(),
        ensures
            final(self).wf(),
            final(self)@.name == old(self)@.name,
            final(self)@.entries == without_key(old(self)@.entries, key@),
            r matches Some(v) ==> lookup(old(self)@.entries, key@) == Some(v@),
            r is None ==> lookup(old(self)@.entries, key@) is None,
    {
        let ghost es = self@.entries;
        match self.find(key) {
            Some(i) => {
                let e = self.entries.remove(i);
                proof {
                    assert(self@.entries =~= es.remove(i as int));
                    assert forall|a: int, b: int| 0 <= a < b < self@.entries.len() implies (
                    #[trigger] self@.entries[a]).0 != (#[trigger] self@.entries[b]).0 by {
                        if a < i {
                            if b < i {
                                assert(es[a].0 != es[b].0);
                            } else {
                                assert(es[a].0 != es[b + 1].0);
                            }
                        } else {
                            assert(es[a + 1].0 != es[b + 1].0);
                        }
                    }
                }
                Some(e.value)
            },
            None => None,
        }
    }

    /// All keys, in entry order.
    pub fn list_keys(&self) -> (r: Vec<String>)
        ensures
            r@.len() == self@.entries.len(),
            forall|i: int| 0 <= i < r@.len() ==> (#[trigger] r@[i])@ == self@.entries[i].0,
    {
        let mut r: Vec<String> = Vec::new();
        let mut i: usize = 0;
        while i < self.entries.len()
            invariant
                i <= self.entries@.len(),
                r@.len() == i,
                forall|j: int| 0 <= j < i ==> (#[trigger] r@[j])@ == self@.entries[j].0,
            decreases self.entries@.len() - i,
        {
            r.push(self.entries[i].key.clone());
            i = i + 1;
        }
        r
    }
}

/// What went wrong, by origin.
#[derive(Debug, Clone, Copy, PartialEq, Eq, Structural)]
pub enum VaultErrorKind {
    /// A file of the vault is missing.
    NotFound,
    /// A file could not be read, written or removed.
    Io,
    /// The key file does not hold exactly 32 bytes.
    KeyInvalid,
    /// The payload failed authentication: wrong key, or altered bytes.
    AuthFailed,
    /// The authenticated payload is not a canonical vault text.
    Decode,
    /// `get` of a key that the vault does not hold.
    NoSuchKey,
    /// `delete-key` of a key that the vault does not hold.
    UnknownKey,
    /// The vault's text is too long to seal.
    TooLarge,
}

/// A failure, with its kind and a human-readable reason.
#[derive(Debug, Clone)]
pub struct VaultError {
    pub kind: VaultErrorKind,
    pub reason: String,
}

impl VaultError {
    /// An error of the given kind, with that kind's reason text.
    pub fn of_kind(kind: VaultErrorKind) -> (r: VaultError)
        ensures
            r.kind == kind,
    {
        let reason = match kind {
            VaultErrorKind::NotFound => "No such file for this vault",
            VaultErrorKind::Io => "A file of this vault could not be read or written",
            VaultErrorKind::KeyInvalid => "Invalid key: a key file holds exactly 32 bytes",
            VaultErrorKind::AuthFailed => "Vault could not be authenticated with this key",
            VaultErrorKind::Decode => "Vault contents are not a valid vault",
            VaultErrorKind::NoSuchKey => "No such key in this vault",
            VaultErrorKind::UnknownKey => "Unknown key",
            VaultErrorKind::TooLarge => "Vault is too large to seal",
        };
        VaultError { kind, reason: reason.to_owned() }
    }

    /// The reason text.
    pub fn to_string(&self) -> (r: String)
        ensures
            r@ == self.reason@,
    {
        self.reason.clone()
    }
}

} // verus!
