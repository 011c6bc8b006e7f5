//! The canonical text form of a vault,
//! `{"name":<string>,"entries":{<string>:<string>,...}}`, as bytes: compact
//! JSON in which a string escapes `"`, `\` and the control characters, and
//! nothing else.

use crate::crypto::utf8_string;
use crate::vault::{entry_seq, holds_key, keys_unique, Entry, Vault, VaultModel};
use vstd::prelude::*;
use vstd::utf8::*;

verus! {

broadcast use vstd::utf8::group_utf8_lib;

/// A lowercase hexadecimal digit.
pub open spec fn hex_digit(d: u8) -> u8 {
    if d < 10 {
        (0x30 + d) as u8
    } else {
        (0x57 + d) as u8
    }
}

/// How one byte of a string's UTF-8 encoding is written.
pub open spec fn escape(b: u8) -> Seq<u8> {
    if b == 0x22 {
        seq![0x5cu8, 0x22u8]
    } else if b == 0x5c {
        seq![0x5cu8, 0x5cu8]
    } else if b == 0x08 {
        seq![0x5cu8, 0x62u8]
    } else if b == 0x09 {
        seq![0x5cu8, 0x74u8]
    } else if b == 0x0a {
        seq![0x5cu8, 0x6eu8]
    } else if b == 0x0c {
        seq![0x5cu8, 0x66u8]
    } else if b == 0x0d {
        seq![0x5cu8, 0x72u8]
    } else if b < 0x20 {
        seq![0x5cu8, 0x75u8, 0x30u8, 0x30u8, hex_digit(b / 16), hex_digit(b % 16)]
    } else {
        seq![b]
    }
}

/// Each byte of `b` escaped.
pub open spec fn escaped(b: Seq<u8>) -> Seq<u8>
    decreases b.len(),
{
    if b.len() == 0 {
        Seq::empty()
    } else {
        escaped(b.drop_last()) + escape(b.last())
    }
}

/// A string literal holding the bytes `b`.
pub open spec fn literal(b: Seq<u8>) -> Seq<u8> {
    seq![0x22u8] + escaped(b) + seq![0x22u8]
}

/// A string written as a literal.
pub open spec fn quoted(s: Seq<char>) -> Seq<u8> {
    literal(encode_utf8(s))
}

/// `"key":"value"`
pub open spec fn pair_text(k: Seq<char>, v: Seq<char>) -> Seq<u8> {
    quoted(k) + seq![0x3au8] + quoted(v)
}

/// The pairs, separated by commas.
pub open spec fn entries_text(es: Seq<(Seq<char>, Seq<char>)>) -> Seq<u8>
    decreases es.len(),
{
    if es.len() == 0 {
        Seq::empty()
    } else if es.len() == 1 {
        pair_text(es[0].0, es[0].1)
    } else {
        entries_text(es.drop_last()) + seq![0x2cu8] + pair_text(es.last().0, es.last().1)
    }
}

/// `{"name":`
pub open spec fn name_open() -> Seq<u8> {
    seq![0x7bu8, 0x22u8, 0x6eu8, 0x61u8, 0x6du8, 0x65u8, 0x22u8, 0x3au8]
}

/// `,"entries":{`
pub open spec fn entries_open() -> Seq<u8> {
    seq![0x2cu8, 0x22u8, 0x65u8, 0x6eu8, 0x74u8, 0x72u8, 0x69u8, 0x65u8, 0x73u8, 0x22u8, 0x3au8, 0x7bu8]
}

/// `}}`
pub open spec fn close_both() -> Seq<u8> {
    seq![0x7du8, 0x7du8]
}

/// The canonical text of a vault.
pub open spec fn vault_text(m: VaultModel) -> Seq<u8> {
    name_open() + quoted(m.name) + entries_open() + entries_text(m.entries) + close_both()
}

/// `piece` stands in `t` from position `i` on.
pub open spec fn at(t: Seq<u8>, i: int, piece: Seq<u8>) -> bool {
    0 <= i && i + piece.len() <= t.len() && t.subrange(i, i + piece.len()) == piece
}

pub open spec fn is_prefix(a: Seq<u8>, b: Seq<u8>) -> bool {
    a.len() <= b.len() && b.subrange(0, a.len() as int) == a
}

proof fn lemma_at_concat(t: Seq<u8>, i: int, a: Seq<u8>, b: Seq<u8>)
    ensures
        at(t, i, a + b) <==> (at(t, i, a) && at(t, i + a.len(), b)),
{
    if at(t, i, a + b) {
        let w = t.subrange(i, i + (a + b).len());
        assert(w == a + b);
        assert(t.subrange(i, i + a.len()) =~= w.subrange(0, a.len() as int));
        assert(w.subrange(0, a.len() as int) =~= a);
        assert(t.subrange(i + a.len(), i + a.len() + b.len()) =~= w.subrange(
            a.len() as int,
            (a + b).len() as int,
        ));
        assert(w.subrange(a.len() as int, (a + b).len() as int) =~= b);
    }
    if at(t, i, a) && at(t, i + a.len(), b) {
        assert(t.subrange(i, i + (a + b).len()) =~= t.subrange(i, i + a.len()) + t.subrange(
            i + a.len(),
            i + a.len() + b.len(),
        ));
        assert(t.subrange(i, i + (a + b).len()) =~= a + b);
    }
}

proof fn lemma_at_prefix(t: Seq<u8>, i: int, a: Seq<u8>, b: Seq<u8>)
    requires
        at(t, i, b),
        is_prefix(a, b),
    ensures
        at(t, i, a),
{
    assert(t.subrange(i, i + a.len()) =~= b.subrange(0, a.len() as int));
}

proof fn lemma_escaped_concat(a: Seq<u8>, b: Seq<u8>)
    ensures
        escaped(a + b) == escaped(a) + escaped(b),
    decreases b.len(),
{
    if b.len() == 0 {
        assert(a + b =~= a);
        assert(escaped(a) + escaped(b) =~= escaped(a));
    } else {
        assert((a + b).drop_last() =~= a + b.drop_last());
        lemma_escaped_concat(a, b.drop_last());
        assert(escaped(a + b) =~= escaped(a) + escaped(b));
    }
}

proof fn lemma_escaped_one(x: u8)
    ensures
        escaped(seq![x]) == escape(x),
{
    assert(seq![x].drop_last() =~= Seq::<u8>::empty());
    assert(escaped(Seq::<u8>::empty()) =~= Seq::<u8>::empty());
    assert(escaped(seq![x]) =~= escape(x));
}

/// The escaped bytes up to position `k`, then byte `k` escaped.
proof fn lemma_escaped_split(b: Seq<u8>, k: int)
    requires
        0 <= k < b.len(),
    ensures
        escaped(b) == escaped(b.subrange(0, k)) + escape(b[k]) + escaped(b.subrange(k + 1, b.len() as int)),
{
    let p = b.subrange(0, k);
    let q = b.subrange(k + 1, b.len() as int);
    assert(b =~= p + seq![b[k]] + q);
    lemma_escaped_concat(p + seq![b[k]], q);
    lemma_escaped_concat(p, seq![b[k]]);
    lemma_escaped_one(b[k]);
}

proof fn lemma_escape_first(x: u8)
    ensures
        escape(x).len() >= 1,
        escape(x)[0] != 0x22,
{
}

/// Appends one escaped byte.
fn push_escape(out: &mut Vec<u8>, b: u8)
    ensures
        final(out)@ == old(out)@ + escape(b),
{
    let ghost o = out@;
    if b == 0x22 || b == 0x5c {
        out.push(0x5c);
        out.push(b);
    } else if b == 0x08 {
        out.push(0x5c);
        out.push(0x62);
    } else if b == 0x09 {
        out.push(0x5c);
        out.push(0x74);
    } else if b == 0x0a {
        out.push(0x5c);
        out.push(0x6e);
    } else if b == 0x0c {
        out.push(0x5c);
        out.push(0x66);
    } else if b == 0x0d {
        out.push(0x5c);
        out.push(0x72);
    } else if b < 0x20 {
        out.push(0x5c);
        out.push(0x75);
        out.push(0x30);
        out.push(0x30);
        if b < 16 {
            out.push(0x30);
        } else {
            out.push(0x31);
        }
        let l: u8 = b % 16;
        if l < 10 {
            out.push(0x30 + l);
        } else {
            out.push(0x57 + l);
        }
    } else {
        out.push(b);
    }
    assert(out@ =~= o + escape(b));
}

/// Appends `s` as a string literal.
fn push_quoted(out: &mut Vec<u8>, s: &str)
    ensures
        final(out)@ == old(out)@ + quoted(s@),
{
    let ghost o = out@;
    let b = s.as_bytes();
    out.push(0x22);
    let mut i: usize = 0;
    while i < b.len()
        invariant
            i <= b@.len(),
            out@ == o + seq![0x22u8] + escaped(b@.subrange(0, i as int)),
        decreases b@.len() - i,
    {
        proof {
            assert(b@.subrange(0, i + 1).drop_last() =~= b@.subrange(0, i as int));
        }
        push_escape(out, b[i]);
        i = i + 1;
    }
    out.push(0x22);
    proof {
        assert(b@.subrange(0, i as int) =~= b@);
        assert(out@ =~= o + quoted(s@));
    }
}

/// The value of a lowercase hexadecimal digit.
fn hex_value(x: u8) -> (r: Option<u8>)
    ensures
        r matches Some(d) ==> d < 16 && hex_digit(d) == x,
        forall|d: u8| d < 16 && hex_digit(d) == x ==> r == Some(d),
{
    if 0x30 <= x && x <= 0x39 {
        Some(x - 0x30)
    } else if 0x61 <= x && x <= 0x66 {
        Some(x - 0x57)
    } else {
        None
    }
}

/// Reads one escaped byte at position `i`: the byte and the number of text
/// bytes it took.
fn unit_at(t: &[u8], i: usize) -> (r: Option<(u8, usize)>)
    requires
        i < t@.len(),
    ensures
        r matches Some((b, n)) ==> n == escape(b).len() && at(t@, i as int, escape(b)),
        forall|b: u8| #[trigger] at(t@, i as int, escape(b)) ==> r == Some((b, escape(b).len() as usize)),
{
    let c = t[i];
    let ghost tt = t@;
    let r: Option<(u8, usize)> = if c == 0x5c {
        if i + 1 >= t.len() {
            None
        } else {
            let d = t[i + 1];
            if d == 0x22 {
                Some((0x22u8, 2usize))
            } else if d == 0x5c {
                Some((0x5cu8, 2usize))
            } else if d == 0x62 {
                Some((0x08u8, 2usize))
            } else if d == 0x74 {
                Some((0x09u8, 2usize))
            } else if d == 0x6e {
                Some((0x0au8, 2usize))
            } else if d == 0x66 {
                Some((0x0cu8, 2usize))
            } else if d == 0x72 {
                Some((0x0du8, 2usize))
            } else if d == 0x75 {
                if t.len() - i < 6 || t[i + 2] != 0x30 || t[i + 3] != 0x30 {
                    None
                } else {
                    let h = t[i + 4];
                    match hex_value(t[i + 5]) {
                        Some(l) => {
                            let v: u8 = if h == 0x30 {
                                l
                            } else if h == 0x31 {
                                16 + l
                            } else {
                                0x20
                            };
                            if v < 0x20 && v != 0x08 && v != 0x09 && v != 0x0a && v != 0x0c && v
                                != 0x0d {
                                Some((v, 6usize))
                            } else {
                                None
                            }
                        },
                        None => None,
                    }
                }
            } else {
                None
            }
        }
    } else if c < 0x20 || c == 0x22 {
        None
    } else {
        Some((c, 1usize))
    };
    proof {
        if let Some((b, n)) = r {
            assert(tt.subrange(i as int, i + n) =~= escape(b));
        }
        assert forall|b: u8| #[trigger] at(tt, i as int, escape(b)) implies r == Some(
            (b, escape(b).len() as usize),
        ) by {
            let e = escape(b);
            let w = tt.subrange(i as int, i + e.len());
            assert(w[0] == tt[i as int]);
            assert(e.len() >= 2 ==> w[1] == tt[i + 1]);
            assert(e.len() >= 6 ==> w[2] == tt[i + 2] && w[3] == tt[i + 3] && w[4] == tt[i + 4]
                && w[5] == tt[i + 5]);
        }
    }
    r
}

/// Reads a string literal that starts at position `i`: its bytes, and the
/// position just after it.
fn parse_literal(t: &[u8], i: usize) -> (r: Option<(Vec<u8>, usize)>)
    ensures
        r matches Some((b, j)) ==> j == i + literal(b@).len() && at(t@, i as int, literal(b@)),
        forall|bb: Seq<u8>| #[trigger] at(t@, i as int, literal(bb)) ==> (r matches Some((b, j))
            && b@ == bb),
{
    let ghost tt = t@;
    if i >= t.len() || t[i] != 0x22 {
        proof {
            assert forall|bb: Seq<u8>| #[trigger] at(tt, i as int, literal(bb)) implies false by {
                assert(literal(bb)[0] == 0x22);
                assert(tt.subrange(i as int, i + literal(bb).len())[0] == tt[i as int]);
            }
        }
        return None;
    }
    let mut out: Vec<u8> = Vec::new();
    let mut pos: usize = i + 1;
    proof {
        assert(escaped(out@) =~= Seq::<u8>::empty());
        assert(tt.subrange(i as int, i + 1) =~= seq![0x22u8] + escaped(out@));
    }
    loop
        invariant
            i < pos <= tt.len(),
            tt == t@,
            pos == i + 1 + escaped(out@).len(),
            at(tt, i as int, seq![0x22u8] + escaped(out@)),
            forall|bb: Seq<u8>| #[trigger]
                at(tt, i as int, literal(bb)) ==> out@.len() <= bb.len() && out@ == bb.subrange(
                    0,
                    out@.len() as int,
                ),
        decreases tt.len() - pos,
    {
        let ghost k = out@.len() as int;
        proof {
            assert forall|bb: Seq<u8>| #[trigger] at(tt, i as int, literal(bb)) implies pos < tt.len() && (k
                == bb.len() ==> tt[pos as int] == 0x22) && (k < bb.len() ==> at(
                tt,
                pos as int,
                escape(bb[k]),
            )) by {
                lemma_at_concat(tt, i as int, seq![0x22u8] + escaped(bb), seq![0x22u8]);
                lemma_at_concat(tt, i as int, seq![0x22u8], escaped(bb));
                if k == bb.len() {
                    assert(out@ =~= bb);
                    assert(tt.subrange(pos as int, pos + 1)[0] == tt[pos as int]);
                } else {
                    lemma_escaped_split(bb, k);
                    let p = escaped(bb.subrange(0, k));
                    let e = escape(bb[k]);
                    let q = escaped(bb.subrange(k + 1, bb.len() as int));
                    lemma_at_concat(tt, i + 1, p + e, q);
                    lemma_at_concat(tt, i + 1, p, e);
                    lemma_escape_first(bb[k]);
                }
            }
        }
        if pos >= t.len() {
            proof {
                assert forall|bb: Seq<u8>| #[trigger] at(tt, i as int, literal(bb)) implies false by {
                    if k < bb.len() {
                        lemma_escape_first(bb[k]);
                    }
                }
            }
            return None;
        }
        if t[pos] == 0x22 {
            proof {
                lemma_at_concat(tt, i as int, seq![0x22u8] + escaped(out@), seq![0x22u8]);
                assert(tt.subrange(pos as int, pos + 1) =~= seq![0x22u8]);
                assert forall|bb: Seq<u8>| #[trigger] at(tt, i as int, literal(bb)) implies out@
                    == bb by {
                    if k < bb.len() {
                        lemma_escape_first(bb[k]);
                        assert(tt.subrange(pos as int, pos + escape(bb[k]).len())[0] == tt[pos as int]);
                    }
                    assert(out@ =~= bb);
                }
            }
            return Some((out, pos + 1));
        }
        match unit_at(t, pos) {
            None => {
                proof {
                    assert forall|bb: Seq<u8>| #[trigger] at(tt, i as int, literal(bb)) implies false by {
                        if k < bb.len() {
                            assert(at(tt, pos as int, escape(bb[k])));
                        }
                    }
                }
                return None;
            },
            Some((b, n)) => {
                let ghost o = out@;
                out.push(b);
                proof {
                    assert(out@.drop_last() =~= o);
                    lemma_at_concat(tt, i as int, seq![0x22u8] + escaped(o), escape(b));
                    assert(seq![0x22u8] + escaped(o) + escape(b) =~= seq![0x22u8] + escaped(out@));
                    assert forall|bb: Seq<u8>| #[trigger] at(tt, i as int, literal(bb)) implies out@.len()
                        <= bb.len() && out@ == bb.subrange(0, out@.len() as int) by {
                        if k == bb.len() {
                            assert(tt[pos as int] == 0x22);
                        }
                        assert(at(tt, pos as int, escape(bb[k])));
                        assert(out@ =~= bb.subrange(0, out@.len() as int));
                    }
                }
                pos = pos + n;
            },
        }
    }
}

proof fn lemma_entries_step(es: Seq<(Seq<char>, Seq<char>)>, k: int)
    requires
        0 <= k < es.len(),
    ensures
        k == 0 ==> entries_text(es.subrange(0, 1)) == pair_text(es[0].0, es[0].1),
        k > 0 ==> entries_text(es.subrange(0, k + 1)) == entries_text(es.subrange(0, k)) + seq![
            0x2cu8,
        ] + pair_text(es[k].0, es[k].1),
{
    assert(es.subrange(0, k + 1).drop_last() =~= es.subrange(0, k));
}

proof fn lemma_entries_prefix(es: Seq<(Seq<char>, Seq<char>)>, k: int)
    requires
        0 <= k <= es.len(),
    ensures
        is_prefix(entries_text(es.subrange(0, k)), entries_text(es)),
    decreases es.len(),
{
    if k == es.len() {
        assert(es.subrange(0, k) =~= es);
        assert(entries_text(es).subrange(0, entries_text(es).len() as int) =~= entries_text(es));
    } else if k == 0 {
        assert(es.subrange(0, 0) =~= Seq::<(Seq<char>, Seq<char>)>::empty());
        assert(entries_text(es).subrange(0, 0) =~= Seq::<u8>::empty());
    } else {
        let d = es.drop_last();
        lemma_entries_prefix(d, k);
        assert(d.subrange(0, k) =~= es.subrange(0, k));
        let a = entries_text(es.subrange(0, k));
        let b = entries_text(d);
        let c = entries_text(es);
        if es.len() == 1 {
        } else {
            assert(c == b + seq![0x2cu8] + pair_text(es.last().0, es.last().1));
            assert(c.subrange(0, a.len() as int) =~= b.subrange(0, a.len() as int));
        }
    }
}

/// Where `vault_text(m)` stands, its five parts stand.
proof fn lemma_vault_parts(t: Seq<u8>, m: VaultModel)
    requires
        vault_text(m) == t,
    ensures
        at(t, 0, name_open()),
        at(t, 8, quoted(m.name)),
        at(t, 8 + quoted(m.name).len() as int, entries_open()),
        at(t, 20 + quoted(m.name).len() as int, entries_text(m.entries)),
        at(t, 20 + quoted(m.name).len() + entries_text(m.entries).len() as int, close_both()),
        t.len() == 22 + quoted(m.name).len() + entries_text(m.entries).len(),
{
    let a = name_open();
    let b = quoted(m.name);
    let c = entries_open();
    let d = entries_text(m.entries);
    let e = close_both();
    assert(t.subrange(0, t.len() as int) =~= t);
    lemma_at_concat(t, 0, a + b + c + d, e);
    lemma_at_concat(t, 0, a + b + c, d);
    lemma_at_concat(t, 0, a + b, c);
    lemma_at_concat(t, 0, a, b);
}

fn push_bytes(out: &mut Vec<u8>, b: &[u8])
    ensures
        final(out)@ == old(out)@ + b@,
{
    let ghost o = out@;
    let mut i: usize = 0;
    while i < b.len()
        invariant
            i <= b@.len(),
            out@ == o + b@.subrange(0, i as int),
        decreases b@.len() - i,
    {
        out.push(b[i]);
        i = i + 1;
        assert(out@ =~= o + b@.subrange(0, i as int));
    }
    assert(b@.subrange(0, i as int) =~= b@);
}

/// Whether the bytes `b` stand in `t` from position `i` on.
fn bytes_at(t: &[u8], i: usize, b: &[u8]) -> (r: bool)
    ensures
        r == at(t@, i as int, b@),
{
    if i > t.len() || t.len() - i < b.len() {
        return false;
    }
    let n = t.len();
    let mut k: usize = 0;
    while k < b.len()
        invariant
            n == t@.len(),
            k <= b@.len(),
            i + b@.len() <= t@.len(),
            forall|j: int| 0 <= j < k ==> t@[i + j] == b@[j],
        decreases b@.len() - k,
    {
        if t[i + k] != b[k] {
            assert(t@.subrange(i as int, i + b@.len())[k as int] == t@[i + k]);
            return false;
        }
        k = k + 1;
    }
    assert(t@.subrange(i as int, i + b@.len()) =~= b@);
    true
}

fn name_open_bytes() -> (r: Vec<u8>)
    ensures
        r@ == name_open(),
{
    let r = vec![0x7bu8, 0x22u8, 0x6eu8, 0x61u8, 0x6du8, 0x65u8, 0x22u8, 0x3au8];
    assert(r@ =~= name_open());
    r
}

fn entries_open_bytes() -> (r: Vec<u8>)
    ensures
        r@ == entries_open(),
{
    let r = vec![
        0x2cu8,
        0x22u8,
        0x65u8,
        0x6eu8,
        0x74u8,
        0x72u8,
        0x69u8,
        0x65u8,
        0x73u8,
        0x22u8,
        0x3au8,
        0x7bu8,
    ];
    assert(r@ =~= entries_open());
    r
}

fn close_both_bytes() -> (r: Vec<u8>)
    ensures
        r@ == close_both(),
{
    let r = vec![0x7du8, 0x7du8];
    assert(r@ =~= close_both());
    r
}

/// The canonical text of `v`.
pub fn encode_vault(v: &Vault) -> (r: Vec<u8>)
    ensures
        r@ == vault_text(v@),
{
    let mut out: Vec<u8> = Vec::new();
    push_bytes(&mut out, name_open_bytes().as_slice());
    push_quoted(&mut out, v.name.as_str());
    push_bytes(&mut out, entries_open_bytes().as_slice());
    let ghost head = out@;
    let ghost es = v@.entries;
    let mut i: usize = 0;
    proof {
        assert(es.subrange(0, 0) =~= Seq::<(Seq<char>, Seq<char>)>::empty());
        assert(out@ =~= head + entries_text(es.subrange(0, 0)));
    }
    while i < v.entries.len()
        invariant
            es == v@.entries,
            i <= es.len(),
            head == name_open() + quoted(v@.name) + entries_open(),
            out@ == head + entries_text(es.subrange(0, i as int)),
        decreases es.len() - i,
    {
        let ghost before = out@;
        proof {
            lemma_entries_step(es, i as int);
        }
        if i > 0 {
            out.push(0x2c);
        }
        push_quoted(&mut out, v.entries[i].key.as_str());
        out.push(0x3a);
        push_quoted(&mut out, v.entries[i].value.as_str());
        proof {
            assert(es[i as int] == v.entries@[i as int]@);
            if i > 0 {
                assert(out@ =~= before + seq![0x2cu8] + pair_text(es[i as int].0, es[i as int].1));
            } else {
                assert(out@ =~= before + pair_text(es[i as int].0, es[i as int].1));
            }
        }
        i = i + 1;
    }
    push_bytes(&mut out, close_both_bytes().as_slice());
    proof {
        assert(es.subrange(0, i as int) =~= es);
        assert(out@ =~= vault_text(v@));
    }
    out
}

/// The string whose UTF-8 bytes `b` are; `None` where they are not UTF-8.
fn text_of(b: Vec<u8>) -> (r: Option<String>)
    ensures
        r matches Some(s) ==> encode_utf8(s@) == b@,
        forall|s: Seq<char>| encode_utf8(s) == b@ ==> (r matches Some(x) && x@ == s),
{
    let ghost bb = b@;
    let r = utf8_string(b);
    proof {
        assert forall|s: Seq<char>| encode_utf8(s) == bb implies (r matches Some(x) && x@ == s) by {
            encode_utf8_valid_utf8(s);
            encode_utf8_decode_utf8(s);
        }
        if r is Some {
            decode_utf8_encode_utf8(bb);
        }
    }
    r
}

/// Reads `"key":"value"` at position `i`: the entry and the position after it.
fn parse_pair(t: &[u8], i: usize) -> (r: Option<(Entry, usize)>)
    ensures
        r matches Some((e, j)) ==> j == i + pair_text(e@.0, e@.1).len() && at(
            t@,
            i as int,
            pair_text(e@.0, e@.1),
        ),
        forall|k: Seq<char>, v: Seq<char>| #[trigger]
            at(t@, i as int, pair_text(k, v)) ==> (r matches Some((e, j)) && e@ == (k, v)),
{
    let ghost tt = t@;
    proof {
        assert forall|k: Seq<char>, v: Seq<char>| #[trigger] at(tt, i as int, pair_text(k, v)) implies at(
            tt,
            i as int,
            literal(encode_utf8(k)),
        ) && at(tt, i + quoted(k).len(), seq![0x3au8]) && at(
            tt,
            i + quoted(k).len() + 1,
            literal(encode_utf8(v)),
        ) by {
            lemma_at_concat(tt, i as int, quoted(k) + seq![0x3au8], quoted(v));
            lemma_at_concat(tt, i as int, quoted(k), seq![0x3au8]);
        }
    }
    let (kb, j1) = match parse_literal(t, i) {
        Some(x) => x,
        None => { return None; },
    };
    if j1 >= t.len() || t[j1] != 0x3a {
        proof {
            assert forall|k: Seq<char>, v: Seq<char>| #[trigger] at(tt, i as int, pair_text(k, v)) implies false by {
                assert(tt.subrange(j1 as int, j1 + 1)[0] == tt[j1 as int]);
            }
        }
        return None;
    }
    let (vb, j2) = match parse_literal(t, j1 + 1) {
        Some(x) => x,
        None => { return None; },
    };
    let ghost kbv = kb@;
    let ghost vbv = vb@;
    let key = match text_of(kb) {
        Some(x) => x,
        None => { return None; },
    };
    let value = match text_of(vb) {
        Some(x) => x,
        None => { return None; },
    };
    let e = Entry { key, value };
    proof {
        assert(tt.subrange(j1 as int, j1 + 1) =~= seq![0x3au8]);
        lemma_at_concat(tt, i as int, quoted(e@.0), seq![0x3au8]);
        lemma_at_concat(tt, i as int, quoted(e@.0) + seq![0x3au8], quoted(e@.1));
    }
    Some((e, j2))
}

/// The entries `es` (unique keys), then `}}`, stand in `t` from `i` on.
pub open spec fn entries_at(t: Seq<u8>, i: int, es: Seq<(Seq<char>, Seq<char>)>) -> bool {
    keys_unique(es) && at(t, i, entries_text(es) + close_both())
}

/// What follows the first `k` entries: a comma and the next pair, or `}`.
proof fn lemma_next_entry(t: Seq<u8>, i: int, es: Seq<(Seq<char>, Seq<char>)>, k: int)
    requires
        at(t, i, entries_text(es) + close_both()),
        0 <= k <= es.len(),
    ensures
        ({
            let p = i + entries_text(es.subrange(0, k)).len();
            &&& (k < es.len() && k > 0) ==> p < t.len() && t[p] == 0x2c && at(t, p + 1, pair_text(es[k].0, es[k].1))
            &&& (k < es.len() && k == 0) ==> p < t.len() && t[p] == 0x22 && at(t, p, pair_text(es[k].0, es[k].1))
            &&& k == es.len() ==> p < t.len() && t[p] == 0x7d && at(t, p, close_both())
        }),
{
    lemma_at_concat(t, i, entries_text(es), close_both());
    let p = i + entries_text(es.subrange(0, k)).len();
    if k == es.len() {
        assert(es.subrange(0, k) =~= es);
        assert(t.subrange(p, p + 2)[0] == t[p]);
    } else {
        lemma_entries_prefix(es, k + 1);
        lemma_entries_step(es, k);
        lemma_at_prefix(t, i, entries_text(es.subrange(0, k + 1)), entries_text(es));
        let q = pair_text(es[k].0, es[k].1);
        if k > 0 {
            let c = entries_text(es.subrange(0, k));
            lemma_at_concat(t, i, c + seq![0x2cu8], q);
            lemma_at_concat(t, i, c, seq![0x2cu8]);
            assert(t.subrange(p, p + 1)[0] == t[p]);
        } else {
            assert(es.subrange(0, 0) =~= Seq::<(Seq<char>, Seq<char>)>::empty());
            assert(q[0] == 0x22);
            assert(t.subrange(p, p + q.len())[0] == t[p]);
        }
    }
}

/// Reads the entries that start at position `i`, up to the closing `}`: the
/// entries and the position of that `}`.
fn parse_entries(t: &[u8], i: usize) -> (r: Option<(Vec<Entry>, usize)>)
    ensures
        r matches Some((es, j)) ==> keys_unique(entry_seq(es@)) && j == i + entries_text(
            entry_seq(es@),
        ).len() && at(t@, i as int, entries_text(entry_seq(es@))),
        forall|em: Seq<(Seq<char>, Seq<char>)>| #[trigger]
            entries_at(t@, i as int, em) ==> (r matches Some((es, j)) && entry_seq(es@) == em),
{
    let ghost tt = t@;
    let mut es: Vec<Entry> = Vec::new();
    proof {
        assert(entry_seq(es@) =~= Seq::<(Seq<char>, Seq<char>)>::empty());
        assert forall|em: Seq<(Seq<char>, Seq<char>)>| #[trigger] entries_at(tt, i as int, em) implies
            entry_seq(es@) == em.subrange(0, 0) && i <= tt.len() by {
            lemma_next_entry(tt, i as int, em, 0);
            assert(em.subrange(0, 0) =~= Seq::<(Seq<char>, Seq<char>)>::empty());
        }
    }
    if i > t.len() {
        return None;
    }
    let mut pos: usize = i;
    assert(tt.subrange(i as int, i as int) =~= entries_text(entry_seq(es@)));
    loop
        invariant
            tt == t@,
            keys_unique(entry_seq(es@)),
            i <= pos <= tt.len(),
            pos == i + entries_text(entry_seq(es@)).len(),
            at(tt, i as int, entries_text(entry_seq(es@))),
            forall|em: Seq<(Seq<char>, Seq<char>)>| #[trigger]
                entries_at(tt, i as int, em) ==> es@.len() <= em.len() && entry_seq(es@)
                    == em.subrange(0, es@.len() as int),
        decreases tt.len() - pos,
    {
        let ghost k = es@.len() as int;
        let ghost cur = entry_seq(es@);
        proof {
            assert forall|em: Seq<(Seq<char>, Seq<char>)>| #[trigger] entries_at(tt, i as int, em) implies ({
                let p = i + entries_text(em.subrange(0, k)).len();
                &&& p == pos
                &&& (k < em.len() && k > 0) ==> p < tt.len() && tt[p] == 0x2c && at(tt, p + 1, pair_text(em[k].0, em[k].1))
                &&& (k < em.len() && k == 0) ==> p < tt.len() && tt[p] == 0x22 && at(tt, p, pair_text(em[k].0, em[k].1))
                &&& k == em.len() ==> p < tt.len() && tt[p] == 0x7d
            }) by {
                lemma_next_entry(tt, i as int, em, k);
            }
        }
        let start: usize = if es.len() == 0 {
            if pos >= t.len() || t[pos] != 0x22 {
                proof {
                    assert forall|em: Seq<(Seq<char>, Seq<char>)>| #[trigger] entries_at(tt, i as int, em) implies
                        em.len() == 0 by {}
                }
                return Some((es, pos));
            }
            pos
        } else {
            if pos >= t.len() || t[pos] != 0x2c {
                proof {
                    assert forall|em: Seq<(Seq<char>, Seq<char>)>| #[trigger] entries_at(tt, i as int, em) implies
                        em.len() == k by {}
                }
                return Some((es, pos));
            }
            pos + 1
        };
        proof {
            assert forall|em: Seq<(Seq<char>, Seq<char>)>| #[trigger] entries_at(tt, i as int, em) implies
                k < em.len() && at(tt, start as int, pair_text(em[k].0, em[k].1)) by {}
        }
        let (e, p2) = match parse_pair(t, start) {
            Some(x) => x,
            None => {
                return None;
            },
        };
        if holds_key(&es, e.key.as_str()) {
            proof {
                assert forall|em: Seq<(Seq<char>, Seq<char>)>| #[trigger] entries_at(tt, i as int, em) implies false by {
                    assert(at(tt, start as int, pair_text(em[k].0, em[k].1)));
                    let w = choose|w: int| 0 <= w < cur.len() && (#[trigger] cur[w]).0 == e@.0;
                    assert(cur[w] == em[w]);
                }
            }
            return None;
        }
        let ghost ev = e@;
        es.push(e);
        proof {
            let nxt = entry_seq(es@);
            assert(nxt =~= cur.push(ev));
            assert(nxt.drop_last() =~= cur);
            if k > 0 {
                assert(entries_text(nxt) == entries_text(cur) + seq![0x2cu8] + pair_text(ev.0, ev.1));
                assert(tt.subrange(pos as int, pos + 1) =~= seq![0x2cu8]);
                lemma_at_concat(tt, i as int, entries_text(cur), seq![0x2cu8]);
                lemma_at_concat(tt, i as int, entries_text(cur) + seq![0x2cu8], pair_text(ev.0, ev.1));
            } else {
                assert(entries_text(nxt) == pair_text(ev.0, ev.1));
                assert(entries_text(cur) =~= Seq::<u8>::empty());
            }
            assert forall|a: int, b: int| 0 <= a < b < nxt.len() implies (#[trigger] nxt[a]).0
                != (#[trigger] nxt[b]).0 by {
                if b == cur.len() {
                    assert(nxt[a] == cur[a]);
                } else {
                    assert(cur[a].0 != cur[b].0);
                }
            }
            assert forall|em: Seq<(Seq<char>, Seq<char>)>| #[trigger] entries_at(tt, i as int, em) implies es@.len()
                <= em.len() && entry_seq(es@) == em.subrange(0, es@.len() as int) by {
                assert(at(tt, start as int, pair_text(em[k].0, em[k].1)));
                assert(entry_seq(es@) =~= em.subrange(0, es@.len() as int));
            }
        }
        pos = p2;
    }
}

/// `t` is the canonical text of the well-formed vault `m`.
pub open spec fn is_text_of(t: Seq<u8>, m: VaultModel) -> bool {
    keys_unique(m.entries) && vault_text(m) == t
}

/// Reads a vault from its canonical text. It succeeds exactly on the canonical
/// texts of vaults with unique keys, and gives back that vault.
pub fn decode_vault(t: &[u8]) -> (r: Option<Vault>)
    ensures
        r matches Some(v) ==> v.wf() && vault_text(v@) == t@,
        forall|m: VaultModel| #[trigger] is_text_of(t@, m) ==> (r matches Some(v) && v@ == m),
{
    let ghost tt = t@;
    proof {
        assert forall|m: VaultModel| #[trigger] is_text_of(tt, m) implies at(tt, 0, name_open())
            && at(tt, 8, literal(encode_utf8(m.name))) && at(
            tt,
            8 + quoted(m.name).len() as int,
            entries_open(),
        ) by {
            lemma_vault_parts(tt, m);
        }
    }
    if !bytes_at(t, 0, name_open_bytes().as_slice()) {
        return None;
    }
    let (nb, j) = match parse_literal(t, 8) {
        Some(x) => x,
        None => {
            return None;
        },
    };
    let ghost nbv = nb@;
    let name = match text_of(nb) {
        Some(x) => x,
        None => {
            return None;
        },
    };
    if !bytes_at(t, j, entries_open_bytes().as_slice()) {
        return None;
    }
    let n = t.len();
    assert(entries_open().len() == 12);
    assert(j + 12 <= n);
    let estart: usize = j + 12;
    proof {
        assert forall|m: VaultModel| #[trigger] is_text_of(tt, m) implies name@ == m.name
            && entries_at(tt, estart as int, m.entries) by {
            lemma_vault_parts(tt, m);
            lemma_at_concat(tt, estart as int, entries_text(m.entries), close_both());
        }
    }
    let (es, pos) = match parse_entries(t, estart) {
        Some(x) => x,
        None => {
            return None;
        },
    };
    let ghost fin = entry_seq(es@);
    if !bytes_at(t, pos, close_both_bytes().as_slice()) || t.len() - pos != 2 {
        proof {
            assert forall|m: VaultModel| #[trigger] is_text_of(tt, m) implies false by {
                lemma_vault_parts(tt, m);
            }
        }
        return None;
    }
    let v = Vault { name, entries: es };
    proof {
        let q = quoted(name@);
        assert(literal(nbv) == q);
        lemma_at_concat(tt, 0, name_open(), q);
        lemma_at_concat(tt, 0, name_open() + q, entries_open());
        lemma_at_concat(tt, 0, name_open() + q + entries_open(), entries_text(fin));
        lemma_at_concat(tt, 0, name_open() + q + entries_open() + entries_text(fin), close_both());
        assert(tt.subrange(0, tt.len() as int) =~= tt);
        assert(v@.entries == fin);
        assert(tt =~= vault_text(v@));
    }
    Some(v)
}

proof fn lemma_escape_unique(t: Seq<u8>, i: int, p: u8, q: u8)
    requires
        at(t, i, escape(p)),
        at(t, i, escape(q)),
    ensures
        p == q,
{
    let ep = escape(p);
    let eq = escape(q);
    let wp = t.subrange(i, i + ep.len());
    let wq = t.subrange(i, i + eq.len());
    assert(wp[0] == t[i] && wq[0] == t[i]);
    if ep.len() >= 2 && eq.len() >= 2 {
        assert(wp[1] == t[i + 1] && wq[1] == t[i + 1]);
    }
    if ep.len() == 6 && eq.len() == 6 {
        assert(wp[4] == t[i + 4] && wq[4] == t[i + 4]);
        assert(wp[5] == t[i + 5] && wq[5] == t[i + 5]);
    }
}

proof fn lemma_escaped_unique(t: Seq<u8>, i: int, a: Seq<u8>, b: Seq<u8>)
    requires
        at(t, i, escaped(a) + seq![0x22u8]),
        at(t, i, escaped(b) + seq![0x22u8]),
    ensures
        a == b,
    decreases a.len(),
{
    lemma_at_concat(t, i, escaped(a), seq![0x22u8]);
    lemma_at_concat(t, i, escaped(b), seq![0x22u8]);
    if a.len() > 0 {
        lemma_escaped_split(a, 0);
        assert(a.subrange(0, 0) =~= Seq::<u8>::empty());
        lemma_at_concat(t, i, escape(a[0]), escaped(a.subrange(1, a.len() as int)));
        lemma_escape_first(a[0]);
        assert(escaped(a.subrange(0, 0)) =~= Seq::<u8>::empty());
        assert(escaped(a) =~= escape(a[0]) + escaped(a.subrange(1, a.len() as int)));
    }
    if b.len() > 0 {
        lemma_escaped_split(b, 0);
        assert(b.subrange(0, 0) =~= Seq::<u8>::empty());
        lemma_escape_first(b[0]);
        assert(escaped(b.subrange(0, 0)) =~= Seq::<u8>::empty());
        assert(escaped(b) =~= escape(b[0]) + escaped(b.subrange(1, b.len() as int)));
        lemma_at_concat(t, i, escape(b[0]), escaped(b.subrange(1, b.len() as int)));
    }
    if a.len() == 0 && b.len() == 0 {
        assert(a =~= b);
    } else if a.len() == 0 {
        assert(escaped(a) =~= Seq::<u8>::empty());
        assert(t.subrange(i, i + 1)[0] == t[i]);
        assert(t.subrange(i, i + escape(b[0]).len())[0] == t[i]);
    } else if b.len() == 0 {
        assert(escaped(b) =~= Seq::<u8>::empty());
        assert(t.subrange(i, i + 1)[0] == t[i]);
        assert(t.subrange(i, i + escape(a[0]).len())[0] == t[i]);
    } else {
        lemma_escape_unique(t, i, a[0], b[0]);
        let n = escape(a[0]).len() as int;
        let ra = a.subrange(1, a.len() as int);
        let rb = b.subrange(1, b.len() as int);
        lemma_at_concat(t, i, escape(a[0]) + escaped(ra), seq![0x22u8]);
        lemma_at_concat(t, i, escape(b[0]) + escaped(rb), seq![0x22u8]);
        lemma_at_concat(t, i + n, escaped(ra), seq![0x22u8]);
        lemma_at_concat(t, i + n, escaped(rb), seq![0x22u8]);
        lemma_escaped_unique(t, i + n, ra, rb);
        assert(a =~= seq![a[0]] + ra);
        assert(b =~= seq![b[0]] + rb);
    }
}

proof fn lemma_literal_unique(t: Seq<u8>, i: int, a: Seq<u8>, b: Seq<u8>)
    requires
        at(t, i, literal(a)),
        at(t, i, literal(b)),
    ensures
        a == b,
{
    assert(literal(a) =~= seq![0x22u8] + (escaped(a) + seq![0x22u8]));
    assert(literal(b) =~= seq![0x22u8] + (escaped(b) + seq![0x22u8]));
    lemma_at_concat(t, i, seq![0x22u8], escaped(a) + seq![0x22u8]);
    lemma_at_concat(t, i, seq![0x22u8], escaped(b) + seq![0x22u8]);
    lemma_escaped_unique(t, i + 1, a, b);
}

proof fn lemma_quoted_unique(t: Seq<u8>, i: int, a: Seq<char>, b: Seq<char>)
    requires
        at(t, i, quoted(a)),
        at(t, i, quoted(b)),
    ensures
        a == b,
{
    lemma_literal_unique(t, i, encode_utf8(a), encode_utf8(b));
    encode_utf8_decode_utf8(a);
    encode_utf8_decode_utf8(b);
}

proof fn lemma_pair_unique(
    t: Seq<u8>,
    i: int,
    a: (Seq<char>, Seq<char>),
    b: (Seq<char>, Seq<char>),
)
    requires
        at(t, i, pair_text(a.0, a.1)),
        at(t, i, pair_text(b.0, b.1)),
    ensures
        a == b,
{
    lemma_at_concat(t, i, quoted(a.0) + seq![0x3au8], quoted(a.1));
    lemma_at_concat(t, i, quoted(a.0), seq![0x3au8]);
    lemma_at_concat(t, i, quoted(b.0) + seq![0x3au8], quoted(b.1));
    lemma_at_concat(t, i, quoted(b.0), seq![0x3au8]);
    lemma_quoted_unique(t, i, a.0, b.0);
    lemma_quoted_unique(t, i + quoted(a.0).len() + 1, a.1, b.1);
}

proof fn lemma_entries_agree(
    t: Seq<u8>,
    i: int,
    a: Seq<(Seq<char>, Seq<char>)>,
    b: Seq<(Seq<char>, Seq<char>)>,
    k: int,
)
    requires
        at(t, i, entries_text(a) + close_both()),
        at(t, i, entries_text(b) + close_both()),
        0 <= k <= a.len(),
        k <= b.len(),
    ensures
        a.subrange(0, k) == b.subrange(0, k),
    decreases k,
{
    if k > 0 {
        lemma_entries_agree(t, i, a, b, k - 1);
        lemma_next_entry(t, i, a, k - 1);
        lemma_next_entry(t, i, b, k - 1);
        if k - 1 > 0 {
            lemma_pair_unique(t, i + entries_text(a.subrange(0, k - 1)).len() + 1, a[k - 1], b[k - 1]);
        } else {
            assert(a.subrange(0, 0) =~= b.subrange(0, 0));
            lemma_pair_unique(t, i + entries_text(a.subrange(0, 0)).len(), a[0], b[0]);
        }
        assert(a.subrange(0, k) =~= a.subrange(0, k - 1).push(a[k - 1]));
        assert(b.subrange(0, k) =~= b.subrange(0, k - 1).push(b[k - 1]));
    } else {
        assert(a.subrange(0, 0) =~= b.subrange(0, 0));
    }
}

proof fn lemma_entries_unique(
    t: Seq<u8>,
    i: int,
    a: Seq<(Seq<char>, Seq<char>)>,
    b: Seq<(Seq<char>, Seq<char>)>,
)
    requires
        at(t, i, entries_text(a) + close_both()),
        at(t, i, entries_text(b) + close_both()),
    ensures
        a == b,
{
    let n = if a.len() <= b.len() { a.len() as int } else { b.len() as int };
    lemma_entries_agree(t, i, a, b, n);
    lemma_next_entry(t, i, a, n);
    lemma_next_entry(t, i, b, n);
    if a.len() == b.len() {
        assert(a.subrange(0, n) =~= a);
        assert(b.subrange(0, n) =~= b);
    }
}

/// The canonical text determines the vault: two well-formed vaults with the
/// same text are the same vault.
pub proof fn lemma_text_determines_vault(t: Seq<u8>, m1: VaultModel, m2: VaultModel)
    requires
        is_text_of(t, m1),
        is_text_of(t, m2),
    ensures
        m1 == m2,
{
    lemma_vault_parts(t, m1);
    lemma_vault_parts(t, m2);
    lemma_quoted_unique(t, 8, m1.name, m2.name);
    let s = 20 + quoted(m1.name).len() as int;
    lemma_at_concat(t, s, entries_text(m1.entries), close_both());
    lemma_at_concat(t, s, entries_text(m2.entries), close_both());
    lemma_entries_unique(t, s, m1.entries, m2.entries);
}

} // verus!
