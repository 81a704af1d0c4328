use vstd::prelude::*;

use vstd::bytes::lemma_auto_spec_u32_to_from_le_bytes;
use vstd::bytes::lemma_auto_spec_u64_to_from_le_bytes;
use vstd::bytes::spec_u32_from_le_bytes;
use vstd::bytes::spec_u32_to_le_bytes;
use vstd::bytes::spec_u64_from_le_bytes;
use vstd::bytes::spec_u64_to_le_bytes;
use vstd::bytes::u32_from_le_bytes;
use vstd::bytes::u32_to_le_bytes;
use vstd::bytes::u64_from_le_bytes;
use vstd::bytes::u64_to_le_bytes;
use vstd::slice::slice_subrange;
use crate::metadata::MetaVal;
use crate::metadata::MetaValue;
use crate::metadata::mval_view;
use crate::metadata::mval_list_view;
use crate::metadata::mval_obj_view;
use crate::metadata::lemma_mval_list_view;
use crate::metadata::lemma_mval_obj_view;
use crate::db::Collection;
use crate::db::CollectionView;
use crate::db::Db;
use crate::db::DbView;
use crate::errors::Error;
use crate::id_generator::IdGenerator;
use crate::db::Embedding;
use crate::db::Distance;
use crate::db::EmbeddingView;
use crate::bitmaps::spec_projection;
use vstd::utf8::char_is_scalar;
use vstd::utf8::char_u32_cast;
use vstd::utf8::is_scalar;

verus! {

// The snapshot is a single self-describing binary blob. All counts and
// lengths travel as 64-bit little-endian integers; characters travel as
// their 32-bit scalar values; a metadata value is a tag byte followed by
// its payload. Presence bitmaps are derived state and are not written:
// they are projected anew from the decoded metadata.
/// Relies on std's `char::from_u32`: `Some` exactly on Unicode scalar
/// values, returning the character of that scalar value.
#[verifier::external_body]
fn char_from_u32(u: u32) -> (r: Option<char>)
    ensures
        r == (if is_scalar(u) {
            Some(u as char)
        } else {
            None::<char>
        }),
{
    char::from_u32(u)
}

/// Relies on std's `String::push`: appends one character.
#[verifier::external_body]
fn push_char(s: &mut String, c: char)
    ensures
        final(s)@ == old(s)@.push(c),
{
    s.push(c);
}

// ---------------------------------------------------------------------
// Specification-level encoders.
// ---------------------------------------------------------------------
pub open spec fn enc_u64(x: u64) -> Seq<u8> {
    spec_u64_to_le_bytes(x)
}

pub open spec fn enc_u32(x: u32) -> Seq<u8> {
    spec_u32_to_le_bytes(x)
}

pub open spec fn enc_chars(s: Seq<char>) -> Seq<u8>
    decreases s.len(),
{
    if s.len() == 0 {
        Seq::empty()
    } else {
        enc_chars(s.drop_last()) + enc_u32(s.last() as u32)
    }
}

pub open spec fn enc_string(s: Seq<char>) -> Seq<u8> {
    enc_u64(s.len() as u64) + enc_chars(s)
}

// ---------------------------------------------------------------------
// Specification-level parsers. Every parser returns the decoded value
// and the position just past what it consumed, or nothing where the
// bytes cannot be decoded.
// ---------------------------------------------------------------------
pub open spec fn parse_u64(bytes: Seq<u8>, pos: int) -> Option<(u64, int)> {
    if 0 <= pos && pos + 8 <= bytes.len() {
        Some((spec_u64_from_le_bytes(bytes.subrange(pos, pos + 8)), pos + 8))
    } else {
        None
    }
}

pub open spec fn parse_u32(bytes: Seq<u8>, pos: int) -> Option<(u32, int)> {
    if 0 <= pos && pos + 4 <= bytes.len() {
        Some((spec_u32_from_le_bytes(bytes.subrange(pos, pos + 4)), pos + 4))
    } else {
        None
    }
}

pub open spec fn parse_byte(bytes: Seq<u8>, pos: int) -> Option<(u8, int)> {
    if 0 <= pos && pos + 1 <= bytes.len() {
        Some((bytes[pos], pos + 1))
    } else {
        None
    }
}

pub open spec fn parse_char(bytes: Seq<u8>, pos: int) -> Option<(char, int)> {
    match parse_u32(bytes, pos) {
        None => None,
        Some((u, p)) => if is_scalar(u) {
            Some((u as char, p))
        } else {
            None
        },
    }
}

pub open spec fn parse_chars(bytes: Seq<u8>, pos: int, n: nat) -> Option<(Seq<char>, int)>
    decreases n,
{
    if n == 0 {
        Some((Seq::empty(), pos))
    } else {
        match parse_char(bytes, pos) {
            None => None,
            Some((c, p)) => match parse_chars(bytes, p, (n - 1) as nat) {
                None => None,
                Some((s, p2)) => Some((seq![c] + s, p2)),
            },
        }
    }
}

pub open spec fn parse_string(bytes: Seq<u8>, pos: int) -> Option<(Seq<char>, int)> {
    match parse_u64(bytes, pos) {
        None => None,
        Some((n, p)) => parse_chars(bytes, p, n as nat),
    }
}

// ---------------------------------------------------------------------
// Completeness: each parser accepts what the matching encoder wrote.
// ---------------------------------------------------------------------
proof fn lemma_parse_u64(bytes: Seq<u8>, pos: int, x: u64)
    requires
        0 <= pos,
        pos + 8 <= bytes.len(),
        bytes.subrange(pos, pos + 8) == enc_u64(x),
    ensures
        parse_u64(bytes, pos) == Some((x, pos + 8)),
{
    lemma_auto_spec_u64_to_from_le_bytes();
}

proof fn lemma_enc_u64_len(x: u64)
    ensures
        enc_u64(x).len() == 8,
{
    lemma_auto_spec_u64_to_from_le_bytes();
}

proof fn lemma_parse_u32(bytes: Seq<u8>, pos: int, x: u32)
    requires
        0 <= pos,
        pos + 4 <= bytes.len(),
        bytes.subrange(pos, pos + 4) == enc_u32(x),
    ensures
        parse_u32(bytes, pos) == Some((x, pos + 4)),
{
    lemma_auto_spec_u32_to_from_le_bytes();
    assert(spec_u32_to_le_bytes(x).len() == 4);
}

proof fn lemma_enc_u32_len(x: u32)
    ensures
        enc_u32(x).len() == 4,
{
    lemma_auto_spec_u32_to_from_le_bytes();
    assert(spec_u32_to_le_bytes(x).len() == 4);
}

proof fn lemma_enc_chars_len(s: Seq<char>)
    ensures
        enc_chars(s).len() == 4 * s.len(),
    decreases s.len(),
{
    lemma_auto_spec_u32_to_from_le_bytes();
    if s.len() > 0 {
        lemma_enc_chars_len(s.drop_last());
    }
}

proof fn lemma_parse_chars(bytes: Seq<u8>, pos: int, s: Seq<char>)
    requires
        0 <= pos,
        pos + enc_chars(s).len() <= bytes.len(),
        bytes.subrange(pos, pos + enc_chars(s).len()) == enc_chars(s),
    ensures
        parse_chars(bytes, pos, s.len()) == Some((s, pos + enc_chars(s).len())),
    decreases s.len(),
{
    lemma_auto_spec_u32_to_from_le_bytes();
    lemma_enc_chars_len(s);
    if s.len() == 0 {
        assert(parse_chars(bytes, pos, 0) == Some((Seq::<char>::empty(), pos)));
        assert(s =~= Seq::<char>::empty());
    } else {
        let head = s[0];
        char_is_scalar(head);
        let tail = s.subrange(1, s.len() as int);
        lemma_enc_chars_len(tail);
        assert(enc_chars(s) =~= enc_u32(head as u32) + enc_chars(tail)) by {
            lemma_enc_chars_head(s);
        }
        lemma_enc_u32_len(head as u32);
        assert(bytes.subrange(pos, pos + 4) =~= enc_u32(head as u32));
        lemma_parse_u32(bytes, pos, head as u32);
        char_is_scalar(head);
        char_u32_cast(head, head as u32);
        assert(parse_char(bytes, pos) == Some((head, pos + 4)));
        assert(bytes.subrange(pos + 4, pos + 4 + enc_chars(tail).len()) =~= enc_chars(tail)) by {
            assert forall|j: int| 0 <= j < enc_chars(tail).len() implies bytes[pos + 4 + j]
                == enc_chars(tail)[j] by {
                assert(bytes.subrange(pos, pos + enc_chars(s).len())[4 + j] == enc_chars(s)[4 + j]);
            }
        }
        lemma_parse_chars(bytes, pos + 4, tail);
        assert(seq![head] + tail =~= s);
    }
}

/// A character list encodes head first.
proof fn lemma_enc_chars_head(s: Seq<char>)
    requires
        s.len() > 0,
    ensures
        enc_chars(s) == enc_u32(s[0] as u32) + enc_chars(s.subrange(1, s.len() as int)),
    decreases s.len(),
{
    let tail = s.subrange(1, s.len() as int);
    if s.len() == 1 {
        assert(s.drop_last() =~= Seq::<char>::empty());
        assert(tail =~= Seq::<char>::empty());
        assert(enc_chars(s) =~= enc_u32(s[0] as u32) + enc_chars(tail));
    } else {
        assert(s.drop_last()[0] == s[0]);
        lemma_enc_chars_head(s.drop_last());
        assert(s.drop_last().subrange(1, s.drop_last().len() as int) =~= tail.drop_last());
        assert(tail.last() == s.last());
        assert(enc_chars(s) == enc_chars(s.drop_last()) + enc_u32(s.last() as u32));
        assert(enc_u32(s[0] as u32) + enc_chars(tail) =~= enc_chars(s.drop_last()) + enc_u32(
            s.last() as u32,
        ));
    }
}

proof fn lemma_parse_string(bytes: Seq<u8>, pos: int, s: Seq<char>)
    requires
        0 <= pos,
        s.len() <= u64::MAX,
        pos + enc_string(s).len() <= bytes.len(),
        bytes.subrange(pos, pos + enc_string(s).len()) == enc_string(s),
    ensures
        parse_string(bytes, pos) == Some((s, pos + enc_string(s).len())),
        enc_string(s).len() == 8 + 4 * s.len(),
{
    lemma_enc_u64_len(s.len() as u64);
    lemma_enc_chars_len(s);
    assert(bytes.subrange(pos, pos + 8) =~= enc_u64(s.len() as u64));
    lemma_parse_u64(bytes, pos, s.len() as u64);
    assert(bytes.subrange(pos + 8, pos + 8 + enc_chars(s).len()) =~= enc_chars(s)) by {
        assert forall|j: int| 0 <= j < enc_chars(s).len() implies bytes[pos + 8 + j]
            == enc_chars(s)[j] by {
            assert(bytes.subrange(pos, pos + enc_string(s).len())[8 + j] == enc_string(s)[8 + j]);
        }
    }
    lemma_parse_chars(bytes, pos + 8, s);
}

// ---------------------------------------------------------------------
// Metadata values on the wire: a tag byte, then the payload.
// ---------------------------------------------------------------------
pub open spec fn enc_mval(v: MetaVal) -> Seq<u8>
    decreases v,
{
    match v {
        MetaVal::Null => seq![0u8],
        MetaVal::Bool(b) => seq![1u8, if b { 1u8 } else { 0u8 }],
        MetaVal::Num(n) => seq![2u8] + enc_u64(n),
        MetaVal::Str(s) => seq![3u8] + enc_string(s),
        MetaVal::List(items) => seq![4u8] + enc_u64(items.len() as u64) + enc_mvals(items),
        MetaVal::Obj(entries) => seq![5u8] + enc_u64(entries.len() as u64) + enc_entries(entries),
    }
}

pub open spec fn enc_mvals(items: Seq<MetaVal>) -> Seq<u8>
    decreases items,
{
    if items.len() == 0 {
        Seq::empty()
    } else {
        enc_mvals(items.drop_last()) + enc_mval(items.last())
    }
}

pub open spec fn enc_entries(entries: Seq<(Seq<char>, MetaVal)>) -> Seq<u8>
    decreases entries,
{
    if entries.len() == 0 {
        Seq::empty()
    } else {
        enc_entries(entries.drop_last()) + enc_string(entries.last().0) + enc_mval(
            entries.last().1,
        )
    }
}

/// Every length in the value fits the wire's 64-bit counts. Values taken
/// from executable data always satisfy this.
pub open spec fn mval_bounded(v: MetaVal) -> bool
    decreases v,
{
    match v {
        MetaVal::Null => true,
        MetaVal::Bool(_) => true,
        MetaVal::Num(_) => true,
        MetaVal::Str(s) => s.len() <= u64::MAX,
        MetaVal::List(items) => items.len() <= u64::MAX && (forall|i: int|
            0 <= i < items.len() ==> mval_bounded(#[trigger] items[i])),
        MetaVal::Obj(entries) => entries.len() <= u64::MAX && (forall|i: int|
            0 <= i < entries.len() ==> (#[trigger] entries[i]).0.len() <= u64::MAX && mval_bounded(
                entries[i].1,
            )),
    }
}

pub open spec fn parse_mval(bytes: Seq<u8>, pos: int) -> Option<(MetaVal, int)>
    decreases bytes.len() - pos, 0nat,
{
    match parse_byte(bytes, pos) {
        None => None,
        Some((tag, p)) => if tag == 0 {
            Some((MetaVal::Null, p))
        } else if tag == 1 {
            match parse_byte(bytes, p) {
                None => None,
                Some((b, p2)) => if b == 0 {
                    Some((MetaVal::Bool(false), p2))
                } else if b == 1 {
                    Some((MetaVal::Bool(true), p2))
                } else {
                    None
                },
            }
        } else if tag == 2 {
            match parse_u64(bytes, p) {
                None => None,
                Some((n, p2)) => Some((MetaVal::Num(n), p2)),
            }
        } else if tag == 3 {
            match parse_string(bytes, p) {
                None => None,
                Some((s, p2)) => Some((MetaVal::Str(s), p2)),
            }
        } else if tag == 4 {
            match parse_u64(bytes, p) {
                None => None,
                Some((n, p2)) => match parse_mvals(bytes, p2, n as nat) {
                    None => None,
                    Some((items, p3)) => Some((MetaVal::List(items), p3)),
                },
            }
        } else if tag == 5 {
            match parse_u64(bytes, p) {
                None => None,
                Some((n, p2)) => match parse_entries(bytes, p2, n as nat) {
                    None => None,
                    Some((entries, p3)) => Some((MetaVal::Obj(entries), p3)),
                },
            }
        } else {
            None
        },
    }
}

pub open spec fn parse_mvals(bytes: Seq<u8>, pos: int, n: nat) -> Option<(Seq<MetaVal>, int)>
    decreases bytes.len() - pos, n,
{
    if n == 0 {
        Some((Seq::empty(), pos))
    } else if !(0 <= pos <= bytes.len()) {
        None
    } else {
        match parse_mval(bytes, pos) {
            None => None,
            Some((v, p2)) => if pos < p2 <= bytes.len() {
                match parse_mvals(bytes, p2, (n - 1) as nat) {
                    None => None,
                    Some((items, p3)) => Some((seq![v] + items, p3)),
                }
            } else {
                None
            },
        }
    }
}

pub open spec fn parse_entries(bytes: Seq<u8>, pos: int, n: nat) -> Option<
    (Seq<(Seq<char>, MetaVal)>, int),
>
    decreases bytes.len() - pos, n,
{
    if n == 0 {
        Some((Seq::empty(), pos))
    } else if !(0 <= pos <= bytes.len()) {
        None
    } else {
        match parse_string(bytes, pos) {
            None => None,
            Some((key, p1)) => if pos < p1 <= bytes.len() {
                match parse_mval(bytes, p1) {
                    None => None,
                    Some((v, p2)) => if pos < p2 <= bytes.len() {
                        match parse_entries(bytes, p2, (n - 1) as nat) {
                            None => None,
                            Some((entries, p3)) => Some((seq![(key, v)] + entries, p3)),
                        }
                    } else {
                        None
                    },
                }
            } else {
                None
            },
        }
    }
}

// ---------------------------------------------------------------------
// Completeness for metadata values.
// ---------------------------------------------------------------------
proof fn lemma_enc_mval_len(v: MetaVal)
    ensures
        1 <= enc_mval(v).len(),
    decreases v,
{
    lemma_auto_spec_u64_to_from_le_bytes();
}

/// A value list encodes head first.
proof fn lemma_enc_mvals_head(items: Seq<MetaVal>)
    requires
        items.len() > 0,
    ensures
        enc_mvals(items) == enc_mval(items[0]) + enc_mvals(items.subrange(1, items.len() as int)),
    decreases items.len(),
{
    let tail = items.subrange(1, items.len() as int);
    if items.len() == 1 {
        assert(items.drop_last() =~= Seq::<MetaVal>::empty());
        assert(tail =~= Seq::<MetaVal>::empty());
        assert(enc_mvals(items) =~= enc_mval(items[0]) + enc_mvals(tail));
    } else {
        lemma_enc_mvals_head(items.drop_last());
        assert(items.drop_last().subrange(1, items.drop_last().len() as int) =~= tail.drop_last());
        assert(enc_mval(items[0]) + enc_mvals(tail) =~= enc_mvals(items.drop_last()) + enc_mval(
            items.last(),
        ));
    }
}

/// An entry list encodes head first.
proof fn lemma_enc_entries_head(entries: Seq<(Seq<char>, MetaVal)>)
    requires
        entries.len() > 0,
    ensures
        enc_entries(entries) == enc_string(entries[0].0) + enc_mval(entries[0].1) + enc_entries(
            entries.subrange(1, entries.len() as int),
        ),
    decreases entries.len(),
{
    let tail = entries.subrange(1, entries.len() as int);
    if entries.len() == 1 {
        assert(entries.drop_last() =~= Seq::<(Seq<char>, MetaVal)>::empty());
        assert(tail =~= Seq::<(Seq<char>, MetaVal)>::empty());
        assert(enc_entries(entries) =~= enc_string(entries[0].0) + enc_mval(entries[0].1)
            + enc_entries(tail));
    } else {
        lemma_enc_entries_head(entries.drop_last());
        assert(entries.drop_last().subrange(1, entries.drop_last().len() as int) =~= tail
            .drop_last());
        assert(enc_string(entries[0].0) + enc_mval(entries[0].1) + enc_entries(tail)
            =~= enc_entries(entries.drop_last()) + enc_string(entries.last().0) + enc_mval(
            entries.last().1,
        ));
    }
}

proof fn lemma_parse_mval(bytes: Seq<u8>, pos: int, v: MetaVal)
    requires
        mval_bounded(v),
        0 <= pos,
        pos + enc_mval(v).len() <= bytes.len(),
        bytes.subrange(pos, pos + enc_mval(v).len()) == enc_mval(v),
    ensures
        parse_mval(bytes, pos) == Some((v, pos + enc_mval(v).len())),
    decreases v,
{
    let l = enc_mval(v).len() as int;
    assert(bytes[pos] == enc_mval(v)[0]) by {
        assert(bytes.subrange(pos, pos + l)[0] == enc_mval(v)[0]);
    }
    match v {
        MetaVal::Null => {
            assert(parse_byte(bytes, pos) == Some((0u8, pos + 1)));
        },
        MetaVal::Bool(b) => {
            assert(bytes[pos + 1] == enc_mval(v)[1]) by {
                assert(bytes.subrange(pos, pos + l)[1] == enc_mval(v)[1]);
            }
        },
        MetaVal::Num(n) => {
            lemma_enc_u64_len(n);
            assert(bytes.subrange(pos + 1, pos + 9) =~= enc_u64(n)) by {
                assert forall|j: int| 0 <= j < 8 implies bytes[pos + 1 + j] == #[trigger] enc_u64(n)[j] by {
                    assert(bytes.subrange(pos, pos + l)[1 + j] == enc_mval(v)[1 + j]);
                }
            }
            lemma_parse_u64(bytes, pos + 1, n);
        },
        MetaVal::Str(s) => {
            lemma_enc_u64_len(s.len() as u64);
            lemma_enc_chars_len(s);
            assert(bytes.subrange(pos + 1, pos + 1 + enc_string(s).len()) =~= enc_string(s)) by {
                assert forall|j: int| 0 <= j < enc_string(s).len() implies bytes[pos + 1 + j]
                    == enc_string(s)[j] by {
                    assert(bytes.subrange(pos, pos + l)[1 + j] == enc_mval(v)[1 + j]);
                }
            }
            lemma_parse_string(bytes, pos + 1, s);
        },
        MetaVal::List(items) => {
            lemma_enc_u64_len(items.len() as u64);
            assert(bytes.subrange(pos + 1, pos + 9) =~= enc_u64(items.len() as u64)) by {
                assert forall|j: int| 0 <= j < 8 implies bytes[pos + 1 + j] == #[trigger] enc_u64(
                    items.len() as u64,
                )[j] by {
                    assert(bytes.subrange(pos, pos + l)[1 + j] == enc_mval(v)[1 + j]);
                }
            }
            lemma_parse_u64(bytes, pos + 1, items.len() as u64);
            assert(bytes.subrange(pos + 9, pos + 9 + enc_mvals(items).len()) =~= enc_mvals(
                items,
            )) by {
                assert forall|j: int| 0 <= j < enc_mvals(items).len() implies bytes[pos + 9 + j]
                    == enc_mvals(items)[j] by {
                    assert(bytes.subrange(pos, pos + l)[9 + j] == enc_mval(v)[9 + j]);
                }
            }
            lemma_parse_mvals(bytes, pos + 9, items);
        },
        MetaVal::Obj(entries) => {
            lemma_enc_u64_len(entries.len() as u64);
            assert(bytes.subrange(pos + 1, pos + 9) =~= enc_u64(entries.len() as u64)) by {
                assert forall|j: int| 0 <= j < 8 implies bytes[pos + 1 + j] == #[trigger] enc_u64(
                    entries.len() as u64,
                )[j] by {
                    assert(bytes.subrange(pos, pos + l)[1 + j] == enc_mval(v)[1 + j]);
                }
            }
            lemma_parse_u64(bytes, pos + 1, entries.len() as u64);
            assert(bytes.subrange(pos + 9, pos + 9 + enc_entries(entries).len()) =~= enc_entries(
                entries,
            )) by {
                assert forall|j: int| 0 <= j < enc_entries(entries).len() implies bytes[pos + 9 + j]
                    == enc_entries(entries)[j] by {
                    assert(bytes.subrange(pos, pos + l)[9 + j] == enc_mval(v)[9 + j]);
                }
            }
            lemma_parse_entries(bytes, pos + 9, entries);
        },
    }
}

proof fn lemma_parse_mvals(bytes: Seq<u8>, pos: int, items: Seq<MetaVal>)
    requires
        forall|i: int| 0 <= i < items.len() ==> mval_bounded(#[trigger] items[i]),
        0 <= pos,
        pos + enc_mvals(items).len() <= bytes.len(),
        bytes.subrange(pos, pos + enc_mvals(items).len()) == enc_mvals(items),
    ensures
        parse_mvals(bytes, pos, items.len()) == Some((items, pos + enc_mvals(items).len())),
    decreases items,
{
    if items.len() == 0 {
        assert(items =~= Seq::<MetaVal>::empty());
    } else {
        let head = items[0];
        let tail = items.subrange(1, items.len() as int);
        lemma_enc_mvals_head(items);
        let hl = enc_mval(head).len() as int;
        lemma_enc_mval_len(head);
        assert(bytes.subrange(pos, pos + hl) =~= enc_mval(head)) by {
            assert forall|j: int| 0 <= j < hl implies bytes[pos + j] == enc_mval(head)[j] by {
                assert(bytes.subrange(pos, pos + enc_mvals(items).len())[j] == enc_mvals(items)[j]);
            }
        }
        lemma_parse_mval(bytes, pos, head);
        assert(bytes.subrange(pos + hl, pos + hl + enc_mvals(tail).len()) =~= enc_mvals(tail)) by {
            assert forall|j: int| 0 <= j < enc_mvals(tail).len() implies bytes[pos + hl + j]
                == enc_mvals(tail)[j] by {
                assert(bytes.subrange(pos, pos + enc_mvals(items).len())[hl + j] == enc_mvals(
                    items,
                )[hl + j]);
            }
        }
        lemma_parse_mvals(bytes, pos + hl, tail);
        assert(seq![head] + tail =~= items);
    }
}

proof fn lemma_parse_entries(bytes: Seq<u8>, pos: int, entries: Seq<(Seq<char>, MetaVal)>)
    requires
        forall|i: int|
            0 <= i < entries.len() ==> (#[trigger] entries[i]).0.len() <= u64::MAX && mval_bounded(
                entries[i].1,
            ),
        0 <= pos,
        pos + enc_entries(entries).len() <= bytes.len(),
        bytes.subrange(pos, pos + enc_entries(entries).len()) == enc_entries(entries),
    ensures
        parse_entries(bytes, pos, entries.len()) == Some(
            (entries, pos + enc_entries(entries).len()),
        ),
    decreases entries,
{
    if entries.len() == 0 {
        assert(entries =~= Seq::<(Seq<char>, MetaVal)>::empty());
    } else {
        let key = entries[0].0;
        let head = entries[0].1;
        let tail = entries.subrange(1, entries.len() as int);
        lemma_enc_entries_head(entries);
        let kl = enc_string(key).len() as int;
        let hl = enc_mval(head).len() as int;
        lemma_enc_u64_len(key.len() as u64);
        lemma_enc_chars_len(key);
        lemma_enc_mval_len(head);
        assert(bytes.subrange(pos, pos + kl) =~= enc_string(key)) by {
            assert forall|j: int| 0 <= j < kl implies bytes[pos + j] == enc_string(key)[j] by {
                assert(bytes.subrange(pos, pos + enc_entries(entries).len())[j] == enc_entries(
                    entries,
                )[j]);
            }
        }
        lemma_parse_string(bytes, pos, key);
        assert(bytes.subrange(pos + kl, pos + kl + hl) =~= enc_mval(head)) by {
            assert forall|j: int| 0 <= j < hl implies bytes[pos + kl + j] == enc_mval(head)[j] by {
                assert(bytes.subrange(pos, pos + enc_entries(entries).len())[kl + j] == enc_entries(
                    entries,
                )[kl + j]);
            }
        }
        lemma_parse_mval(bytes, pos + kl, head);
        assert(bytes.subrange(pos + kl + hl, pos + kl + hl + enc_entries(tail).len())
            =~= enc_entries(tail)) by {
            assert forall|j: int| 0 <= j < enc_entries(tail).len() implies bytes[pos + kl + hl + j]
                == enc_entries(tail)[j] by {
                assert(bytes.subrange(pos, pos + enc_entries(entries).len())[kl + hl + j]
                    == enc_entries(entries)[kl + hl + j]);
            }
        }
        lemma_parse_entries(bytes, pos + kl + hl, tail);
        assert(seq![(key, head)] + tail =~= entries);
    }
}

// ---------------------------------------------------------------------
// Executable encoders: each appends exactly what its spec encoder says.
// ---------------------------------------------------------------------
fn enc_u64_into(out: &mut Vec<u8>, x: u64)
    ensures
        final(out)@ == old(out)@ + enc_u64(x),
{
    let mut bs = u64_to_le_bytes(x);
    out.append(&mut bs);
}

fn enc_u32_into(out: &mut Vec<u8>, x: u32)
    ensures
        final(out)@ == old(out)@ + enc_u32(x),
{
    let mut bs = u32_to_le_bytes(x);
    out.append(&mut bs);
}

fn enc_string_into(out: &mut Vec<u8>, s: &String)
    ensures
        final(out)@ == old(out)@ + enc_string(s@),
{
    let n = s.unicode_len();
    enc_u64_into(out, n as u64);
    let mut i: usize = 0;
    while i < n
        invariant
            n == s@.len(),
            0 <= i <= n,
            out@ == old(out)@ + enc_u64(n as u64) + enc_chars(s@.subrange(0, i as int)),
        decreases n - i,
    {
        let c = s.as_str().get_char(i);
        let ghost pre = s@.subrange(0, i as int);
        enc_u32_into(out, c as u32);
        proof {
            let cur = s@.subrange(0, i + 1);
            assert(cur.drop_last() =~= pre);
            assert(cur.last() == s@[i as int]);
            assert(enc_chars(cur) == enc_chars(pre) + enc_u32(s@[i as int] as u32));
            assert(out@ =~= old(out)@ + enc_u64(n as u64) + enc_chars(cur));
        }
        i = i + 1;
    }
    proof {
        assert(s@.subrange(0, n as int) =~= s@);
        assert(out@ =~= old(out)@ + enc_string(s@));
    }
}

// ---------------------------------------------------------------------
// Executable decoders: each returns exactly what its spec parser says.
// ---------------------------------------------------------------------
fn read_u64(bytes: &Vec<u8>, pos: usize) -> (r: Option<(u64, usize)>)
    ensures
        match r {
            Some((x, p)) => parse_u64(bytes@, pos as int) == Some((x, p as int)),
            None => parse_u64(bytes@, pos as int) is None,
        },
{
    if pos <= bytes.len() && bytes.len() - pos >= 8 {
        let x = u64_from_le_bytes(slice_subrange(bytes.as_slice(), pos, pos + 8));
        Some((x, pos + 8))
    } else {
        None
    }
}

fn read_u32(bytes: &Vec<u8>, pos: usize) -> (r: Option<(u32, usize)>)
    ensures
        match r {
            Some((x, p)) => parse_u32(bytes@, pos as int) == Some((x, p as int)),
            None => parse_u32(bytes@, pos as int) is None,
        },
{
    if pos <= bytes.len() && bytes.len() - pos >= 4 {
        let x = u32_from_le_bytes(slice_subrange(bytes.as_slice(), pos, pos + 4));
        Some((x, pos + 4))
    } else {
        None
    }
}

fn read_byte(bytes: &Vec<u8>, pos: usize) -> (r: Option<(u8, usize)>)
    ensures
        match r {
            Some((x, p)) => parse_byte(bytes@, pos as int) == Some((x, p as int)),
            None => parse_byte(bytes@, pos as int) is None,
        },
{
    if pos < bytes.len() {
        Some((bytes[pos], pos + 1))
    } else {
        None
    }
}

fn decode_string(bytes: &Vec<u8>, pos: usize) -> (r: Option<(String, usize)>)
    ensures
        match r {
            Some((s, p)) => parse_string(bytes@, pos as int) == Some((s@, p as int)),
            None => parse_string(bytes@, pos as int) is None,
        },
{
    let (n, p0) = match read_u64(bytes, pos) {
        None => {
            return None;
        },
        Some(t) => t,
    };
    let mut s = String::new();
    let mut p: usize = p0;
    let mut i: u64 = 0;
    while i < n
        invariant
            0 <= i <= n,
            parse_string(bytes@, pos as int) == (match parse_chars(
                bytes@,
                p as int,
                (n - i) as nat,
            ) {
                None => None::<(Seq<char>, int)>,
                Some(t) => Some((s@ + t.0, t.1)),
            }),
        decreases n - i,
    {
        let (u, p1) = match read_u32(bytes, p) {
            None => {
                return None;
            },
            Some(t) => t,
        };
        let c = match char_from_u32(u) {
            None => {
                return None;
            },
            Some(c) => c,
        };
        let ghost s_pre = s@;
        push_char(&mut s, c);
        proof {
            assert(parse_char(bytes@, p as int) == Some((c, p1 as int)));
            let rest = parse_chars(bytes@, p1 as int, (n - i - 1) as nat);
            if rest is Some {
                let (s2, pe) = rest->Some_0;
                assert(s_pre + (seq![c] + s2) =~= s@ + s2);
            }
        }
        p = p1;
        i = i + 1;
    }
    proof {
        assert(parse_chars(bytes@, p as int, 0) == Some((Seq::<char>::empty(), p as int)));
        assert(s@ + Seq::<char>::empty() =~= s@);
    }
    Some((s, p))
}


// ---------------------------------------------------------------------
// Optional metadata objects on the wire: a presence byte, then (when
// present) the entry count and the entries.
// ---------------------------------------------------------------------
pub open spec fn enc_meta(m: Option<Seq<(Seq<char>, MetaVal)>>) -> Seq<u8> {
    match m {
        None => seq![0u8],
        Some(obj) => seq![1u8] + enc_u64(obj.len() as u64) + enc_entries(obj),
    }
}

pub open spec fn meta_bounded(m: Option<Seq<(Seq<char>, MetaVal)>>) -> bool {
    match m {
        None => true,
        Some(obj) => mval_bounded(MetaVal::Obj(obj)),
    }
}

pub open spec fn parse_meta(bytes: Seq<u8>, pos: int) -> Option<
    (Option<Seq<(Seq<char>, MetaVal)>>, int),
> {
    match parse_byte(bytes, pos) {
        None => None,
        Some((flag, p)) => if flag == 0 {
            Some((None, p))
        } else if flag == 1 {
            match parse_u64(bytes, p) {
                None => None,
                Some((n, p2)) => match parse_entries(bytes, p2, n as nat) {
                    None => None,
                    Some((entries, p3)) => Some((Some(entries), p3)),
                },
            }
        } else {
            None
        },
    }
}

proof fn lemma_parse_meta(bytes: Seq<u8>, pos: int, m: Option<Seq<(Seq<char>, MetaVal)>>)
    requires
        meta_bounded(m),
        0 <= pos,
        pos + enc_meta(m).len() <= bytes.len(),
        bytes.subrange(pos, pos + enc_meta(m).len()) == enc_meta(m),
    ensures
        parse_meta(bytes, pos) == Some((m, pos + enc_meta(m).len())),
{
    let l = enc_meta(m).len() as int;
    assert(bytes[pos] == enc_meta(m)[0]) by {
        assert(bytes.subrange(pos, pos + l)[0] == enc_meta(m)[0]);
    }
    match m {
        None => {},
        Some(entries) => {
            lemma_enc_u64_len(entries.len() as u64);
            assert(bytes.subrange(pos + 1, pos + 9) =~= enc_u64(entries.len() as u64)) by {
                assert forall|j: int| 0 <= j < 8 implies bytes[pos + 1 + j] == #[trigger] enc_u64(
                    entries.len() as u64,
                )[j] by {
                    assert(bytes.subrange(pos, pos + l)[1 + j] == enc_meta(m)[1 + j]);
                }
            }
            lemma_parse_u64(bytes, pos + 1, entries.len() as u64);
            assert(bytes.subrange(pos + 9, pos + 9 + enc_entries(entries).len()) =~= enc_entries(
                entries,
            )) by {
                assert forall|j: int| 0 <= j < enc_entries(entries).len() implies bytes[pos + 9 + j]
                    == enc_entries(entries)[j] by {
                    assert(bytes.subrange(pos, pos + l)[9 + j] == enc_meta(m)[9 + j]);
                }
            }
            lemma_parse_entries(bytes, pos + 9, entries);
        },
    }
}

// ---------------------------------------------------------------------
// Executable encoding of metadata.
// ---------------------------------------------------------------------
/// Appends the entry count and the entries of a metadata object.
fn enc_entries_into(out: &mut Vec<u8>, entries: &crate::metadata::MetaObject)
    ensures
        final(out)@ == old(out)@ + enc_u64(entries@.len() as u64) + enc_entries(
            mval_obj_view(entries@),
        ),
    decreases *entries,
{
    proof {
        lemma_mval_obj_view(entries@);
    }
    let n = entries.len();
    enc_u64_into(out, n as u64);
    let mut i: usize = 0;
    while i < n
        invariant
            n == entries@.len(),
            0 <= i <= n,
            out@ == old(out)@ + enc_u64(n as u64) + enc_entries(
                mval_obj_view(entries@.subrange(0, i as int)),
            ),
        decreases n - i,
    {
        let ghost pre = mval_obj_view(entries@.subrange(0, i as int));
        proof {
            assert(decreases_to!(*entries => entries@[i as int]));
            assert(decreases_to!(entries@[i as int] => entries@[i as int].1));
        }
        enc_string_into(out, &entries[i].0);
        enc_mval_into(out, &entries[i].1);
        proof {
            let cur = mval_obj_view(entries@.subrange(0, i + 1));
            assert(entries@.subrange(0, i + 1).drop_last() =~= entries@.subrange(0, i as int));
            assert(cur == pre.push(
                (entries@[i as int].0@, mval_view(entries@[i as int].1)),
            ));
            assert(cur.drop_last() =~= pre);
            assert(enc_entries(cur) == enc_entries(pre) + enc_string(entries@[i as int].0@)
                + enc_mval(mval_view(entries@[i as int].1)));
            assert(out@ =~= old(out)@ + enc_u64(n as u64) + enc_entries(cur));
        }
        i = i + 1;
    }
    proof {
        assert(entries@.subrange(0, n as int) =~= entries@);
    }
}

/// Appends the item count and the items of a value list.
fn enc_mvals_into(out: &mut Vec<u8>, items: &Vec<MetaValue>)
    ensures
        final(out)@ == old(out)@ + enc_u64(items@.len() as u64) + enc_mvals(
            mval_list_view(items@),
        ),
    decreases *items,
{
    let n = items.len();
    enc_u64_into(out, n as u64);
    let mut i: usize = 0;
    while i < n
        invariant
            n == items@.len(),
            0 <= i <= n,
            out@ == old(out)@ + enc_u64(n as u64) + enc_mvals(
                mval_list_view(items@.subrange(0, i as int)),
            ),
        decreases n - i,
    {
        let ghost pre = mval_list_view(items@.subrange(0, i as int));
        proof {
            assert(decreases_to!(*items => items@[i as int]));
        }
        enc_mval_into(out, &items[i]);
        proof {
            let cur = mval_list_view(items@.subrange(0, i + 1));
            assert(items@.subrange(0, i + 1).drop_last() =~= items@.subrange(0, i as int));
            assert(cur == pre.push(mval_view(items@[i as int])));
            assert(cur.drop_last() =~= pre);
            assert(enc_mvals(cur) == enc_mvals(pre) + enc_mval(mval_view(items@[i as int])));
            assert(out@ =~= old(out)@ + enc_u64(n as u64) + enc_mvals(cur));
        }
        i = i + 1;
    }
    proof {
        assert(items@.subrange(0, n as int) =~= items@);
    }
}

/// Appends one metadata value in its tagged wire form.
fn enc_mval_into(out: &mut Vec<u8>, v: &MetaValue)
    ensures
        final(out)@ == old(out)@ + enc_mval(mval_view(*v)),
    decreases *v,
{
    match v {
        MetaValue::Null => {
            out.push(0u8);
            proof {
                assert(out@ =~= old(out)@ + enc_mval(mval_view(*v)));
            }
        },
        MetaValue::Bool(b) => {
            out.push(1u8);
            if *b {
                out.push(1u8);
            } else {
                out.push(0u8);
            }
            proof {
                assert(out@ =~= old(out)@ + enc_mval(mval_view(*v)));
            }
        },
        MetaValue::Num(n) => {
            out.push(2u8);
            enc_u64_into(out, *n);
            proof {
                assert(out@ =~= old(out)@ + enc_mval(mval_view(*v)));
            }
        },
        MetaValue::Str(st) => {
            out.push(3u8);
            enc_string_into(out, st);
            proof {
                assert(out@ =~= old(out)@ + enc_mval(mval_view(*v)));
            }
        },
        MetaValue::List(items) => {
            out.push(4u8);
            proof {
                assert(decreases_to!(*v => *items));
            }
            enc_mvals_into(out, items);
            proof {
                lemma_mval_list_view(items@);
                assert(out@ =~= old(out)@ + enc_mval(mval_view(*v)));
            }
        },
        MetaValue::Obj(entries) => {
            out.push(5u8);
            proof {
                assert(decreases_to!(*v => *entries));
            }
            enc_entries_into(out, entries);
            proof {
                lemma_mval_obj_view(entries@);
                assert(out@ =~= old(out)@ + enc_mval(mval_view(*v)));
            }
        },
    }
}

/// Appends an optional metadata object: a presence byte, then the object.
fn enc_meta_into(out: &mut Vec<u8>, m: &Option<crate::metadata::MetaObject>)
    ensures
        final(out)@ == old(out)@ + enc_meta(crate::metadata::meta_object_view(*m)),
{
    match m {
        None => {
            out.push(0u8);
            proof {
                assert(out@ =~= old(out)@ + enc_meta(crate::metadata::meta_object_view(*m)));
            }
        },
        Some(entries) => {
            out.push(1u8);
            enc_entries_into(out, entries);
            proof {
                lemma_mval_obj_view(entries@);
                assert(out@ =~= old(out)@ + enc_meta(crate::metadata::meta_object_view(*m)));
            }
        },
    }
}

// ---------------------------------------------------------------------
// Executable decoding of metadata.
// ---------------------------------------------------------------------
/// Decodes the tagged wire form of one metadata value.
fn decode_mval(bytes: &Vec<u8>, pos: usize) -> (r: Option<(MetaValue, usize)>)
    ensures
        match r {
            Some((v, p)) => parse_mval(bytes@, pos as int) == Some((mval_view(v), p as int)),
            None => parse_mval(bytes@, pos as int) is None,
        },
    decreases bytes@.len() - pos,
{
    let (tag, p) = match read_byte(bytes, pos) {
        None => {
            return None;
        },
        Some(t) => t,
    };
    if tag == 0 {
        Some((MetaValue::Null, p))
    } else if tag == 1 {
        let (b, p2) = match read_byte(bytes, p) {
            None => {
                return None;
            },
            Some(t) => t,
        };
        if b == 0 {
            Some((MetaValue::Bool(false), p2))
        } else if b == 1 {
            Some((MetaValue::Bool(true), p2))
        } else {
            None
        }
    } else if tag == 2 {
        let (n, p2) = match read_u64(bytes, p) {
            None => {
                return None;
            },
            Some(t) => t,
        };
        Some((MetaValue::Num(n), p2))
    } else if tag == 3 {
        let (st, p2) = match decode_string(bytes, p) {
            None => {
                return None;
            },
            Some(t) => t,
        };
        Some((MetaValue::Str(st), p2))
    } else if tag == 4 {
        let (n, p2) = match read_u64(bytes, p) {
            None => {
                return None;
            },
            Some(t) => t,
        };
        let mut items: Vec<MetaValue> = Vec::new();
        let mut q: usize = p2;
        let mut i: u64 = 0;
        while i < n
            invariant
                0 <= i <= n,
                pos < q <= bytes@.len(),
                parse_mval(bytes@, pos as int) == (match parse_mvals(
                    bytes@,
                    q as int,
                    (n - i) as nat,
                ) {
                    None => None::<(MetaVal, int)>,
                    Some(t) => Some((MetaVal::List(mval_list_view(items@) + t.0), t.1)),
                }),
            decreases n - i,
        {
            let (v, q2) = match decode_mval(bytes, q) {
                None => {
                    return None;
                },
                Some(t) => t,
            };
            if !(q < q2 && q2 <= bytes.len()) {
                return None;
            }
            let ghost iv_pre = items@;
            items.push(v);
            proof {
                let vv = mval_view(v);
                assert(items@.drop_last() =~= iv_pre);
                assert(mval_list_view(items@) == mval_list_view(iv_pre).push(vv));
                let rest = parse_mvals(bytes@, q2 as int, (n - i - 1) as nat);
                if rest is Some {
                    let (s2, pe) = rest->Some_0;
                    assert(mval_list_view(iv_pre).push(vv) + s2 =~= mval_list_view(iv_pre) + (
                    seq![vv] + s2));
                }
            }
            q = q2;
            i = i + 1;
        }
        proof {
            assert(mval_list_view(items@) + Seq::<MetaVal>::empty() =~= mval_list_view(items@));
        }
        Some((MetaValue::List(items), q))
    } else if tag == 5 {
        let (n, p2) = match read_u64(bytes, p) {
            None => {
                return None;
            },
            Some(t) => t,
        };
        let (entries, q) = match decode_entries(bytes, p2, n) {
            None => {
                return None;
            },
            Some(t) => t,
        };
        Some((MetaValue::Obj(entries), q))
    } else {
        None
    }
}


/// Decodes `n` metadata entries, key then value, in order.
fn decode_entries(bytes: &Vec<u8>, pos: usize, n: u64) -> (r: Option<
    (crate::metadata::MetaObject, usize),
>)
    ensures
        match r {
            Some((entries, p)) => parse_entries(bytes@, pos as int, n as nat) == Some(
                (mval_obj_view(entries@), p as int),
            ),
            None => parse_entries(bytes@, pos as int, n as nat) is None,
        },
    decreases bytes@.len() - pos,
{
    if n == 0 {
        let entries: crate::metadata::MetaObject = Vec::new();
        proof {
            assert(mval_obj_view(entries@) =~= Seq::<(Seq<char>, MetaVal)>::empty());
        }
        return Some((entries, pos));
    }
    if pos > bytes.len() {
        return None;
    }
    let mut entries: crate::metadata::MetaObject = Vec::new();
    let mut q: usize = pos;
    let mut i: u64 = 0;
    while i < n
        invariant
            0 <= i <= n,
            pos <= q <= bytes@.len(),
            parse_entries(bytes@, pos as int, n as nat) == (match parse_entries(
                bytes@,
                q as int,
                (n - i) as nat,
            ) {
                None => None::<(Seq<(Seq<char>, MetaVal)>, int)>,
                Some(t) => Some((mval_obj_view(entries@) + t.0, t.1)),
            }),
        decreases n - i,
    {
        let (key, q1) = match decode_string(bytes, q) {
            None => {
                return None;
            },
            Some(t) => t,
        };
        if !(q < q1 && q1 <= bytes.len()) {
            return None;
        }
        let (v, q2) = match decode_mval(bytes, q1) {
            None => {
                return None;
            },
            Some(t) => t,
        };
        if !(q < q2 && q2 <= bytes.len()) {
            return None;
        }
        let ghost ev_pre = entries@;
        let ghost kv = key@;
        entries.push((key, v));
        proof {
            let vv = mval_view(v);
            assert(entries@.drop_last() =~= ev_pre);
            assert(mval_obj_view(entries@) == mval_obj_view(ev_pre).push((kv, vv)));
            let rest = parse_entries(bytes@, q2 as int, (n - i - 1) as nat);
            if rest is Some {
                let (s2, pe) = rest->Some_0;
                assert(mval_obj_view(ev_pre).push((kv, vv)) + s2 =~= mval_obj_view(ev_pre) + (
                seq![(kv, vv)] + s2));
            }
        }
        q = q2;
        i = i + 1;
    }
    proof {
        assert(mval_obj_view(entries@) + Seq::<(Seq<char>, MetaVal)>::empty() =~= mval_obj_view(
            entries@,
        ));
    }
    Some((entries, q))
}

/// Decodes an optional metadata object.
fn decode_meta(bytes: &Vec<u8>, pos: usize) -> (r: Option<
    (Option<crate::metadata::MetaObject>, usize),
>)
    ensures
        match r {
            Some((m, p)) => parse_meta(bytes@, pos as int) == Some(
                (crate::metadata::meta_object_view(m), p as int),
            ),
            None => parse_meta(bytes@, pos as int) is None,
        },
{
    let (flag, p) = match read_byte(bytes, pos) {
        None => {
            return None;
        },
        Some(t) => t,
    };
    if flag == 0 {
        Some((None, p))
    } else if flag == 1 {
        let (n, p2) = match read_u64(bytes, p) {
            None => {
                return None;
            },
            Some(t) => t,
        };
        let (entries, q) = match decode_entries(bytes, p2, n) {
            None => {
                return None;
            },
            Some(t) => t,
        };
        Some((Some(entries), q))
    } else {
        None
    }
}


// ---------------------------------------------------------------------
// Records, collections and the whole store on the wire.
// ---------------------------------------------------------------------
/// What a record persists: its id, its vector and its metadata. The
/// bitmap is derived state and is projected anew after decoding.
pub type RawEmbedding = (u64, Seq<u32>, Option<Seq<(Seq<char>, MetaVal)>>);

pub open spec fn enc_u32s(s: Seq<u32>) -> Seq<u8>
    decreases s.len(),
{
    if s.len() == 0 {
        Seq::empty()
    } else {
        enc_u32s(s.drop_last()) + enc_u32(s.last())
    }
}

pub open spec fn enc_embedding(e: EmbeddingView) -> Seq<u8> {
    enc_u64(e.id) + enc_u64(e.vector.len() as u64) + enc_u32s(e.vector) + enc_meta(e.metadata)
}

pub open spec fn enc_embeddings(s: Seq<EmbeddingView>) -> Seq<u8>
    decreases s.len(),
{
    if s.len() == 0 {
        Seq::empty()
    } else {
        enc_embeddings(s.drop_last()) + enc_embedding(s.last())
    }
}

pub open spec fn enc_strings(s: Seq<Seq<char>>) -> Seq<u8>
    decreases s.len(),
{
    if s.len() == 0 {
        Seq::empty()
    } else {
        enc_strings(s.drop_last()) + enc_string(s.last())
    }
}

pub open spec fn distance_tag(d: Distance) -> u8 {
    match d {
        Distance::Euclidean => 0u8,
        Distance::Cosine => 1u8,
        Distance::DotProduct => 2u8,
    }
}

pub open spec fn enc_collection(c: CollectionView) -> Seq<u8> {
    enc_string(c.name) + enc_u64(c.dimension as u64) + seq![distance_tag(c.distance)] + enc_u64(
        c.metadata_fields.len() as u64,
    ) + enc_strings(c.metadata_fields) + enc_u64(c.embeddings.len() as u64) + enc_embeddings(
        c.embeddings,
    )
}

pub open spec fn enc_collections(s: Seq<CollectionView>) -> Seq<u8>
    decreases s.len(),
{
    if s.len() == 0 {
        Seq::empty()
    } else {
        enc_collections(s.drop_last()) + enc_collection(s.last())
    }
}

/// The whole store on the wire: a format version, the collection count,
/// and the collections. The id counter is not persisted; it restarts
/// just past the largest persisted id.
pub open spec fn spec_snapshot_bytes(cs: Seq<CollectionView>) -> Seq<u8> {
    enc_u64(1u64) + enc_u64(cs.len() as u64) + enc_collections(cs)
}

pub open spec fn parse_u32s(bytes: Seq<u8>, pos: int, n: nat) -> Option<(Seq<u32>, int)>
    decreases n,
{
    if n == 0 {
        Some((Seq::empty(), pos))
    } else {
        match parse_u32(bytes, pos) {
            None => None,
            Some((x, p)) => match parse_u32s(bytes, p, (n - 1) as nat) {
                None => None,
                Some((xs, p2)) => Some((seq![x] + xs, p2)),
            },
        }
    }
}

pub open spec fn parse_vector(bytes: Seq<u8>, pos: int) -> Option<(Seq<u32>, int)> {
    match parse_u64(bytes, pos) {
        None => None,
        Some((n, p)) => parse_u32s(bytes, p, n as nat),
    }
}

pub open spec fn parse_embedding(bytes: Seq<u8>, pos: int) -> Option<(RawEmbedding, int)> {
    match parse_u64(bytes, pos) {
        None => None,
        Some((id, p1)) => match parse_vector(bytes, p1) {
            None => None,
            Some((vector, p2)) => match parse_meta(bytes, p2) {
                None => None,
                Some((meta, p3)) => Some(((id, vector, meta), p3)),
            },
        },
    }
}

pub open spec fn parse_embeddings(bytes: Seq<u8>, pos: int, n: nat) -> Option<
    (Seq<RawEmbedding>, int),
>
    decreases bytes.len() - pos, n,
{
    if n == 0 {
        Some((Seq::empty(), pos))
    } else if !(0 <= pos <= bytes.len()) {
        None
    } else {
        match parse_embedding(bytes, pos) {
            None => None,
            Some((e, p2)) => if pos < p2 <= bytes.len() {
                match parse_embeddings(bytes, p2, (n - 1) as nat) {
                    None => None,
                    Some((es, p3)) => Some((seq![e] + es, p3)),
                }
            } else {
                None
            },
        }
    }
}

pub open spec fn parse_strings(bytes: Seq<u8>, pos: int, n: nat) -> Option<(Seq<Seq<char>>, int)>
    decreases bytes.len() - pos, n,
{
    if n == 0 {
        Some((Seq::empty(), pos))
    } else if !(0 <= pos <= bytes.len()) {
        None
    } else {
        match parse_string(bytes, pos) {
            None => None,
            Some((st, p2)) => if pos < p2 <= bytes.len() {
                match parse_strings(bytes, p2, (n - 1) as nat) {
                    None => None,
                    Some((ss, p3)) => Some((seq![st] + ss, p3)),
                }
            } else {
                None
            },
        }
    }
}

/// The record a collection holds for a decoded triple: the bitmap is the
/// projection of the decoded metadata onto the declared field order.
pub open spec fn assemble_embedding(t: RawEmbedding, fields: Seq<Seq<char>>) -> EmbeddingView {
    EmbeddingView { id: t.0, vector: t.1, metadata: t.2, bitmap: spec_projection(t.2, fields) }
}

pub open spec fn parse_collection(bytes: Seq<u8>, pos: int) -> Option<(CollectionView, int)> {
    match parse_string(bytes, pos) {
        None => None,
        Some((name, p1)) => match parse_u64(bytes, p1) {
            None => None,
            Some((dim, p2)) => if dim > usize::MAX as u64 {
                None
            } else {
                match parse_byte(bytes, p2) {
                    None => None,
                    Some((tag, p3)) => if tag > 2 {
                        None
                    } else {
                        let distance = if tag == 0 {
                            Distance::Euclidean
                        } else if tag == 1 {
                            Distance::Cosine
                        } else {
                            Distance::DotProduct
                        };
                        match parse_u64(bytes, p3) {
                            None => None,
                            Some((nf, p4)) => match parse_strings(bytes, p4, nf as nat) {
                                None => None,
                                Some((fields, p5)) => match parse_u64(bytes, p5) {
                                    None => None,
                                    Some((ne, p6)) => match parse_embeddings(bytes, p6, ne as nat) {
                                        None => None,
                                        Some((raw, p7)) => Some(
                                            (
                                                CollectionView {
                                                    name,
                                                    dimension: dim as nat,
                                                    distance,
                                                    embeddings: Seq::new(
                                                        raw.len(),
                                                        |i: int| assemble_embedding(raw[i], fields),
                                                    ),
                                                    metadata_fields: fields,
                                                },
                                                p7,
                                            ),
                                        ),
                                    },
                                },
                            },
                        }
                    },
                }
            },
        },
    }
}

pub open spec fn parse_collections(bytes: Seq<u8>, pos: int, n: nat) -> Option<
    (Seq<CollectionView>, int),
>
    decreases bytes.len() - pos, n,
{
    if n == 0 {
        Some((Seq::empty(), pos))
    } else if !(0 <= pos <= bytes.len()) {
        None
    } else {
        match parse_collection(bytes, pos) {
            None => None,
            Some((c, p2)) => if pos < p2 <= bytes.len() {
                match parse_collections(bytes, p2, (n - 1) as nat) {
                    None => None,
                    Some((cs, p3)) => Some((seq![c] + cs, p3)),
                }
            } else {
                None
            },
        }
    }
}

/// The whole snapshot decodes when the version matches, the collections
/// decode, and nothing trails them.
pub open spec fn parse_snapshot(bytes: Seq<u8>) -> Option<Seq<CollectionView>> {
    match parse_u64(bytes, 0) {
        None => None,
        Some((version, p1)) => if version != 1 {
            None
        } else {
            match parse_u64(bytes, p1) {
                None => None,
                Some((n, p2)) => match parse_collections(bytes, p2, n as nat) {
                    None => None,
                    Some((cs, p3)) => if p3 == bytes.len() {
                        Some(cs)
                    } else {
                        None
                    },
                },
            }
        },
    }
}

// ---------------------------------------------------------------------
// Bounds under which a store fits the wire's counts. Stores built by
// executable code always satisfy them.
// ---------------------------------------------------------------------
pub open spec fn embedding_bounded(e: EmbeddingView) -> bool {
    &&& e.vector.len() <= u64::MAX
    &&& meta_bounded(e.metadata)
}

pub open spec fn collection_bounded(c: CollectionView) -> bool {
    &&& c.name.len() <= u64::MAX
    &&& c.dimension <= usize::MAX
    &&& c.metadata_fields.len() <= u64::MAX
    &&& forall|i: int|
        0 <= i < c.metadata_fields.len() ==> (#[trigger] c.metadata_fields[i]).len() <= u64::MAX
    &&& c.embeddings.len() <= u64::MAX
    &&& forall|k: int| 0 <= k < c.embeddings.len() ==> embedding_bounded(#[trigger] c.embeddings[k])
}

pub open spec fn snapshot_bounded(cs: Seq<CollectionView>) -> bool {
    &&& cs.len() <= u64::MAX
    &&& forall|i: int| 0 <= i < cs.len() ==> collection_bounded(#[trigger] cs[i])
}

// ---------------------------------------------------------------------
// Completeness for records, collections and the store.
// ---------------------------------------------------------------------
/// Lifts a byte-equal chunk of an encoding to a subrange of the buffer.
proof fn lemma_chunk(bytes: Seq<u8>, pos: int, whole: Seq<u8>, off: int, piece: Seq<u8>)
    requires
        0 <= pos,
        pos + whole.len() <= bytes.len(),
        bytes.subrange(pos, pos + whole.len()) == whole,
        0 <= off,
        off + piece.len() <= whole.len(),
        whole.subrange(off, off + piece.len()) == piece,
    ensures
        bytes.subrange(pos + off, pos + off + piece.len()) == piece,
{
    assert(bytes.subrange(pos + off, pos + off + piece.len()) =~= piece) by {
        assert forall|j: int| 0 <= j < piece.len() implies bytes[pos + off + j] == piece[j] by {
            assert(bytes.subrange(pos, pos + whole.len())[off + j] == whole[off + j]);
            assert(whole.subrange(off, off + piece.len())[j] == piece[j]);
        }
    }
}

proof fn lemma_enc_u32s_len(s: Seq<u32>)
    ensures
        enc_u32s(s).len() == 4 * s.len(),
    decreases s.len(),
{
    lemma_auto_spec_u32_to_from_le_bytes();
    if s.len() > 0 {
        lemma_enc_u32s_len(s.drop_last());
    }
}

proof fn lemma_enc_u32s_head(s: Seq<u32>)
    requires
        s.len() > 0,
    ensures
        enc_u32s(s) == enc_u32(s[0]) + enc_u32s(s.subrange(1, s.len() as int)),
    decreases s.len(),
{
    let tail = s.subrange(1, s.len() as int);
    if s.len() == 1 {
        assert(s.drop_last() =~= Seq::<u32>::empty());
        assert(tail =~= Seq::<u32>::empty());
        assert(enc_u32s(s) =~= enc_u32(s[0]) + enc_u32s(tail));
    } else {
        lemma_enc_u32s_head(s.drop_last());
        assert(s.drop_last().subrange(1, s.drop_last().len() as int) =~= tail.drop_last());
        assert(enc_u32(s[0]) + enc_u32s(tail) =~= enc_u32s(s.drop_last()) + enc_u32(s.last()));
    }
}

proof fn lemma_parse_u32s(bytes: Seq<u8>, pos: int, s: Seq<u32>)
    requires
        0 <= pos,
        pos + enc_u32s(s).len() <= bytes.len(),
        bytes.subrange(pos, pos + enc_u32s(s).len()) == enc_u32s(s),
    ensures
        parse_u32s(bytes, pos, s.len()) == Some((s, pos + enc_u32s(s).len())),
    decreases s.len(),
{
    lemma_enc_u32s_len(s);
    if s.len() == 0 {
        assert(s =~= Seq::<u32>::empty());
    } else {
        let head = s[0];
        let tail = s.subrange(1, s.len() as int);
        lemma_enc_u32s_len(tail);
        lemma_enc_u32s_head(s);
        lemma_enc_u32_len(head);
        assert(enc_u32s(s).subrange(0, 4) =~= enc_u32(head));
        lemma_chunk(bytes, pos, enc_u32s(s), 0, enc_u32(head));
        lemma_parse_u32(bytes, pos, head);
        assert(enc_u32s(s).subrange(4, 4 + enc_u32s(tail).len() as int) =~= enc_u32s(tail));
        lemma_chunk(bytes, pos, enc_u32s(s), 4, enc_u32s(tail));
        lemma_parse_u32s(bytes, pos + 4, tail);
        assert(seq![head] + tail =~= s);
    }
}

proof fn lemma_enc_embedding_len(e: EmbeddingView)
    ensures
        enc_embedding(e).len() >= 17,
{
    lemma_enc_u64_len(e.id);
    lemma_enc_u64_len(e.vector.len() as u64);
}

proof fn lemma_parse_embedding(bytes: Seq<u8>, pos: int, e: EmbeddingView)
    requires
        embedding_bounded(e),
        0 <= pos,
        pos + enc_embedding(e).len() <= bytes.len(),
        bytes.subrange(pos, pos + enc_embedding(e).len()) == enc_embedding(e),
    ensures
        parse_embedding(bytes, pos) == Some(
            ((e.id, e.vector, e.metadata), pos + enc_embedding(e).len()),
        ),
{
    let whole = enc_embedding(e);
    lemma_enc_u64_len(e.id);
    lemma_enc_u64_len(e.vector.len() as u64);
    lemma_enc_u32s_len(e.vector);
    let lv = enc_u32s(e.vector).len() as int;
    let lm = enc_meta(e.metadata).len() as int;
    assert(whole.subrange(0, 8) =~= enc_u64(e.id));
    lemma_chunk(bytes, pos, whole, 0, enc_u64(e.id));
    lemma_parse_u64(bytes, pos, e.id);
    assert(whole.subrange(8, 16) =~= enc_u64(e.vector.len() as u64));
    lemma_chunk(bytes, pos, whole, 8, enc_u64(e.vector.len() as u64));
    lemma_parse_u64(bytes, pos + 8, e.vector.len() as u64);
    assert(whole.subrange(16, 16 + lv) =~= enc_u32s(e.vector));
    lemma_chunk(bytes, pos, whole, 16, enc_u32s(e.vector));
    lemma_parse_u32s(bytes, pos + 16, e.vector);
    assert(whole.subrange(16 + lv, 16 + lv + lm) =~= enc_meta(e.metadata));
    lemma_chunk(bytes, pos, whole, 16 + lv, enc_meta(e.metadata));
    lemma_parse_meta(bytes, pos + 16 + lv, e.metadata);
}

proof fn lemma_enc_embeddings_head(s: Seq<EmbeddingView>)
    requires
        s.len() > 0,
    ensures
        enc_embeddings(s) == enc_embedding(s[0]) + enc_embeddings(s.subrange(1, s.len() as int)),
    decreases s.len(),
{
    let tail = s.subrange(1, s.len() as int);
    if s.len() == 1 {
        assert(s.drop_last() =~= Seq::<EmbeddingView>::empty());
        assert(tail =~= Seq::<EmbeddingView>::empty());
        assert(enc_embeddings(s) =~= enc_embedding(s[0]) + enc_embeddings(tail));
    } else {
        lemma_enc_embeddings_head(s.drop_last());
        assert(s.drop_last().subrange(1, s.drop_last().len() as int) =~= tail.drop_last());
        assert(enc_embedding(s[0]) + enc_embeddings(tail) =~= enc_embeddings(s.drop_last())
            + enc_embedding(s.last()));
    }
}

proof fn lemma_parse_embeddings(bytes: Seq<u8>, pos: int, s: Seq<EmbeddingView>)
    requires
        forall|k: int| 0 <= k < s.len() ==> embedding_bounded(#[trigger] s[k]),
        0 <= pos,
        pos + enc_embeddings(s).len() <= bytes.len(),
        bytes.subrange(pos, pos + enc_embeddings(s).len()) == enc_embeddings(s),
    ensures
        parse_embeddings(bytes, pos, s.len()) == Some(
            (
                Seq::new(s.len(), |k: int| (s[k].id, s[k].vector, s[k].metadata)),
                pos + enc_embeddings(s).len(),
            ),
        ),
    decreases s.len(),
{
    if s.len() == 0 {
        assert(Seq::new(0, |k: int| (s[k].id, s[k].vector, s[k].metadata))
            =~= Seq::<RawEmbedding>::empty());
    } else {
        let head = s[0];
        let tail = s.subrange(1, s.len() as int);
        lemma_enc_embeddings_head(s);
        let hl = enc_embedding(head).len() as int;
        lemma_enc_embedding_len(head);
        assert(enc_embeddings(s).subrange(0, hl) =~= enc_embedding(head));
        lemma_chunk(bytes, pos, enc_embeddings(s), 0, enc_embedding(head));
        lemma_parse_embedding(bytes, pos, head);
        assert(enc_embeddings(s).subrange(hl, hl + enc_embeddings(tail).len() as int)
            =~= enc_embeddings(tail));
        lemma_chunk(bytes, pos, enc_embeddings(s), hl, enc_embeddings(tail));
        lemma_parse_embeddings(bytes, pos + hl, tail);
        assert(seq![(head.id, head.vector, head.metadata)] + Seq::new(
            tail.len(),
            |k: int| (tail[k].id, tail[k].vector, tail[k].metadata),
        ) =~= Seq::new(s.len(), |k: int| (s[k].id, s[k].vector, s[k].metadata)));
    }
}

proof fn lemma_enc_strings_head(s: Seq<Seq<char>>)
    requires
        s.len() > 0,
    ensures
        enc_strings(s) == enc_string(s[0]) + enc_strings(s.subrange(1, s.len() as int)),
    decreases s.len(),
{
    let tail = s.subrange(1, s.len() as int);
    if s.len() == 1 {
        assert(s.drop_last() =~= Seq::<Seq<char>>::empty());
        assert(tail =~= Seq::<Seq<char>>::empty());
        assert(enc_strings(s) =~= enc_string(s[0]) + enc_strings(tail));
    } else {
        lemma_enc_strings_head(s.drop_last());
        assert(s.drop_last().subrange(1, s.drop_last().len() as int) =~= tail.drop_last());
        assert(enc_string(s[0]) + enc_strings(tail) =~= enc_strings(s.drop_last()) + enc_string(
            s.last(),
        ));
    }
}

proof fn lemma_parse_strings(bytes: Seq<u8>, pos: int, s: Seq<Seq<char>>)
    requires
        forall|i: int| 0 <= i < s.len() ==> (#[trigger] s[i]).len() <= u64::MAX,
        0 <= pos,
        pos + enc_strings(s).len() <= bytes.len(),
        bytes.subrange(pos, pos + enc_strings(s).len()) == enc_strings(s),
    ensures
        parse_strings(bytes, pos, s.len()) == Some((s, pos + enc_strings(s).len())),
    decreases s.len(),
{
    if s.len() == 0 {
        assert(s =~= Seq::<Seq<char>>::empty());
    } else {
        let head = s[0];
        let tail = s.subrange(1, s.len() as int);
        lemma_enc_strings_head(s);
        let hl = enc_string(head).len() as int;
        lemma_enc_u64_len(head.len() as u64);
        lemma_enc_chars_len(head);
        assert(enc_strings(s).subrange(0, hl) =~= enc_string(head));
        lemma_chunk(bytes, pos, enc_strings(s), 0, enc_string(head));
        lemma_parse_string(bytes, pos, head);
        assert(enc_strings(s).subrange(hl, hl + enc_strings(tail).len() as int) =~= enc_strings(
            tail,
        ));
        lemma_chunk(bytes, pos, enc_strings(s), hl, enc_strings(tail));
        lemma_parse_strings(bytes, pos + hl, tail);
        assert(seq![head] + tail =~= s);
    }
}

proof fn lemma_parse_collection(bytes: Seq<u8>, pos: int, c: CollectionView)
    requires
        collection_bounded(c),
        forall|k: int|
            0 <= k < c.embeddings.len() ==> (#[trigger] c.embeddings[k]).bitmap == spec_projection(
                c.embeddings[k].metadata,
                c.metadata_fields,
            ),
        0 <= pos,
        pos + enc_collection(c).len() <= bytes.len(),
        bytes.subrange(pos, pos + enc_collection(c).len()) == enc_collection(c),
    ensures
        parse_collection(bytes, pos) == Some((c, pos + enc_collection(c).len())),
{
    let whole = enc_collection(c);
    let ln = enc_string(c.name).len() as int;
    let lf = enc_strings(c.metadata_fields).len() as int;
    let le = enc_embeddings(c.embeddings).len() as int;
    lemma_enc_u64_len(c.name.len() as u64);
    lemma_enc_chars_len(c.name);
    lemma_enc_u64_len(c.dimension as u64);
    lemma_enc_u64_len(c.metadata_fields.len() as u64);
    lemma_enc_u64_len(c.embeddings.len() as u64);
    assert(whole.subrange(0, ln) =~= enc_string(c.name));
    lemma_chunk(bytes, pos, whole, 0, enc_string(c.name));
    lemma_parse_string(bytes, pos, c.name);
    assert(whole.subrange(ln, ln + 8) =~= enc_u64(c.dimension as u64));
    lemma_chunk(bytes, pos, whole, ln, enc_u64(c.dimension as u64));
    lemma_parse_u64(bytes, pos + ln, c.dimension as u64);
    assert(whole.subrange(ln + 8, ln + 9) =~= seq![distance_tag(c.distance)]);
    lemma_chunk(bytes, pos, whole, ln + 8, seq![distance_tag(c.distance)]);
    assert(parse_byte(bytes, pos + ln + 8) == Some((distance_tag(c.distance), pos + ln + 9))) by {
        assert(bytes.subrange(pos + ln + 8, pos + ln + 9)[0] == distance_tag(c.distance));
    }
    assert(whole.subrange(ln + 9, ln + 17) =~= enc_u64(c.metadata_fields.len() as u64));
    lemma_chunk(bytes, pos, whole, ln + 9, enc_u64(c.metadata_fields.len() as u64));
    lemma_parse_u64(bytes, pos + ln + 9, c.metadata_fields.len() as u64);
    assert(whole.subrange(ln + 17, ln + 17 + lf) =~= enc_strings(c.metadata_fields));
    lemma_chunk(bytes, pos, whole, ln + 17, enc_strings(c.metadata_fields));
    lemma_parse_strings(bytes, pos + ln + 17, c.metadata_fields);
    assert(whole.subrange(ln + 17 + lf, ln + 25 + lf) =~= enc_u64(c.embeddings.len() as u64));
    lemma_chunk(bytes, pos, whole, ln + 17 + lf, enc_u64(c.embeddings.len() as u64));
    lemma_parse_u64(bytes, pos + ln + 17 + lf, c.embeddings.len() as u64);
    assert(whole.subrange(ln + 25 + lf, ln + 25 + lf + le) =~= enc_embeddings(c.embeddings));
    lemma_chunk(bytes, pos, whole, ln + 25 + lf, enc_embeddings(c.embeddings));
    lemma_parse_embeddings(bytes, pos + ln + 25 + lf, c.embeddings);
    let raw = Seq::new(
        c.embeddings.len(),
        |k: int| (c.embeddings[k].id, c.embeddings[k].vector, c.embeddings[k].metadata),
    );
    assert(Seq::new(raw.len(), |i: int| assemble_embedding(raw[i], c.metadata_fields))
        =~= c.embeddings);
}

proof fn lemma_enc_collections_head(s: Seq<CollectionView>)
    requires
        s.len() > 0,
    ensures
        enc_collections(s) == enc_collection(s[0]) + enc_collections(s.subrange(1, s.len() as int)),
    decreases s.len(),
{
    let tail = s.subrange(1, s.len() as int);
    if s.len() == 1 {
        assert(s.drop_last() =~= Seq::<CollectionView>::empty());
        assert(tail =~= Seq::<CollectionView>::empty());
        assert(enc_collections(s) =~= enc_collection(s[0]) + enc_collections(tail));
    } else {
        lemma_enc_collections_head(s.drop_last());
        assert(s.drop_last().subrange(1, s.drop_last().len() as int) =~= tail.drop_last());
        assert(enc_collection(s[0]) + enc_collections(tail) =~= enc_collections(s.drop_last())
            + enc_collection(s.last()));
    }
}

proof fn lemma_parse_collections(bytes: Seq<u8>, pos: int, s: Seq<CollectionView>)
    requires
        snapshot_bounded(s),
        forall|i: int, k: int|
            0 <= i < s.len() && 0 <= k < s[i].embeddings.len() ==> (
            #[trigger] s[i].embeddings[k]).bitmap == spec_projection(
                s[i].embeddings[k].metadata,
                s[i].metadata_fields,
            ),
        0 <= pos,
        pos + enc_collections(s).len() <= bytes.len(),
        bytes.subrange(pos, pos + enc_collections(s).len()) == enc_collections(s),
    ensures
        parse_collections(bytes, pos, s.len()) == Some((s, pos + enc_collections(s).len())),
    decreases s.len(),
{
    if s.len() == 0 {
        assert(s =~= Seq::<CollectionView>::empty());
    } else {
        let head = s[0];
        let tail = s.subrange(1, s.len() as int);
        lemma_enc_collections_head(s);
        let hl = enc_collection(head).len() as int;
        lemma_enc_u64_len(head.name.len() as u64);
        lemma_enc_chars_len(head.name);
        lemma_enc_u64_len(head.dimension as u64);
        assert(enc_collections(s).subrange(0, hl) =~= enc_collection(head));
        lemma_chunk(bytes, pos, enc_collections(s), 0, enc_collection(head));
        lemma_parse_collection(bytes, pos, head);
        assert(enc_collections(s).subrange(hl, hl + enc_collections(tail).len() as int)
            =~= enc_collections(tail));
        lemma_chunk(bytes, pos, enc_collections(s), hl, enc_collections(tail));
        lemma_parse_collections(bytes, pos + hl, tail);
        assert(seq![head] + tail =~= s);
    }
}

/// Round trip of the whole store: the snapshot parser recovers, byte for
/// byte from what the snapshot encoder wrote, exactly the collections
/// that were encoded, bitmaps included, since a well-formed store's
/// bitmaps are the projections that decoding rebuilds.
pub proof fn lemma_snapshot_round_trip(cs: Seq<CollectionView>)
    requires
        snapshot_bounded(cs),
        forall|i: int, k: int|
            0 <= i < cs.len() && 0 <= k < cs[i].embeddings.len() ==> (
            #[trigger] cs[i].embeddings[k]).bitmap == spec_projection(
                cs[i].embeddings[k].metadata,
                cs[i].metadata_fields,
            ),
    ensures
        parse_snapshot(spec_snapshot_bytes(cs)) == Some(cs),
{
    let bytes = spec_snapshot_bytes(cs);
    lemma_enc_u64_len(1u64);
    lemma_enc_u64_len(cs.len() as u64);
    assert(bytes.subrange(0, 8) =~= enc_u64(1u64));
    lemma_parse_u64(bytes, 0, 1u64);
    assert(bytes.subrange(8, 16) =~= enc_u64(cs.len() as u64));
    lemma_parse_u64(bytes, 8, cs.len() as u64);
    assert(bytes.subrange(16, 16 + enc_collections(cs).len() as int) =~= enc_collections(cs));
    lemma_parse_collections(bytes, 16, cs);
}


// ---------------------------------------------------------------------
// Executable snapshot encoding.
// ---------------------------------------------------------------------
/// Appends the component count and the components of a vector.
fn enc_u32s_into(out: &mut Vec<u8>, v: &Vec<u32>)
    ensures
        final(out)@ == old(out)@ + enc_u64(v@.len() as u64) + enc_u32s(v@),
{
    let n = v.len();
    enc_u64_into(out, n as u64);
    let mut i: usize = 0;
    while i < n
        invariant
            n == v@.len(),
            0 <= i <= n,
            out@ == old(out)@ + enc_u64(n as u64) + enc_u32s(v@.subrange(0, i as int)),
        decreases n - i,
    {
        let ghost pre = v@.subrange(0, i as int);
        enc_u32_into(out, v[i]);
        proof {
            let cur = v@.subrange(0, i + 1);
            assert(cur.drop_last() =~= pre);
            assert(enc_u32s(cur) == enc_u32s(pre) + enc_u32(v@[i as int]));
            assert(out@ =~= old(out)@ + enc_u64(n as u64) + enc_u32s(cur));
        }
        i = i + 1;
    }
    proof {
        assert(v@.subrange(0, n as int) =~= v@);
    }
}

/// Appends one record: id, vector and metadata; the bitmap is not written.
fn enc_embedding_into(out: &mut Vec<u8>, e: &Embedding)
    ensures
        final(out)@ == old(out)@ + enc_embedding(e@),
{
    enc_u64_into(out, e.id);
    enc_u32s_into(out, &e.vector);
    enc_meta_into(out, &e.metadata);
    proof {
        assert(out@ =~= old(out)@ + enc_embedding(e@));
    }
}

/// Appends the name count and the names of the declared field order.
fn enc_strings_into(out: &mut Vec<u8>, v: &Vec<String>)
    ensures
        final(out)@ == old(out)@ + enc_u64(v@.len() as u64) + enc_strings(v.deep_view()),
{
    let n = v.len();
    enc_u64_into(out, n as u64);
    let mut i: usize = 0;
    while i < n
        invariant
            n == v@.len(),
            0 <= i <= n,
            out@ == old(out)@ + enc_u64(n as u64) + enc_strings(v.deep_view().subrange(0, i as int)),
        decreases n - i,
    {
        let ghost pre = v.deep_view().subrange(0, i as int);
        enc_string_into(out, &v[i]);
        proof {
            let cur = v.deep_view().subrange(0, i + 1);
            assert(cur.drop_last() =~= pre);
            assert(cur.last() == v@[i as int]@);
            assert(enc_strings(cur) == enc_strings(pre) + enc_string(v@[i as int]@));
            assert(out@ =~= old(out)@ + enc_u64(n as u64) + enc_strings(cur));
        }
        i = i + 1;
    }
    proof {
        assert(v.deep_view().subrange(0, n as int) =~= v.deep_view());
    }
}

/// Appends one collection: name, dimension, metric tag, field order and
/// records.
fn enc_collection_into(out: &mut Vec<u8>, c: &Collection)
    ensures
        final(out)@ == old(out)@ + enc_collection(c@),
{
    enc_string_into(out, &c.name);
    enc_u64_into(out, c.dimension as u64);
    match c.distance {
        Distance::Euclidean => out.push(0u8),
        Distance::Cosine => out.push(1u8),
        Distance::DotProduct => out.push(2u8),
    }
    enc_strings_into(out, &c.metadata_fields);
    let ghost base = out@;
    let n = c.embeddings.len();
    enc_u64_into(out, n as u64);
    let mut i: usize = 0;
    while i < n
        invariant
            n == c.embeddings@.len(),
            0 <= i <= n,
            out@ == base + enc_u64(n as u64) + enc_embeddings(
                c@.embeddings.subrange(0, i as int),
            ),
        decreases n - i,
    {
        let ghost pre = c@.embeddings.subrange(0, i as int);
        enc_embedding_into(out, &c.embeddings[i]);
        proof {
            let cur = c@.embeddings.subrange(0, i + 1);
            assert(cur.drop_last() =~= pre);
            assert(cur.last() == c.embeddings@[i as int]@);
            assert(enc_embeddings(cur) == enc_embeddings(pre) + enc_embedding(
                c.embeddings@[i as int]@,
            ));
            assert(out@ =~= base + enc_u64(n as u64) + enc_embeddings(cur));
        }
        i = i + 1;
    }
    proof {
        assert(c@.embeddings.subrange(0, n as int) =~= c@.embeddings);
        assert(c@.embeddings.len() == n);
        assert(out@ =~= old(out)@ + enc_collection(c@));
    }
}

/// Encodes the whole store as one snapshot blob.
fn to_snapshot_bytes(db: &Db) -> (r: Vec<u8>)
    ensures
        r@ == spec_snapshot_bytes(db@.collections),
{
    let mut out: Vec<u8> = Vec::new();
    enc_u64_into(&mut out, 1u64);
    let n = db.collections.len();
    enc_u64_into(&mut out, n as u64);
    let mut i: usize = 0;
    while i < n
        invariant
            n == db.collections@.len(),
            0 <= i <= n,
            out@ == enc_u64(1u64) + enc_u64(n as u64) + enc_collections(
                db@.collections.subrange(0, i as int),
            ),
        decreases n - i,
    {
        let ghost pre = db@.collections.subrange(0, i as int);
        enc_collection_into(&mut out, &db.collections[i]);
        proof {
            let cur = db@.collections.subrange(0, i + 1);
            assert(cur.drop_last() =~= pre);
            assert(cur.last() == db.collections@[i as int]@);
            assert(enc_collections(cur) == enc_collections(pre) + enc_collection(
                db.collections@[i as int]@,
            ));
            assert(out@ =~= enc_u64(1u64) + enc_u64(n as u64) + enc_collections(cur));
        }
        i = i + 1;
    }
    proof {
        assert(db@.collections.subrange(0, n as int) =~= db@.collections);
        assert(db@.collections.len() == n);
        assert(out@ =~= spec_snapshot_bytes(db@.collections));
    }
    out
}

// ---------------------------------------------------------------------
// Executable snapshot decoding.
// ---------------------------------------------------------------------
/// Decodes a vector: its component count, then the components.
fn decode_vector(bytes: &Vec<u8>, pos: usize) -> (r: Option<(Vec<u32>, usize)>)
    ensures
        match r {
            Some((v, p)) => parse_vector(bytes@, pos as int) == Some((v@, p as int)),
            None => parse_vector(bytes@, pos as int) is None,
        },
{
    let (n, p0) = match read_u64(bytes, pos) {
        None => {
            return None;
        },
        Some(t) => t,
    };
    let mut v: Vec<u32> = Vec::new();
    let mut q: usize = p0;
    let mut i: u64 = 0;
    while i < n
        invariant
            0 <= i <= n,
            parse_vector(bytes@, pos as int) == (match parse_u32s(
                bytes@,
                q as int,
                (n - i) as nat,
            ) {
                None => None::<(Seq<u32>, int)>,
                Some(t) => Some((v@ + t.0, t.1)),
            }),
        decreases n - i,
    {
        let (x, q2) = match read_u32(bytes, q) {
            None => {
                return None;
            },
            Some(t) => t,
        };
        let ghost vpre = v@;
        v.push(x);
        proof {
            let rest = parse_u32s(bytes@, q2 as int, (n - i - 1) as nat);
            if rest is Some {
                let (s2, pe) = rest->Some_0;
                assert(vpre.push(x) + s2 =~= vpre + (seq![x] + s2));
            }
        }
        q = q2;
        i = i + 1;
    }
    proof {
        assert(v@ + Seq::<u32>::empty() =~= v@);
    }
    Some((v, q))
}

/// Decodes one record and projects its bitmap from the decoded metadata
/// onto the declared field order.
fn decode_embedding(bytes: &Vec<u8>, pos: usize, metadata_fields: &Vec<String>) -> (r: Option<
    (Embedding, usize),
>)
    ensures
        match r {
            Some((e, p)) => parse_embedding(bytes@, pos as int) == Some(
                ((e@.id, e@.vector, e@.metadata), p as int),
            ) && e@.bitmap == spec_projection(e@.metadata, metadata_fields.deep_view()),
            None => parse_embedding(bytes@, pos as int) is None,
        },
{
    let (id, p1) = match read_u64(bytes, pos) {
        None => {
            return None;
        },
        Some(t) => t,
    };
    let (vector, p2) = match decode_vector(bytes, p1) {
        None => {
            return None;
        },
        Some(t) => t,
    };
    let (metadata, p3) = match decode_meta(bytes, p2) {
        None => {
            return None;
        },
        Some(t) => t,
    };
    let bitmap = crate::bitmaps::generate_bitmap_from_metadata(&metadata, metadata_fields);
    Some((Embedding { id, vector, metadata, bitmap }, p3))
}

/// Decodes one collection.
#[verifier::loop_isolation(false)]
fn decode_collection(bytes: &Vec<u8>, pos: usize) -> (r: Option<(Collection, usize)>)
    ensures
        match r {
            Some((c, p)) => parse_collection(bytes@, pos as int) == Some((c@, p as int))
                && forall|k: int|
                0 <= k < c@.embeddings.len() ==> (#[trigger] c@.embeddings[k]).bitmap
                    == spec_projection(c@.embeddings[k].metadata, c@.metadata_fields),
            None => parse_collection(bytes@, pos as int) is None,
        },
{
    let (name, p1) = match decode_string(bytes, pos) {
        None => {
            return None;
        },
        Some(t) => t,
    };
    let (dim, p2) = match read_u64(bytes, p1) {
        None => {
            return None;
        },
        Some(t) => t,
    };
    if dim > usize::MAX as u64 {
        return None;
    }
    let dimension = dim as usize;
    let (tag, p3) = match read_byte(bytes, p2) {
        None => {
            return None;
        },
        Some(t) => t,
    };
    if tag > 2 {
        return None;
    }
    let distance = if tag == 0 {
        Distance::Euclidean
    } else if tag == 1 {
        Distance::Cosine
    } else {
        Distance::DotProduct
    };
    let (nf, p4) = match read_u64(bytes, p3) {
        None => {
            return None;
        },
        Some(t) => t,
    };
    let mut metadata_fields: Vec<String> = Vec::new();
    let mut q: usize = p4;
    let mut i: u64 = 0;
    while i < nf
        invariant
            0 <= i <= nf,
            parse_strings(bytes@, p4 as int, nf as nat) == (match parse_strings(
                bytes@,
                q as int,
                (nf - i) as nat,
            ) {
                None => None::<(Seq<Seq<char>>, int)>,
                Some(t) => Some((metadata_fields.deep_view() + t.0, t.1)),
            }),
        decreases nf - i,
    {
        let (st, q2) = match decode_string(bytes, q) {
            None => {
                return None;
            },
            Some(t) => t,
        };
        if !(q < q2 && q2 <= bytes.len()) {
            return None;
        }
        let ghost fpre = metadata_fields.deep_view();
        let ghost sv = st@;
        metadata_fields.push(st);
        proof {
            assert(metadata_fields.deep_view() =~= fpre.push(sv));
            let rest = parse_strings(bytes@, q2 as int, (nf - i - 1) as nat);
            if rest is Some {
                let (s2, pe) = rest->Some_0;
                assert(fpre.push(sv) + s2 =~= fpre + (seq![sv] + s2));
            }
        }
        q = q2;
        i = i + 1;
    }
    proof {
        assert(metadata_fields.deep_view() + Seq::<Seq<char>>::empty() =~= metadata_fields
            .deep_view());
    }
    let (ne, p6) = match read_u64(bytes, q) {
        None => {
            return None;
        },
        Some(t) => t,
    };
    let mut embeddings: Vec<Embedding> = Vec::new();
    let ghost fv = metadata_fields.deep_view();
    let mut q2: usize = p6;
    let mut j: u64 = 0;
    while j < ne
        invariant
            0 <= j <= ne,
            fv == metadata_fields.deep_view(),
            forall|k: int|
                0 <= k < embeddings@.len() ==> (#[trigger] embeddings@[k]@).bitmap
                    == spec_projection(embeddings@[k]@.metadata, fv),
            parse_embeddings(bytes@, p6 as int, ne as nat) == (match parse_embeddings(
                bytes@,
                q2 as int,
                (ne - j) as nat,
            ) {
                None => None::<(Seq<RawEmbedding>, int)>,
                Some(t) => Some(
                    (
                        Seq::new(
                            embeddings@.len(),
                            |k: int|
                                (
                                    embeddings@[k]@.id,
                                    embeddings@[k]@.vector,
                                    embeddings@[k]@.metadata,
                                ),
                        ) + t.0,
                        t.1,
                    ),
                ),
            }),
        decreases ne - j,
    {
        let (e, q3) = match decode_embedding(bytes, q2, &metadata_fields) {
            None => {
                return None;
            },
            Some(t) => t,
        };
        if !(q2 < q3 && q3 <= bytes.len()) {
            return None;
        }
        let ghost epre = embeddings@;
        embeddings.push(e);
        proof {
            let raws = Seq::new(
                epre.len(),
                |k: int| (epre[k]@.id, epre[k]@.vector, epre[k]@.metadata),
            );
            let raws2 = Seq::new(
                embeddings@.len(),
                |k: int|
                    (embeddings@[k]@.id, embeddings@[k]@.vector, embeddings@[k]@.metadata),
            );
            assert(raws2 =~= raws.push((e@.id, e@.vector, e@.metadata)));
            let rest = parse_embeddings(bytes@, q3 as int, (ne - j - 1) as nat);
            if rest is Some {
                let (s2, pe) = rest->Some_0;
                assert(raws.push((e@.id, e@.vector, e@.metadata)) + s2 =~= raws + (seq![
                    (e@.id, e@.vector, e@.metadata),
                ] + s2));
            }
        }
        q2 = q3;
        j = j + 1;
    }
    let c = Collection { name, dimension, distance, embeddings, metadata_fields };
    proof {
        let raws = Seq::new(
            c.embeddings@.len(),
            |k: int| (c.embeddings@[k]@.id, c.embeddings@[k]@.vector, c.embeddings@[k]@.metadata),
        );
        assert(raws + Seq::<RawEmbedding>::empty() =~= raws);
        assert(c@.embeddings =~= Seq::new(raws.len(), |i: int| assemble_embedding(raws[i], fv)));
        assert(parse_collection(bytes@, pos as int) == Some((c@, q2 as int)));
    }
    Some((c, q2))
}

/// Decodes the collection list of a whole snapshot.
#[verifier::loop_isolation(false)]
fn decode_snapshot(bytes: &Vec<u8>) -> (r: Option<Vec<Collection>>)
    ensures
        match r {
            Some(cs) => parse_snapshot(bytes@) == Some(Seq::new(cs@.len(), |i: int| cs@[i]@))
                && forall|i: int, k: int|
                0 <= i < cs@.len() && 0 <= k < cs@[i]@.embeddings.len() ==> (
                #[trigger] cs@[i]@.embeddings[k]).bitmap == spec_projection(
                    cs@[i]@.embeddings[k].metadata,
                    cs@[i]@.metadata_fields,
                ),
            None => parse_snapshot(bytes@) is None,
        },
{
    let (version, p1) = match read_u64(bytes, 0) {
        None => {
            return None;
        },
        Some(t) => t,
    };
    if version != 1 {
        return None;
    }
    let (n, p2) = match read_u64(bytes, p1) {
        None => {
            return None;
        },
        Some(t) => t,
    };
    let mut collections: Vec<Collection> = Vec::new();
    let mut q: usize = p2;
    let mut i: u64 = 0;
    while i < n
        invariant
            0 <= i <= n,
            q <= bytes@.len(),
            forall|i2: int, k: int|
                0 <= i2 < collections@.len() && 0 <= k < collections@[i2]@.embeddings.len() ==> (
                #[trigger] collections@[i2]@.embeddings[k]).bitmap == spec_projection(
                    collections@[i2]@.embeddings[k].metadata,
                    collections@[i2]@.metadata_fields,
                ),
            parse_collections(bytes@, p2 as int, n as nat) == (match parse_collections(
                bytes@,
                q as int,
                (n - i) as nat,
            ) {
                None => None::<(Seq<CollectionView>, int)>,
                Some(t) => Some((Seq::new(collections@.len(), |k: int| collections@[k]@) + t.0, t.1)),
            }),
        decreases n - i,
    {
        let (c, q2) = match decode_collection(bytes, q) {
            None => {
                return None;
            },
            Some(t) => t,
        };
        if !(q < q2 && q2 <= bytes.len()) {
            return None;
        }
        let ghost cpre = collections@;
        collections.push(c);
        proof {
            let cvs = Seq::new(cpre.len(), |k: int| cpre[k]@);
            let cvs2 = Seq::new(collections@.len(), |k: int| collections@[k]@);
            assert(cvs2 =~= cvs.push(c@));
            let rest = parse_collections(bytes@, q2 as int, (n - i - 1) as nat);
            if rest is Some {
                let (s2, pe) = rest->Some_0;
                assert(cvs.push(c@) + s2 =~= cvs + (seq![c@] + s2));
            }
        }
        q = q2;
        i = i + 1;
    }
    if q != bytes.len() {
        return None;
    }
    proof {
        let cvs = Seq::new(collections@.len(), |k: int| collections@[k]@);
        assert(cvs + Seq::<CollectionView>::empty() =~= cvs);
    }
    Some(collections)
}


// ---------------------------------------------------------------------
// Acceptance of a decoded store, and loading.
// ---------------------------------------------------------------------
/// Whether the id at position `k` of collection `i` occurs again anywhere
/// later in the store.
pub open spec fn dup_after(cs: Seq<CollectionView>, i: int, k: int) -> bool {
    ||| exists|k2: int|
        k < k2 < cs[i].embeddings.len() && cs[i].embeddings[k2].id == cs[i].embeddings[k].id
    ||| exists|j: int, k2: int|
        i < j < cs.len() && 0 <= k2 < cs[j].embeddings.len() && cs[j].embeddings[k2].id
            == cs[i].embeddings[k].id
}

/// What a decoded store must satisfy to be accepted: unique collection
/// names, vectors of the declared dimension, positive ids below the
/// counter's ceiling, and no id stored twice.
pub open spec fn snapshot_ok(cs: Seq<CollectionView>) -> bool {
    &&& forall|i: int, j: int| 0 <= i < j < cs.len() ==> cs[i].name != cs[j].name
    &&& forall|i: int, k: int|
        0 <= i < cs.len() && 0 <= k < cs[i].embeddings.len() ==> (
        #[trigger] cs[i].embeddings[k]).vector.len() == cs[i].dimension
    &&& forall|i: int, k: int|
        0 <= i < cs.len() && 0 <= k < cs[i].embeddings.len() ==> 1 <= (
        #[trigger] cs[i].embeddings[k]).id < u64::MAX
    &&& forall|i: int, k: int|
        0 <= i < cs.len() && 0 <= k < cs[i].embeddings.len() ==> !dup_after(cs, i, k)
}

/// Whether the id at position `k` of collection `i` occurs again later.
#[verifier::loop_isolation(false)]
fn has_dup_after(collections: &Vec<Collection>, i: usize, k: usize) -> (b: bool)
    requires
        i < collections@.len(),
        k < collections@[i as int]@.embeddings.len(),
    ensures
        b == dup_after(Seq::new(collections@.len(), |q: int| collections@[q]@), i as int, k as int),
{
    let ghost cs = Seq::new(collections@.len(), |q: int| collections@[q]@);
    let id = collections[i].embeddings[k].id;
    let leni = collections[i].embeddings.len();
    let mut k2: usize = k + 1;
    while k2 < leni
        invariant
            k < k2 <= leni,
            forall|m: int| k < m < k2 ==> cs[i as int].embeddings[m].id != id,
        decreases leni - k2,
    {
        if collections[i].embeddings[k2].id == id {
            proof {
                assert(cs[i as int].embeddings[k2 as int].id == id);
                assert(cs[i as int].embeddings[k as int].id == id);
            }
            return true;
        }
        k2 = k2 + 1;
    }
    let n = collections.len();
    let mut j: usize = i + 1;
    while j < n
        invariant
            i < j <= n,
            forall|m: int, m2: int|
                i < m < j && 0 <= m2 < cs[m].embeddings.len() ==> cs[m].embeddings[m2].id != id,
        decreases n - j,
    {
        let lenj = collections[j].embeddings.len();
        let mut m2: usize = 0;
        while m2 < lenj
            invariant
                0 <= m2 <= lenj,
                forall|q: int| 0 <= q < m2 ==> cs[j as int].embeddings[q].id != id,
            decreases lenj - m2,
        {
            if collections[j].embeddings[m2].id == id {
                proof {
                    assert(cs[j as int].embeddings[m2 as int].id == id);
                    assert(cs[i as int].embeddings[k as int].id == id);
                }
                return true;
            }
            m2 = m2 + 1;
        }
        j = j + 1;
    }
    false
}

/// Checks a decoded store before it is adopted.
#[verifier::loop_isolation(false)]
fn check_snapshot(collections: &Vec<Collection>) -> (b: bool)
    ensures
        b == snapshot_ok(Seq::new(collections@.len(), |q: int| collections@[q]@)),
{
    let ghost cs = Seq::new(collections@.len(), |q: int| collections@[q]@);
    let n = collections.len();
    let mut i: usize = 0;
    while i < n
        invariant
            0 <= i <= n,
            forall|a: int, b2: int| 0 <= a < i && a < b2 < n ==> cs[a].name != cs[b2].name,
        decreases n - i,
    {
        let mut j: usize = i + 1;
        while j < n
            invariant
                i < j <= n,
                forall|b2: int| i < b2 < j ==> cs[i as int].name != cs[b2].name,
            decreases n - j,
        {
            if collections[i].name == collections[j].name {
                proof {
                    assert(cs[i as int].name == cs[j as int].name);
                    assert(!snapshot_ok(cs));
                }
                return false;
            }
            j = j + 1;
        }
        i = i + 1;
    }
    let mut i2: usize = 0;
    while i2 < n
        invariant
            0 <= i2 <= n,
            forall|a: int, k: int|
                0 <= a < i2 && 0 <= k < cs[a].embeddings.len() ==> (
                #[trigger] cs[a].embeddings[k]).vector.len() == cs[a].dimension && 1 <= cs[
                    a
                ].embeddings[k].id < u64::MAX && !dup_after(cs, a, k),
        decreases n - i2,
    {
        let leni = collections[i2].embeddings.len();
        let mut k: usize = 0;
        while k < leni
            invariant
                0 <= k <= leni,
                forall|m: int|
                    0 <= m < k ==> (#[trigger] cs[i2 as int].embeddings[m]).vector.len() == cs[
                        i2 as int
                    ].dimension && 1 <= cs[i2 as int].embeddings[m].id < u64::MAX && !dup_after(
                        cs,
                        i2 as int,
                        m,
                    ),
            decreases leni - k,
        {
            let e = &collections[i2].embeddings[k];
            proof {
                assert(cs[i2 as int].embeddings[k as int] == collections@[i2 as int].embeddings@[
                    k as int
                ]@);
            }
            if e.vector.len() != collections[i2].dimension {
                proof {
                    assert(cs[i2 as int].embeddings[k as int].vector.len() != cs[
                        i2 as int
                    ].dimension);
                    assert(!snapshot_ok(cs));
                }
                return false;
            }
            if e.id == 0 || e.id == u64::MAX {
                proof {
                    assert(!(1 <= cs[i2 as int].embeddings[k as int].id < u64::MAX));
                    assert(!snapshot_ok(cs));
                }
                return false;
            }
            if has_dup_after(collections, i2, k) {
                proof {
                    assert(!snapshot_ok(cs));
                }
                return false;
            }
            k = k + 1;
        }
        i2 = i2 + 1;
    }
    true
}

/// The largest id stored anywhere, or zero of an empty store.
#[verifier::loop_isolation(false)]
fn max_stored_id(collections: &Vec<Collection>) -> (m: u64)
    ensures
        forall|i: int, k: int|
            0 <= i < collections@.len() && 0 <= k < collections@[i]@.embeddings.len() ==> (
            #[trigger] collections@[i]@.embeddings[k]).id <= m,
        m == 0 || exists|i: int, k: int|
            0 <= i < collections@.len() && 0 <= k < collections@[i]@.embeddings.len() && (
            #[trigger] collections@[i]@.embeddings[k]).id == m,
{
    let ghost cs = Seq::new(collections@.len(), |q: int| collections@[q]@);
    let mut m: u64 = 0;
    let n = collections.len();
    let mut i: usize = 0;
    while i < n
        invariant
            0 <= i <= n,
            forall|a: int, k: int|
                0 <= a < i && 0 <= k < collections@[a]@.embeddings.len() ==> (
                #[trigger] collections@[a]@.embeddings[k]).id <= m,
            m == 0 || exists|a: int, k: int|
                0 <= a < collections@.len() && 0 <= k < collections@[a]@.embeddings.len() && (
                #[trigger] collections@[a]@.embeddings[k]).id == m,
        decreases n - i,
    {
        let leni = collections[i].embeddings.len();
        let mut k: usize = 0;
        while k < leni
            invariant
                0 <= k <= leni,
                forall|a: int, k2: int|
                    0 <= a < i && 0 <= k2 < collections@[a]@.embeddings.len() ==> (
                    #[trigger] collections@[a]@.embeddings[k2]).id <= m,
                forall|k2: int|
                    0 <= k2 < k ==> (#[trigger] collections@[i as int]@.embeddings[k2]).id <= m,
                m == 0 || exists|a: int, k2: int|
                    0 <= a < collections@.len() && 0 <= k2 < collections@[a]@.embeddings.len() && (
                    #[trigger] collections@[a]@.embeddings[k2]).id == m,
            decreases leni - k,
        {
            let id = collections[i].embeddings[k].id;
            proof {
                assert(collections@[i as int]@.embeddings[k as int].id == id);
            }
            if id > m {
                m = id;
            }
            k = k + 1;
        }
        i = i + 1;
    }
    m
}

impl Db {
    /// Encodes this store as a single snapshot blob; what the blob holds
    /// is exactly `spec_snapshot_bytes` of the store's collections.
    pub fn to_snapshot(&self) -> (r: Vec<u8>)
        ensures
            r@ == spec_snapshot_bytes(self@.collections),
    {
        to_snapshot_bytes(self)
    }

    /// Rebuilds a store from a snapshot blob. Fails with
    /// `SerializationError` exactly when the bytes do not decode or the
    /// decoded store is not acceptable; on success the store is well
    /// formed, holds exactly the decoded collections with their bitmaps
    /// projected anew, and will issue ids above everything stored.
    pub fn from_snapshot(bytes: &Vec<u8>) -> (r: Result<Db, Error>)
        ensures
            match r {
                Ok(db) => parse_snapshot(bytes@) == Some(db@.collections) && snapshot_ok(
                    db@.collections,
                ) && db@.wf() && (db@.next_id == 1 || exists|i: int, k: int|
                    0 <= i < db@.collections.len() && 0 <= k < db@.collections[i].embeddings.len()
                        && (#[trigger] db@.collections[i].embeddings[k]).id == db@.next_id - 1),
                Err(e) => !(parse_snapshot(bytes@) matches Some(cs) && snapshot_ok(cs)) && (
                e matches Error::SerializationError(_)),
            },
    {
        let collections = match decode_snapshot(bytes) {
            None => {
                return Err(Error::SerializationError("the snapshot bytes cannot be decoded".to_owned()));
            },
            Some(cs) => cs,
        };
        let ghost cs = Seq::new(collections@.len(), |q: int| collections@[q]@);
        if !check_snapshot(&collections) {
            return Err(
                Error::SerializationError("the decoded store breaks a storage invariant".to_owned()),
            );
        }
        let m = max_stored_id(&collections);
        proof {
            if m > 0 {
                let (wi, wk) = choose|a: int, k2: int|
                    0 <= a < collections@.len() && 0 <= k2 < collections@[a]@.embeddings.len() && (
                    #[trigger] collections@[a]@.embeddings[k2]).id == m;
                assert(cs[wi].embeddings[wk].id < u64::MAX);
            }
        }
        let db = Db { collections, id_generator: IdGenerator::new(m + 1) };
        proof {
            assert(db@.collections =~= cs);
            lemma_accepted_snapshot_wf(cs, (m + 1) as u64);
        }
        Ok(db)
    }
}

/// An accepted decoded store, with its counter set past every stored id,
/// is well formed.
proof fn lemma_accepted_snapshot_wf(cs: Seq<CollectionView>, next: u64)
    requires
        snapshot_ok(cs),
        forall|i: int, k: int|
            0 <= i < cs.len() && 0 <= k < cs[i].embeddings.len() ==> (
            #[trigger] cs[i].embeddings[k]).bitmap == spec_projection(
                cs[i].embeddings[k].metadata,
                cs[i].metadata_fields,
            ),
        1 <= next,
        forall|i: int, k: int|
            0 <= i < cs.len() && 0 <= k < cs[i].embeddings.len() ==> (
            #[trigger] cs[i].embeddings[k]).id < next,
    ensures
        (DbView { collections: cs, next_id: next }).wf(),
{
    let db = DbView { collections: cs, next_id: next };
    assert forall|i: int| 0 <= i < cs.len() implies (#[trigger] cs[i]).wf() by {
        assert forall|k: int|
            0 <= k < cs[i].embeddings.len() implies (#[trigger] cs[i].embeddings[k]).wf(
            cs[i].dimension,
            cs[i].metadata_fields,
        ) by {
            assert(cs[i].embeddings[k].vector.len() == cs[i].dimension);
        }
        assert forall|k1: int, k2: int|
            0 <= k1 < k2 < cs[i].embeddings.len() implies cs[i].embeddings[k1].id
            != cs[i].embeddings[k2].id by {
            assert(!dup_after(cs, i, k1));
        }
    }
    assert forall|i1: int, k1: int, i2: int, k2: int|
        0 <= i1 < i2 < cs.len() && 0 <= k1 < cs[i1].embeddings.len() && 0 <= k2 < cs[
            i2
        ].embeddings.len() implies (#[trigger] cs[i1].embeddings[k1]).id != (
    #[trigger] cs[i2].embeddings[k2]).id by {
        assert(!dup_after(cs, i1, k1));
    }
}

/// A well-formed store is always acceptable on reload.
pub proof fn lemma_wf_snapshot_ok(db: DbView)
    requires
        db.wf(),
    ensures
        snapshot_ok(db.collections),
{
    let cs = db.collections;
    assert forall|i: int, k: int|
        0 <= i < cs.len() && 0 <= k < cs[i].embeddings.len() implies 1 <= (
    #[trigger] cs[i].embeddings[k]).id < u64::MAX by {
        assert(cs[i].wf());
        assert(cs[i].embeddings[k].wf(cs[i].dimension, cs[i].metadata_fields));
        assert(cs[i].embeddings[k].id < db.next_id);
    }
    assert forall|i: int, k: int|
        0 <= i < cs.len() && 0 <= k < cs[i].embeddings.len() implies (
    #[trigger] cs[i].embeddings[k]).vector.len() == cs[i].dimension by {
        assert(cs[i].wf());
        assert(cs[i].embeddings[k].wf(cs[i].dimension, cs[i].metadata_fields));
    }
    assert forall|i: int, k: int|
        0 <= i < cs.len() && 0 <= k < cs[i].embeddings.len() implies !dup_after(cs, i, k) by {
        assert(cs[i].wf());
        if dup_after(cs, i, k) {
            if exists|k2: int|
                k < k2 < cs[i].embeddings.len() && cs[i].embeddings[k2].id == cs[i].embeddings[k].id {
                let k2 = choose|k2: int|
                    k < k2 < cs[i].embeddings.len() && cs[i].embeddings[k2].id
                        == cs[i].embeddings[k].id;
                assert(cs[i].embeddings[k].id != cs[i].embeddings[k2].id);
            } else {
                let (j, k2) = choose|j: int, k2: int|
                    i < j < cs.len() && 0 <= k2 < cs[j].embeddings.len() && cs[j].embeddings[k2].id
                        == cs[i].embeddings[k].id;
                assert(cs[i].embeddings[k].id != cs[j].embeddings[k2].id);
            }
        }
    }
}

/// A well-formed store's bitmaps are exactly the projections that
/// decoding rebuilds.
pub proof fn lemma_wf_projections(db: DbView)
    requires
        db.wf(),
    ensures
        forall|i: int, k: int|
            0 <= i < db.collections.len() && 0 <= k < db.collections[i].embeddings.len() ==> (
            #[trigger] db.collections[i].embeddings[k]).bitmap == spec_projection(
                db.collections[i].embeddings[k].metadata,
                db.collections[i].metadata_fields,
            ),
{
    let cs = db.collections;
    assert forall|i: int, k: int|
        0 <= i < cs.len() && 0 <= k < cs[i].embeddings.len() implies (
    #[trigger] cs[i].embeddings[k]).bitmap == spec_projection(
        cs[i].embeddings[k].metadata,
        cs[i].metadata_fields,
    ) by {
        assert(cs[i].wf());
        assert(cs[i].embeddings[k].wf(cs[i].dimension, cs[i].metadata_fields));
    }
}

/// Round trip of a live store: encoding a well-formed store and decoding
/// the bytes yields exactly its collections, and the decoded store is
/// accepted. Together with `Db::from_snapshot`'s contract, reloading a
/// saved store succeeds and restores every persisted field; the bitmaps
/// after the reload equal the projections of the restored metadata, which
/// are the very bitmaps the store held.
pub proof fn lemma_store_round_trip(db: DbView)
    requires
        db.wf(),
        snapshot_bounded(db.collections),
    ensures
        parse_snapshot(spec_snapshot_bytes(db.collections)) == Some(db.collections),
        snapshot_ok(db.collections),
{
    lemma_wf_projections(db);
    lemma_wf_snapshot_ok(db);
    lemma_snapshot_round_trip(db.collections);
}

} // verus!
