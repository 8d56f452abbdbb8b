//! The record and header codec: a length-prefixed, self-describing binary
//! encoding of the ordered field→value mapping, decoding rejecting anything
//! structurally invalid, with the round trip proved.
//!
//! Wire form: a record is a little-endian `u64` field count, then per field
//! a one-byte field tag (the `Other` tag followed by the name as a string)
//! and the value as a string; a string is a little-endian `u64` character
//! count then each character as its scalar value in a little-endian `u32`;
//! a header is its three strings back to back.
use vstd::prelude::*;
use vstd::bytes::*;
use vstd::slice::slice_subrange;
use vstd::string::*;
use vstd::utf8::is_scalar;
use crate::db::data::{pairs_model, unique_keys, FieldType, LogHeader, LogRecord, SpecField,
    SpecHeader};
use crate::text::push_char;
use crate::util::Error;

verus! {

broadcast use vstd::utf8::char_is_scalar, vstd::utf8::char_u32_cast;

pub open spec fn enc_u64(x: u64) -> Seq<u8> {
    spec_u64_to_le_bytes(x)
}

pub open spec fn enc_char(c: char) -> Seq<u8> {
    spec_u32_to_le_bytes(c as u32)
}

pub open spec fn enc_chars(s: Seq<char>) -> Seq<u8>
    decreases s.len(),
{
    if s.len() == 0 {
        Seq::empty()
    } else {
        enc_char(s[0]) + enc_chars(s.drop_first())
    }
}

pub open spec fn enc_str(s: Seq<char>) -> Seq<u8> {
    enc_u64(s.len() as u64) + enc_chars(s)
}

/// The wire tag of each field name.
pub open spec fn field_tag(f: SpecField) -> u8 {
    match f {
        SpecField::Timestamp => 0,
        SpecField::WorkedCall => 1,
        SpecField::Frequency => 2,
        SpecField::Mode => 3,
        SpecField::SentRST => 4,
        SpecField::RcvdRST => 5,
        SpecField::GridSquare => 6,
        SpecField::PrimaryAdminSubdiv => 7,
        SpecField::SentSerial => 8,
        SpecField::RcvdSerial => 9,
        SpecField::DXCC => 10,
        SpecField::CQZ => 11,
        SpecField::ITUZ => 12,
        SpecField::POTARef => 13,
        SpecField::Comment => 14,
        SpecField::Name => 15,
        SpecField::QTH => 16,
        SpecField::Other(_) => 17,
    }
}

/// The field with a given plain tag; 17 is `Other` and carries a string.
pub open spec fn tag_field(t: u8) -> SpecField {
    if t == 0 { SpecField::Timestamp } else if t == 1 { SpecField::WorkedCall }
    else if t == 2 { SpecField::Frequency } else if t == 3 { SpecField::Mode }
    else if t == 4 { SpecField::SentRST } else if t == 5 { SpecField::RcvdRST }
    else if t == 6 { SpecField::GridSquare } else if t == 7 { SpecField::PrimaryAdminSubdiv }
    else if t == 8 { SpecField::SentSerial } else if t == 9 { SpecField::RcvdSerial }
    else if t == 10 { SpecField::DXCC } else if t == 11 { SpecField::CQZ }
    else if t == 12 { SpecField::ITUZ } else if t == 13 { SpecField::POTARef }
    else if t == 14 { SpecField::Comment } else if t == 15 { SpecField::Name }
    else { SpecField::QTH }
}

pub open spec fn enc_field(f: SpecField) -> Seq<u8> {
    match f {
        SpecField::Other(s) => seq![17u8] + enc_str(s),
        _ => seq![field_tag(f)],
    }
}

pub open spec fn enc_pairs(m: Seq<(SpecField, Seq<char>)>) -> Seq<u8>
    decreases m.len(),
{
    if m.len() == 0 {
        Seq::empty()
    } else {
        enc_field(m[0].0) + enc_str(m[0].1) + enc_pairs(m.drop_first())
    }
}

/// The bytes a record is stored as.
pub open spec fn spec_encode_record(m: Seq<(SpecField, Seq<char>)>) -> Seq<u8> {
    enc_u64(m.len() as u64) + enc_pairs(m)
}

/// The bytes a header is stored as.
pub open spec fn spec_encode_header(h: SpecHeader) -> Seq<u8> {
    enc_str(h.version) + enc_str(h.op_call) + enc_str(h.comment)
}

// ---------------------------------------------------------------- decoding

pub open spec fn dec_u64(b: Seq<u8>, i: int) -> Option<(u64, int)> {
    if 0 <= i && i + 8 <= b.len() {
        Some((spec_u64_from_le_bytes(b.subrange(i, i + 8)), i + 8))
    } else {
        None
    }
}

pub open spec fn dec_char(b: Seq<u8>, i: int) -> Option<(char, int)> {
    if 0 <= i && i + 4 <= b.len() {
        let u = spec_u32_from_le_bytes(b.subrange(i, i + 4));
        if is_scalar(u) {
            Some((u as char, i + 4))
        } else {
            None
        }
    } else {
        None
    }
}

pub open spec fn dec_chars(b: Seq<u8>, i: int, n: int) -> Option<(Seq<char>, int)>
    decreases n,
{
    if n <= 0 {
        Some((Seq::empty(), i))
    } else {
        match dec_char(b, i) {
            None => None,
            Some((c, i2)) => match dec_chars(b, i2, n - 1) {
                None => None,
                Some((s, i3)) => Some((seq![c] + s, i3)),
            },
        }
    }
}

pub open spec fn dec_str(b: Seq<u8>, i: int) -> Option<(Seq<char>, int)> {
    match dec_u64(b, i) {
        None => None,
        Some((n, i2)) => dec_chars(b, i2, n as int),
    }
}

pub open spec fn dec_field(b: Seq<u8>, i: int) -> Option<(SpecField, int)> {
    if 0 <= i < b.len() {
        let t = b[i];
        if t == 17 {
            match dec_str(b, i + 1) {
                Some((s, i2)) => Some((SpecField::Other(s), i2)),
                None => None,
            }
        } else if t <= 16 {
            Some((tag_field(t), i + 1))
        } else {
            None
        }
    } else {
        None
    }
}

pub open spec fn dec_pairs(b: Seq<u8>, i: int, n: int) -> Option<
    (Seq<(SpecField, Seq<char>)>, int),
>
    decreases n,
{
    if n <= 0 {
        Some((Seq::empty(), i))
    } else {
        match dec_field(b, i) {
            None => None,
            Some((f, i2)) => match dec_str(b, i2) {
                None => None,
                Some((v, i3)) => match dec_pairs(b, i3, n - 1) {
                    None => None,
                    Some((m, i4)) => Some((seq![(f, v)] + m, i4)),
                },
            },
        }
    }
}

/// The record stored in these bytes, if they are exactly one well-formed
/// record with unique field keys.
pub open spec fn spec_decode_record(b: Seq<u8>) -> Option<Seq<(SpecField, Seq<char>)>> {
    match dec_u64(b, 0) {
        None => None,
        Some((n, i)) => match dec_pairs(b, i, n as int) {
            None => None,
            Some((m, end)) => if end == b.len() && unique_keys(m) {
                Some(m)
            } else {
                None
            },
        },
    }
}

/// The header stored in these bytes, if they are exactly three strings.
pub open spec fn spec_decode_header(b: Seq<u8>) -> Option<SpecHeader> {
    match dec_str(b, 0) {
        None => None,
        Some((v, i)) => match dec_str(b, i) {
            None => None,
            Some((o, j)) => match dec_str(b, j) {
                None => None,
                Some((c, k)) => if k == b.len() {
                    Some(SpecHeader { version: v, op_call: o, comment: c })
                } else {
                    None
                },
            },
        },
    }
}

// ------------------------------------------------------- round-trip lemmas

proof fn lemma_enc_chars_len(s: Seq<char>)
    ensures
        enc_chars(s).len() == 4 * s.len(),
    decreases s.len(),
{
    vstd::bytes::lemma_auto_spec_u32_to_from_le_bytes();
    if s.len() > 0 {
        lemma_enc_chars_len(s.drop_first());
    }
}

proof fn lemma_enc_chars_push(s: Seq<char>, c: char)
    ensures
        enc_chars(s.push(c)) == enc_chars(s) + enc_char(c),
    decreases s.len(),
{
    if s.len() == 0 {
        assert(s.push(c).drop_first() =~= s);
        assert(enc_chars(s.push(c)) =~= enc_chars(s) + enc_char(c));
    } else {
        lemma_enc_chars_push(s.drop_first(), c);
        assert(s.push(c).drop_first() =~= s.drop_first().push(c));
        assert(enc_chars(s.push(c)) =~= enc_chars(s) + enc_char(c));
    }
}

proof fn lemma_enc_pairs_push(m: Seq<(SpecField, Seq<char>)>, p: (SpecField, Seq<char>))
    ensures
        enc_pairs(m.push(p)) == enc_pairs(m) + enc_field(p.0) + enc_str(p.1),
    decreases m.len(),
{
    if m.len() == 0 {
        assert(m.push(p).drop_first() =~= m);
        assert(enc_pairs(m.push(p)) =~= enc_pairs(m) + enc_field(p.0) + enc_str(p.1));
    } else {
        lemma_enc_pairs_push(m.drop_first(), p);
        assert(m.push(p).drop_first() =~= m.drop_first().push(p));
        assert(enc_pairs(m.push(p)) =~= enc_pairs(m) + enc_field(p.0) + enc_str(p.1));
    }
}

/// Decoding characters written by the encoder gives them back.
proof fn lemma_dec_chars(b: Seq<u8>, i: int, s: Seq<char>)
    requires
        0 <= i,
        i + 4 * s.len() <= b.len(),
        b.subrange(i, i + 4 * s.len()) == enc_chars(s),
    ensures
        dec_chars(b, i, s.len() as int) == Some((s, i + 4 * s.len())),
    decreases s.len(),
{
    vstd::bytes::lemma_auto_spec_u32_to_from_le_bytes();
    lemma_enc_chars_len(s);
    if s.len() > 0 {
        lemma_enc_chars_len(s.drop_first());
        assert(b.subrange(i, i + 4) =~= enc_chars(s).subrange(0, 4));
        assert(enc_chars(s).subrange(0, 4) =~= enc_char(s[0]));
        let u = spec_u32_from_le_bytes(b.subrange(i, i + 4));
        assert(u == s[0] as u32);
        vstd::utf8::char_is_scalar(s[0]);
        assert(is_scalar(u));
        vstd::utf8::char_u32_cast(s[0], u);
        assert((u as char) == s[0]);
        assert(b.subrange(i + 4, i + 4 + 4 * s.drop_first().len()) =~= enc_chars(s).subrange(
            4,
            enc_chars(s).len() as int,
        ));
        assert(enc_chars(s).subrange(4, enc_chars(s).len() as int) =~= enc_chars(s.drop_first()));
        lemma_dec_chars(b, i + 4, s.drop_first());
        assert(seq![s[0]] + s.drop_first() =~= s);
    }
}

/// Decoding a string written by the encoder gives it back.
proof fn lemma_dec_str(b: Seq<u8>, i: int, s: Seq<char>)
    requires
        0 <= i,
        s.len() <= u64::MAX,
        i + enc_str(s).len() <= b.len(),
        b.subrange(i, i + enc_str(s).len()) == enc_str(s),
    ensures
        enc_str(s).len() == 8 + 4 * s.len(),
        dec_str(b, i) == Some((s, i + enc_str(s).len())),
{
    vstd::bytes::lemma_auto_spec_u64_to_from_le_bytes();
    lemma_enc_chars_len(s);
    assert(b.subrange(i, i + 8) =~= enc_str(s).subrange(0, 8));
    assert(enc_str(s).subrange(0, 8) =~= enc_u64(s.len() as u64));
    let n = spec_u64_from_le_bytes(b.subrange(i, i + 8));
    assert(n == s.len() as u64);
    assert(b.subrange(i + 8, i + 8 + 4 * s.len()) =~= enc_str(s).subrange(
        8,
        enc_str(s).len() as int,
    ));
    assert(enc_str(s).subrange(8, enc_str(s).len() as int) =~= enc_chars(s));
    lemma_dec_chars(b, i + 8, s);
}

/// With too few bytes left, character decoding fails.
proof fn lemma_dec_chars_short(b: Seq<u8>, i: int, n: int)
    requires
        n > 0,
        i + 4 * n > b.len(),
    ensures
        dec_chars(b, i, n) is None,
    decreases n,
{
    if 0 <= i && i + 4 <= b.len() {
        if n > 1 {
            lemma_dec_chars_short(b, i + 4, n - 1);
        }
    }
}

/// The keys bounded so their counts fit the wire's integers.
pub open spec fn wire_bounded(m: Seq<(SpecField, Seq<char>)>) -> bool {
    &&& m.len() <= u64::MAX
    &&& forall|k: int|
        0 <= k < m.len() ==> (#[trigger] m[k]).1.len() <= u64::MAX && (m[k].0 matches
            SpecField::Other(s) ==> s.len() <= u64::MAX)
}

/// Decoding a field written by the encoder gives it back.
proof fn lemma_dec_field(b: Seq<u8>, i: int, f: SpecField)
    requires
        0 <= i,
        f matches SpecField::Other(s) ==> s.len() <= u64::MAX,
        i + enc_field(f).len() <= b.len(),
        b.subrange(i, i + enc_field(f).len()) == enc_field(f),
    ensures
        dec_field(b, i) == Some((f, i + enc_field(f).len())),
{
    match f {
        SpecField::Other(s) => {
            assert(b[i] == enc_field(f)[0]);
            assert(b[i] == 17);
            lemma_enc_chars_len(s);
            assert(b.subrange(i + 1, i + 1 + enc_str(s).len()) =~= enc_field(f).subrange(
                1,
                enc_field(f).len() as int,
            ));
            assert(enc_field(f).subrange(1, enc_field(f).len() as int) =~= enc_str(s));
            lemma_dec_str(b, i + 1, s);
        },
        _ => {
            assert(b[i] == enc_field(f)[0]);
            assert(b[i] == field_tag(f));
            assert(tag_field(field_tag(f)) == f);
        },
    }
}

/// Decoding pairs written by the encoder gives them back.
proof fn lemma_dec_pairs(b: Seq<u8>, i: int, m: Seq<(SpecField, Seq<char>)>)
    requires
        0 <= i,
        wire_bounded(m),
        i + enc_pairs(m).len() <= b.len(),
        b.subrange(i, i + enc_pairs(m).len()) == enc_pairs(m),
    ensures
        dec_pairs(b, i, m.len() as int) == Some((m, i + enc_pairs(m).len())),
    decreases m.len(),
{
    if m.len() > 0 {
        let f = m[0].0;
        let v = m[0].1;
        let fl = enc_field(f).len() as int;
        let sl = enc_str(v).len() as int;
        assert(b.subrange(i, i + fl) =~= enc_pairs(m).subrange(0, fl));
        assert(enc_pairs(m).subrange(0, fl) =~= enc_field(f));
        lemma_dec_field(b, i, f);
        assert(b.subrange(i + fl, i + fl + sl) =~= enc_pairs(m).subrange(fl, fl + sl));
        assert(enc_pairs(m).subrange(fl, fl + sl) =~= enc_str(v));
        lemma_dec_str(b, i + fl, v);
        let rest = enc_pairs(m.drop_first());
        assert(b.subrange(i + fl + sl, i + enc_pairs(m).len()) =~= enc_pairs(m).subrange(
            fl + sl,
            enc_pairs(m).len() as int,
        ));
        assert(enc_pairs(m).subrange(fl + sl, enc_pairs(m).len() as int) =~= rest);
        assert(wire_bounded(m.drop_first())) by {
            assert(forall|k: int|
                0 <= k < m.drop_first().len() ==> m.drop_first()[k] == m[k + 1]);
        }
        lemma_dec_pairs(b, i + fl + sl, m.drop_first());
        assert(seq![(f, v)] + m.drop_first() =~= m);
    }
}

/// The round trip: decoding what the encoder wrote gives the record back.
pub proof fn lemma_record_roundtrip(m: Seq<(SpecField, Seq<char>)>)
    requires
        unique_keys(m),
        wire_bounded(m),
    ensures
        spec_decode_record(spec_encode_record(m)) == Some(m),
{
    vstd::bytes::lemma_auto_spec_u64_to_from_le_bytes();
    let b = spec_encode_record(m);
    assert(b.subrange(0, 8) =~= enc_u64(m.len() as u64));
    let n = spec_u64_from_le_bytes(b.subrange(0, 8));
    assert(n == m.len() as u64);
    assert(b.subrange(8, 8 + enc_pairs(m).len() as int) =~= enc_pairs(m));
    lemma_dec_pairs(b, 8, m);
}

// ------------------------------------------------------------- exec codec

fn codec_err() -> (r: Error)
    ensures
        r is CodecError,
{
    Error::CodecError { message: String::from_str("stored bytes do not decode") }
}

fn push_u64(out: &mut Vec<u8>, x: u64)
    ensures
        final(out)@ == old(out)@ + enc_u64(x),
{
    let mut b = u64_to_le_bytes(x);
    out.append(&mut b);
}

fn push_u32(out: &mut Vec<u8>, x: u32)
    ensures
        final(out)@ == old(out)@ + spec_u32_to_le_bytes(x),
{
    let mut b = u32_to_le_bytes(x);
    out.append(&mut b);
}

/// Appends a string's wire form: its character count, then each scalar.
fn push_str_bytes(out: &mut Vec<u8>, s: &String)
    ensures
        final(out)@ == old(out)@ + enc_str(s@),
{
    let n = s.as_str().unicode_len();
    push_u64(out, n as u64);
    let mut i: usize = 0;
    while i < n
        invariant
            n == s@.len(),
            i <= n,
            out@ == old(out)@ + enc_u64(n as u64) + enc_chars(s@.subrange(0, i as int)),
        decreases n - i,
    {
        let c = s.as_str().get_char(i);
        push_u32(out, c as u32);
        proof {
            lemma_enc_chars_push(s@.subrange(0, i as int), s@[i as int]);
            assert(s@.subrange(0, i + 1) =~= s@.subrange(0, i as int).push(s@[i as int]));
            assert(out@ =~= old(out)@ + enc_u64(n as u64) + enc_chars(s@.subrange(0, i + 1)));
        }
        i += 1;
    }
    assert(s@.subrange(0, n as int) =~= s@);
    assert(final(out)@ =~= old(out)@ + enc_str(s@));
}

fn field_tag_exec(f: &FieldType) -> (r: u8)
    ensures
        r == field_tag(f@),
{
    match f {
        FieldType::Timestamp => 0,
        FieldType::WorkedCall => 1,
        FieldType::Frequency => 2,
        FieldType::Mode => 3,
        FieldType::SentRST => 4,
        FieldType::RcvdRST => 5,
        FieldType::GridSquare => 6,
        FieldType::PrimaryAdminSubdiv => 7,
        FieldType::SentSerial => 8,
        FieldType::RcvdSerial => 9,
        FieldType::DXCC => 10,
        FieldType::CQZ => 11,
        FieldType::ITUZ => 12,
        FieldType::POTARef => 13,
        FieldType::Comment => 14,
        FieldType::Name => 15,
        FieldType::QTH => 16,
        FieldType::Other(_) => 17,
    }
}

/// Encodes a record into its stored bytes.
pub fn encode_record(rec: &LogRecord) -> (r: Vec<u8>)
    ensures
        r@ == spec_encode_record(rec@),
{
    let v = rec.fields();
    let mut out: Vec<u8> = Vec::new();
    let n = v.len();
    push_u64(&mut out, n as u64);
    let mut i: usize = 0;
    while i < n
        invariant
            n == v@.len(),
            pairs_model(v@) == rec@,
            i <= n,
            out@ == enc_u64(n as u64) + enc_pairs(pairs_model(v@).subrange(0, i as int)),
        decreases n - i,
    {
        let ghost done = pairs_model(v@).subrange(0, i as int);
        match &v[i].0 {
            FieldType::Other(name) => {
                out.push(17u8);
                push_str_bytes(&mut out, name);
            },
            _ => {
                let t = field_tag_exec(&v[i].0);
                out.push(t);
            },
        }
        push_str_bytes(&mut out, &v[i].1);
        proof {
            let p = pairs_model(v@)[i as int];
            lemma_enc_pairs_push(done, p);
            assert(pairs_model(v@).subrange(0, i + 1) =~= done.push(p));
            assert(out@ =~= enc_u64(n as u64) + enc_pairs(pairs_model(v@).subrange(0, i + 1)));
        }
        i += 1;
    }
    proof {
        assert(pairs_model(v@).subrange(0, n as int) =~= pairs_model(v@));
        assert(rec@.len() == n);
    }
    out
}

/// Encodes a header into its stored bytes.
pub fn encode_header(h: &LogHeader) -> (r: Vec<u8>)
    ensures
        r@ == spec_encode_header(h@),
{
    let mut out: Vec<u8> = Vec::new();
    push_str_bytes(&mut out, h.version());
    push_str_bytes(&mut out, h.op_call());
    push_str_bytes(&mut out, h.comment());
    assert(out@ =~= spec_encode_header(h@));
    out
}

/// Relies on `char::from_u32`: `Some` exactly for Unicode scalar values,
/// giving the character with that value.
#[verifier::external_body]
fn char_from_u32(x: u32) -> (r: Option<char>)
    ensures
        r matches Some(c) ==> c as u32 == x,
        r is Some <==> is_scalar(x),
{
    char::from_u32(x)
}

fn read_u64(b: &Vec<u8>, i: usize) -> (r: Result<(u64, usize), Error>)
    requires
        i <= b@.len(),
    ensures
        match dec_u64(b@, i as int) {
            Some((x, j)) => r matches Ok(p) && p.0 == x && p.1 == j,
            None => r matches Err(e) && e is CodecError,
        },
{
    if b.len() - i < 8 {
        return Err(codec_err());
    }
    let sl = slice_subrange(b.as_slice(), i, i + 8);
    let x = u64_from_le_bytes(sl);
    Ok((x, i + 8))
}

/// Reads one wire string at `i`.
fn read_str(b: &Vec<u8>, i: usize) -> (r: Result<(String, usize), Error>)
    requires
        i <= b@.len(),
    ensures
        match dec_str(b@, i as int) {
            Some((s, j)) => r matches Ok(p) && p.0@ == s && p.1 == j,
            None => r matches Err(e) && e is CodecError,
        },
{
    let (n, j) = match read_u64(b, i) {
        Ok(p) => p,
        Err(e) => {
            return Err(e);
        },
    };
    let remaining = b.len() - j;
    if n > (remaining / 4) as u64 {
        proof {
            assert(4 * ((remaining as int) / 4) <= remaining as int);
            assert(n as int >= (remaining as int) / 4 + 1);
            assert(4 * (n as int) > remaining as int);
            assert(j as int + 4 * (n as int) > b@.len());
            lemma_dec_chars_short(b@, j as int, n as int);
            assert(dec_str(b@, i as int) is None);
        }
        return Err(codec_err());
    }
    let count = n as usize;
    let mut out = String::new();
    let mut cur: usize = j;
    let mut k: usize = 0;
    while k < count
        invariant
            b@.len() <= usize::MAX,
            j + 4 * count <= b@.len(),
            k <= count,
            cur == j + 4 * k,
            out@.len() == k,
            dec_u64(b@, i as int) == Some((n, j as int)),
            count == n,
            dec_chars(b@, j as int, count as int) == (match dec_chars(
                b@,
                cur as int,
                (count - k) as int,
            ) {
                Some((s2, e)) => Some((out@ + s2, e)),
                None => None::<(Seq<char>, int)>,
            }),
        decreases count - k,
    {
        let sl = slice_subrange(b.as_slice(), cur, cur + 4);
        let u = u32_from_le_bytes(sl);
        match char_from_u32(u) {
            Some(c) => {
                proof {
                    vstd::utf8::char_u32_cast(c, u);
                    assert(dec_char(b@, cur as int) == Some((c, cur as int + 4)));
                }
                let ghost prev = out@;
                push_char(&mut out, c);
                proof {
                    let rest = dec_chars(b@, cur as int + 4, (count - k - 1) as int);
                    if rest is Some {
                        assert(prev + (seq![c] + rest->Some_0.0) =~= out@ + rest->Some_0.0);
                    }
                }
                cur += 4;
                k += 1;
            },
            None => {
                proof {
                    assert(dec_char(b@, cur as int) is None);
                    assert(dec_chars(b@, cur as int, (count - k) as int) is None);
                    assert(dec_chars(b@, j as int, count as int) is None);
                    assert(dec_str(b@, i as int) is None);
                }
                return Err(codec_err());
            },
        }
    }
    proof {
        assert(dec_chars(b@, cur as int, 0) == Some((Seq::<char>::empty(), cur as int)));
        assert(out@ + Seq::<char>::empty() =~= out@);
    }
    Ok((out, cur))
}

fn tag_field_exec(t: u8) -> (r: FieldType)
    requires
        t <= 16,
    ensures
        r@ == tag_field(t),
{
    if t == 0 { FieldType::Timestamp } else if t == 1 { FieldType::WorkedCall }
    else if t == 2 { FieldType::Frequency } else if t == 3 { FieldType::Mode }
    else if t == 4 { FieldType::SentRST } else if t == 5 { FieldType::RcvdRST }
    else if t == 6 { FieldType::GridSquare } else if t == 7 { FieldType::PrimaryAdminSubdiv }
    else if t == 8 { FieldType::SentSerial } else if t == 9 { FieldType::RcvdSerial }
    else if t == 10 { FieldType::DXCC } else if t == 11 { FieldType::CQZ }
    else if t == 12 { FieldType::ITUZ } else if t == 13 { FieldType::POTARef }
    else if t == 14 { FieldType::Comment } else if t == 15 { FieldType::Name }
    else { FieldType::QTH }
}

/// Reads one field name at `i`.
fn read_field(b: &Vec<u8>, i: usize) -> (r: Result<(FieldType, usize), Error>)
    requires
        i <= b@.len(),
    ensures
        match dec_field(b@, i as int) {
            Some((f, j)) => r matches Ok(p) && p.0@ == f && p.1 == j,
            None => r matches Err(e) && e is CodecError,
        },
{
    if i == b.len() {
        return Err(codec_err());
    }
    let t = b[i];
    if t == 17 {
        match read_str(b, i + 1) {
            Ok((s, j)) => Ok((FieldType::Other(s), j)),
            Err(e) => Err(e),
        }
    } else if t <= 16 {
        Ok((tag_field_exec(t), i + 1))
    } else {
        Err(codec_err())
    }
}

/// Decodes stored bytes back into a record; rejects trailing bytes and
/// duplicate field keys.
pub fn decode_record(b: &Vec<u8>) -> (r: Result<LogRecord, Error>)
    ensures
        match spec_decode_record(b@) {
            Some(m) => r matches Ok(rec) && rec@ == m && rec.wf(),
            None => r matches Err(e) && e is CodecError,
        },
{
    let (n, start) = match read_u64(b, 0) {
        Ok(p) => p,
        Err(e) => {
            return Err(e);
        },
    };
    let mut acc: Vec<(FieldType, String)> = Vec::new();
    let mut cur: usize = start;
    let mut k: u64 = 0;
    while k < n
        invariant
            cur <= b@.len(),
            k <= n,
            dec_u64(b@, 0) == Some((n, start as int)),
            match dec_pairs(b@, cur as int, (n - k) as int) {
                Some((m2, e)) => dec_pairs(b@, start as int, n as int) == Some(
                    (pairs_model(acc@) + m2, e),
                ),
                None => dec_pairs(b@, start as int, n as int) is None,
            },
        decreases n - k,
    {
        let (f, j1) = match read_field(b, cur) {
            Ok(p) => p,
            Err(e) => {
                assert(dec_pairs(b@, cur as int, (n - k) as int) is None);
                return Err(e);
            },
        };
        proof {
            lemma_dec_field_bounds(b@, cur as int);
        }
        let (v, j2) = match read_str(b, j1) {
            Ok(p) => p,
            Err(e) => {
                assert(dec_pairs(b@, cur as int, (n - k) as int) is None);
                return Err(e);
            },
        };
        let ghost prev = pairs_model(acc@);
        acc.push((f, v));
        proof {
            assert(pairs_model(acc@) =~= prev.push((f@, v@)));
            let rest = dec_pairs(b@, j2 as int, (n - k - 1) as int);
            if rest is Some {
                assert(prev + (seq![(f@, v@)] + rest->Some_0.0) =~= pairs_model(acc@)
                    + rest->Some_0.0);
            }
            assert(j2 <= b@.len()) by {
                lemma_dec_str_bounds(b@, j1 as int);
            }
        }
        cur = j2;
        k = k + 1;
    }
    proof {
        assert(dec_pairs(b@, cur as int, 0) == Some(
            (Seq::<(SpecField, Seq<char>)>::empty(), cur as int),
        ));
        assert(pairs_model(acc@) + Seq::<(SpecField, Seq<char>)>::empty() =~= pairs_model(acc@));
    }
    if cur != b.len() {
        return Err(codec_err());
    }
    // unique field keys
    let len = acc.len();
    let mut a: usize = 0;
    while a < len
        invariant
            len == acc@.len(),
            a <= len,
            dec_u64(b@, 0) == Some((n, start as int)),
            dec_pairs(b@, start as int, n as int) == Some((pairs_model(acc@), b@.len() as int)),
            forall|x: int, y: int|
                0 <= x < y < len && x < a ==> (#[trigger] pairs_model(acc@)[x]).0 != (
                #[trigger] pairs_model(acc@)[y]).0,
        decreases len - a,
    {
        let mut y: usize = a + 1;
        while y < len
            invariant
                len == acc@.len(),
                a < y || y == a + 1,
                a + 1 <= y <= len,
                a < len,
                dec_u64(b@, 0) == Some((n, start as int)),
                dec_pairs(b@, start as int, n as int) == Some(
                    (pairs_model(acc@), b@.len() as int),
                ),
                forall|x: int, yy: int|
                    0 <= x < yy < len && x < a ==> (#[trigger] pairs_model(acc@)[x]).0 != (
                    #[trigger] pairs_model(acc@)[yy]).0,
                forall|yy: int|
                    a < yy < y ==> (#[trigger] pairs_model(acc@)[yy]).0 != pairs_model(
                        acc@,
                    )[a as int].0,
            decreases len - y,
        {
            if acc[a].0 == acc[y].0 {
                assert((pairs_model(acc@)[a as int]).0 == (pairs_model(acc@)[y as int]).0);
                assert(!unique_keys(pairs_model(acc@)));
                return Err(codec_err());
            }
            y += 1;
        }
        a += 1;
    }
    assert(unique_keys(pairs_model(acc@)));
    Ok(LogRecord::from_fields(acc))
}

/// A decoded field ends within the buffer.
proof fn lemma_dec_field_bounds(b: Seq<u8>, i: int)
    ensures
        dec_field(b, i) matches Some((f, j)) ==> i < j <= b.len(),
{
    if dec_field(b, i) is Some {
        lemma_dec_str_bounds(b, i + 1);
    }
}

/// A decoded string ends within the buffer.
proof fn lemma_dec_str_bounds(b: Seq<u8>, i: int)
    ensures
        dec_str(b, i) matches Some((s, j)) ==> i < j <= b.len(),
{
    if dec_str(b, i) is Some {
        let n = dec_u64(b, i)->Some_0.0;
        lemma_dec_chars_bounds(b, i + 8, n as int);
    }
}

/// Decoded characters end within the buffer.
proof fn lemma_dec_chars_bounds(b: Seq<u8>, i: int, n: int)
    ensures
        dec_chars(b, i, n) matches Some((s, j)) ==> i <= j <= b.len() || n <= 0 && j == i,
    decreases n,
{
    if n > 0 {
        if dec_char(b, i) is Some {
            lemma_dec_chars_bounds(b, i + 4, n - 1);
        }
    }
}

/// Decodes stored bytes back into a header.
pub fn decode_header(b: &Vec<u8>) -> (r: Result<LogHeader, Error>)
    ensures
        match spec_decode_header(b@) {
            Some(h) => r matches Ok(hd) && hd@ == h,
            None => r matches Err(e) && e is CodecError,
        },
{
    let (version, i) = match read_str(b, 0) {
        Ok(p) => p,
        Err(e) => {
            return Err(e);
        },
    };
    proof {
        lemma_dec_str_bounds(b@, 0);
    }
    let (op_call, j) = match read_str(b, i) {
        Ok(p) => p,
        Err(e) => {
            return Err(e);
        },
    };
    proof {
        lemma_dec_str_bounds(b@, i as int);
    }
    let (comment, k) = match read_str(b, j) {
        Ok(p) => p,
        Err(e) => {
            return Err(e);
        },
    };
    if k != b.len() {
        return Err(codec_err());
    }
    Ok(LogHeader::from_parts(version, op_call, comment))
}

/// The round trip for headers.
pub proof fn lemma_header_roundtrip(h: SpecHeader)
    requires
        h.version.len() <= u64::MAX,
        h.op_call.len() <= u64::MAX,
        h.comment.len() <= u64::MAX,
    ensures
        spec_decode_header(spec_encode_header(h)) == Some(h),
{
    let b = spec_encode_header(h);
    let l1 = enc_str(h.version).len() as int;
    let l2 = enc_str(h.op_call).len() as int;
    let l3 = enc_str(h.comment).len() as int;
    assert(b.subrange(0, l1) =~= enc_str(h.version));
    lemma_dec_str(b, 0, h.version);
    assert(b.subrange(l1, l1 + l2) =~= enc_str(h.op_call));
    lemma_dec_str(b, l1, h.op_call);
    assert(b.subrange(l1 + l2, l1 + l2 + l3) =~= enc_str(h.comment));
    lemma_dec_str(b, l1 + l2, h.comment);
}

} // verus!
