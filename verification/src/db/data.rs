//! The typed log model: normalized field names, ordered records with unique
//! keys, the written-once header, and the storage engine over the embedded
//! ordered byte store.
use vstd::prelude::*;
use vstd::bytes::{spec_u64_from_le_bytes, u64_from_le_bytes, u64_to_le_bytes};
use vstd::slice::slice_subrange;
use vstd::string::*;
use crate::db::codec::{
    decode_header, decode_record, enc_u64, encode_header, encode_record, spec_decode_header,
    spec_decode_record, spec_encode_header, spec_encode_record,
};
use crate::db::store::{
    db_get, db_insert, db_is_empty, db_view, header_key, header_key_vec, index_key,
    index_key_vec, info_key, info_key_vec, magic_key, magic_key_vec, magic_vec, spec_info,
    spec_magic,
};
use crate::db::time::{render_timestamp, spec_timestamp_chars, UtcTimestamp};
use crate::text::{push_char, spec_upper_u8, str_eq, upper_u8};
use crate::util::Error;

verus! {

/// A fatal storage or import failure, flattened to one message and the value
/// that caused it, for callers that only display errors.
#[derive(Debug, Clone, PartialEq)]
pub struct LogError {
    pub message: String,
    pub offender: String,
}

impl Error {
    /// Flattens the error into one message and the offending value, the
    /// shape callers that only display errors work with.
    pub fn to_log_error(&self) -> (r: LogError)
        ensures
            match self {
                Error::ADIFSerializeError { message, offender } => r.message@ == message@
                    && r.offender@ == offender@,
                Error::FieldParseError { field_name, field_value, err } => r.message@
                    == field_name@ + ": "@ + err@ && r.offender@ == field_value@,
                Error::DatabaseGetError(key) => r.message@ == "key does not exist in database"@
                    && r.offender@ == key@,
                Error::ParseError { message } => r.message@ == message@ && r.offender@.len()
                    == 0,
                Error::StoreContractError { message, offender } => r.message@ == message@
                    && r.offender@ == offender@,
                Error::CodecError { message } => r.message@ == message@ && r.offender@.len()
                    == 0,
                Error::StoreIoError { message } => r.message@ == message@ && r.offender@.len()
                    == 0,
            },
    {
        match self {
            Error::ADIFSerializeError { message, offender } => LogError {
                message: message.clone(),
                offender: offender.clone(),
            },
            Error::FieldParseError { field_name, field_value, err } => {
                let mut m = field_name.clone();
                m.append(": ");
                m.append(err.as_str());
                LogError { message: m, offender: field_value.clone() }
            },
            Error::DatabaseGetError(key) => LogError {
                message: String::from_str("key does not exist in database"),
                offender: key.clone(),
            },
            Error::ParseError { message } => LogError {
                message: message.clone(),
                offender: String::new(),
            },
            Error::StoreContractError { message, offender } => LogError {
                message: message.clone(),
                offender: offender.clone(),
            },
            Error::CodecError { message } => LogError {
                message: message.clone(),
                offender: String::new(),
            },
            Error::StoreIoError { message } => LogError {
                message: message.clone(),
                offender: String::new(),
            },
        }
    }
}

/// The abstract name of a normalized field.
pub enum SpecField {
    Timestamp,
    WorkedCall,
    Frequency,
    Mode,
    SentRST,
    RcvdRST,
    GridSquare,
    PrimaryAdminSubdiv,
    SentSerial,
    RcvdSerial,
    DXCC,
    CQZ,
    ITUZ,
    POTARef,
    Comment,
    Name,
    QTH,
    Other(Seq<char>),
}

/// A normalized field name: the closed set of categories the importer knows,
/// plus `Other` carrying an unrecognized name verbatim.
#[non_exhaustive]
#[derive(Debug, Clone, Eq, Hash)]
pub enum FieldType {
    Timestamp,
    WorkedCall,
    Frequency,
    Mode,
    SentRST,
    RcvdRST,
    GridSquare,
    PrimaryAdminSubdiv,
    SentSerial,
    RcvdSerial,
    DXCC,
    CQZ,
    ITUZ,
    POTARef,
    Comment,
    Name,
    QTH,
    Other(String),
}

impl View for FieldType {
    type V = SpecField;

    open spec fn view(&self) -> SpecField {
        match self {
            FieldType::Timestamp => SpecField::Timestamp,
            FieldType::WorkedCall => SpecField::WorkedCall,
            FieldType::Frequency => SpecField::Frequency,
            FieldType::Mode => SpecField::Mode,
            FieldType::SentRST => SpecField::SentRST,
            FieldType::RcvdRST => SpecField::RcvdRST,
            FieldType::GridSquare => SpecField::GridSquare,
            FieldType::PrimaryAdminSubdiv => SpecField::PrimaryAdminSubdiv,
            FieldType::SentSerial => SpecField::SentSerial,
            FieldType::RcvdSerial => SpecField::RcvdSerial,
            FieldType::DXCC => SpecField::DXCC,
            FieldType::CQZ => SpecField::CQZ,
            FieldType::ITUZ => SpecField::ITUZ,
            FieldType::POTARef => SpecField::POTARef,
            FieldType::Comment => SpecField::Comment,
            FieldType::Name => SpecField::Name,
            FieldType::QTH => SpecField::QTH,
            FieldType::Other(s) => SpecField::Other(s@),
        }
    }
}

impl PartialEq for FieldType {
    fn eq(&self, other: &FieldType) -> (r: bool) {
        match (self, other) {
            (FieldType::Timestamp, FieldType::Timestamp) => true,
            (FieldType::WorkedCall, FieldType::WorkedCall) => true,
            (FieldType::Frequency, FieldType::Frequency) => true,
            (FieldType::Mode, FieldType::Mode) => true,
            (FieldType::SentRST, FieldType::SentRST) => true,
            (FieldType::RcvdRST, FieldType::RcvdRST) => true,
            (FieldType::GridSquare, FieldType::GridSquare) => true,
            (FieldType::PrimaryAdminSubdiv, FieldType::PrimaryAdminSubdiv) => true,
            (FieldType::SentSerial, FieldType::SentSerial) => true,
            (FieldType::RcvdSerial, FieldType::RcvdSerial) => true,
            (FieldType::DXCC, FieldType::DXCC) => true,
            (FieldType::CQZ, FieldType::CQZ) => true,
            (FieldType::ITUZ, FieldType::ITUZ) => true,
            (FieldType::POTARef, FieldType::POTARef) => true,
            (FieldType::Comment, FieldType::Comment) => true,
            (FieldType::Name, FieldType::Name) => true,
            (FieldType::QTH, FieldType::QTH) => true,
            (FieldType::Other(a), FieldType::Other(b)) => str_eq(a.as_str(), b.as_str()),
            _ => false,
        }
    }
}

impl vstd::std_specs::cmp::PartialEqSpecImpl for FieldType {
    open spec fn obeys_eq_spec() -> bool {
        true
    }

    open spec fn eq_spec(&self, other: &FieldType) -> bool {
        self@ == other@
    }
}

/// The fixed name table of the interchange format, falling back to `Other`
/// with the name kept verbatim.
pub open spec fn spec_from_field(s: Seq<char>) -> SpecField {
    if s == "CALL"@ {
        SpecField::WorkedCall
    } else if s == "FREQ"@ {
        SpecField::Frequency
    } else if s == "MODE"@ {
        SpecField::Mode
    } else if s == "RST_SENT"@ {
        SpecField::SentRST
    } else if s == "RST_RCVD"@ {
        SpecField::RcvdRST
    } else if s == "GRIDSQUARE"@ {
        SpecField::GridSquare
    } else if s == "STATE"@ {
        SpecField::PrimaryAdminSubdiv
    } else if s == "STX"@ {
        SpecField::SentSerial
    } else if s == "SRX"@ {
        SpecField::RcvdSerial
    } else if s == "DXCC"@ {
        SpecField::DXCC
    } else if s == "CQZ"@ {
        SpecField::CQZ
    } else if s == "ITUZ"@ {
        SpecField::ITUZ
    } else if s == "POTA_REF"@ {
        SpecField::POTARef
    } else if s == "COMMENT"@ {
        SpecField::Comment
    } else if s == "NAME"@ {
        SpecField::Name
    } else if s == "QTH"@ {
        SpecField::QTH
    } else {
        SpecField::Other(s)
    }
}

impl FieldType {
    /// Maps an interchange field name to its normalized field.
    pub fn from_adif_field(field_name: &str) -> (r: FieldType)
        ensures
            r@ == spec_from_field(field_name@),
    {
        if str_eq(field_name, "CALL") {
            FieldType::WorkedCall
        } else if str_eq(field_name, "FREQ") {
            FieldType::Frequency
        } else if str_eq(field_name, "MODE") {
            FieldType::Mode
        } else if str_eq(field_name, "RST_SENT") {
            FieldType::SentRST
        } else if str_eq(field_name, "RST_RCVD") {
            FieldType::RcvdRST
        } else if str_eq(field_name, "GRIDSQUARE") {
            FieldType::GridSquare
        } else if str_eq(field_name, "STATE") {
            FieldType::PrimaryAdminSubdiv
        } else if str_eq(field_name, "STX") {
            FieldType::SentSerial
        } else if str_eq(field_name, "SRX") {
            FieldType::RcvdSerial
        } else if str_eq(field_name, "DXCC") {
            FieldType::DXCC
        } else if str_eq(field_name, "CQZ") {
            FieldType::CQZ
        } else if str_eq(field_name, "ITUZ") {
            FieldType::ITUZ
        } else if str_eq(field_name, "POTA_REF") {
            FieldType::POTARef
        } else if str_eq(field_name, "COMMENT") {
            FieldType::Comment
        } else if str_eq(field_name, "NAME") {
            FieldType::Name
        } else if str_eq(field_name, "QTH") {
            FieldType::QTH
        } else {
            FieldType::Other(String::from_str(field_name))
        }
    }
}

/// The abstract content of an ordered field list.
pub open spec fn pairs_model(v: Seq<(FieldType, String)>) -> Seq<(SpecField, Seq<char>)> {
    v.map_values(|p: (FieldType, String)| (p.0@, p.1@))
}

/// Unique keys: no field name occurs twice.
pub open spec fn unique_keys(m: Seq<(SpecField, Seq<char>)>) -> bool {
    forall|i: int, j: int| 0 <= i < j < m.len() ==> (#[trigger] m[i]).0 != (#[trigger] m[j]).0
}

/// The value under the first (and, with unique keys, only) occurrence of a
/// key.
pub open spec fn spec_get(m: Seq<(SpecField, Seq<char>)>, k: SpecField) -> Option<Seq<char>>
    decreases m.len(),
{
    if m.len() == 0 {
        None
    } else if m[0].0 == k {
        Some(m[0].1)
    } else {
        spec_get(m.drop_first(), k)
    }
}

/// Insertion with overwrite in place: a present key keeps its position, a
/// fresh key goes to the end.
pub open spec fn spec_insert(
    m: Seq<(SpecField, Seq<char>)>,
    k: SpecField,
    v: Seq<char>,
) -> Seq<(SpecField, Seq<char>)>
    decreases m.len(),
{
    if m.len() == 0 {
        seq![(k, v)]
    } else if m[0].0 == k {
        seq![(k, v)] + m.drop_first()
    } else {
        seq![m[0]] + spec_insert(m.drop_first(), k, v)
    }
}

/// When the key sits at position `at` and nowhere earlier, insertion is an
/// in-place update.
proof fn lemma_insert_found(m: Seq<(SpecField, Seq<char>)>, k: SpecField, v: Seq<char>, at: int)
    requires
        0 <= at < m.len(),
        m[at].0 == k,
        forall|l: int| 0 <= l < at ==> (#[trigger] m[l]).0 != k,
    ensures
        spec_insert(m, k, v) == m.update(at, (k, v)),
    decreases at,
{
    if at == 0 {
        assert(spec_insert(m, k, v) =~= m.update(0, (k, v)));
    } else {
        lemma_insert_found(m.drop_first(), k, v, at - 1);
        assert(m.drop_first().update(at - 1, (k, v)) =~= m.update(at, (k, v)).drop_first());
        assert(spec_insert(m, k, v) =~= m.update(at, (k, v)));
    }
}

/// When the key is absent, insertion appends.
proof fn lemma_insert_absent(m: Seq<(SpecField, Seq<char>)>, k: SpecField, v: Seq<char>)
    requires
        forall|l: int| 0 <= l < m.len() ==> (#[trigger] m[l]).0 != k,
    ensures
        spec_insert(m, k, v) == m.push((k, v)),
    decreases m.len(),
{
    if m.len() == 0 {
        assert(spec_insert(m, k, v) =~= m.push((k, v)));
    } else {
        lemma_insert_absent(m.drop_first(), k, v);
        assert(spec_insert(m, k, v) =~= m.push((k, v)));
    }
}

/// Looking a key up finds its first occurrence.
proof fn lemma_get_found(m: Seq<(SpecField, Seq<char>)>, k: SpecField, at: int)
    requires
        0 <= at < m.len(),
        m[at].0 == k,
        forall|l: int| 0 <= l < at ==> (#[trigger] m[l]).0 != k,
    ensures
        spec_get(m, k) == Some(m[at].1),
    decreases at,
{
    if at > 0 {
        lemma_get_found(m.drop_first(), k, at - 1);
    }
}

proof fn lemma_get_absent(m: Seq<(SpecField, Seq<char>)>, k: SpecField)
    requires
        forall|l: int| 0 <= l < m.len() ==> (#[trigger] m[l]).0 != k,
    ensures
        spec_get(m, k) is None,
    decreases m.len(),
{
    if m.len() > 0 {
        lemma_get_absent(m.drop_first(), k);
    }
}

/// An ordered mapping from normalized field to text value: insertion order
/// preserved, keys unique, re-insertion overwriting in place.
#[derive(Debug)]
pub struct LogRecord {
    fields: Vec<(FieldType, String)>,
}

impl View for LogRecord {
    type V = Seq<(SpecField, Seq<char>)>;

    closed spec fn view(&self) -> Seq<(SpecField, Seq<char>)> {
        pairs_model(self.fields@)
    }
}

impl LogRecord {
    /// The record's invariant: no field occurs twice.
    pub open spec fn wf(self) -> bool {
        unique_keys(self@)
    }

    /// A fresh, empty record.
    pub fn new() -> (r: LogRecord)
        ensures
            r@ == Seq::<(SpecField, Seq<char>)>::empty(),
            r.wf(),
    {
        let r = LogRecord { fields: Vec::new() };
        proof {
            assert(r@ =~= Seq::<(SpecField, Seq<char>)>::empty());
        }
        r
    }

    /// Inserts a field; a field already present keeps its position and takes
    /// the new value.
    pub fn insert_field(&mut self, ty: FieldType, val: &str)
        requires
            old(self).wf(),
        ensures
            final(self)@ == spec_insert(old(self)@, ty@, val@),
            final(self).wf(),
    {
        let ghost m = self@;
        let n = self.fields.len();
        let mut i: usize = 0;
        while i < n
            invariant
                n == self.fields@.len(),
                i <= n,
                m == self@,
                m == old(self)@,
                self.wf(),
                forall|l: int| 0 <= l < i ==> (#[trigger] m[l]).0 != ty@,
            decreases n - i,
        {
            if self.fields[i].0 == ty {
                assert(m[i as int].0 == ty@);
                self.fields.set(i, (ty, String::from_str(val)));
                proof {
                    lemma_insert_found(m, ty@, val@, i as int);
                    assert(self@ =~= m.update(i as int, (ty@, val@)));
                    assert forall|a: int, b: int|
                        0 <= a < b < self@.len() implies (#[trigger] self@[a]).0 != (
                    #[trigger] self@[b]).0 by {
                        if a != i && b != i {
                            assert(m[a].0 != m[b].0);
                        } else if a == i {
                            assert(m[a].0 == self@[a].0 && m[b] == self@[b]);
                        } else {
                            assert(m[b].0 == self@[b].0 && m[a] == self@[a]);
                        }
                    }
                }
                return ;
            }
            i += 1;
        }
        self.fields.push((ty, String::from_str(val)));
        proof {
            lemma_insert_absent(m, ty@, val@);
            assert(self@ =~= m.push((ty@, val@)));
            assert forall|a: int, b: int|
                0 <= a < b < self@.len() implies (#[trigger] self@[a]).0 != (
            #[trigger] self@[b]).0 by {
                if b < m.len() {
                    assert(m[a].0 != m[b].0);
                } else {
                    assert(self@[b].0 == ty@ && m[a] == self@[a]);
                }
            }
        }
    }

    /// Inserts the rendered UTC timestamp under the `Timestamp` field.
    pub fn insert_timestamp(&mut self, ts: UtcTimestamp)
        requires
            old(self).wf(),
        ensures
            final(self)@ == spec_insert(
                old(self)@,
                SpecField::Timestamp,
                spec_timestamp_chars(ts),
            ),
            final(self).wf(),
    {
        let rendered = render_timestamp(&ts);
        self.insert_field(FieldType::Timestamp, rendered.as_str());
    }

    /// The value stored under a field, if any.
    pub fn get_field(&self, ty: &FieldType) -> (r: Option<String>)
        ensures
            match spec_get(self@, ty@) {
                Some(v) => r matches Some(s) && s@ == v,
                None => r is None,
            },
    {
        let ghost m = self@;
        let n = self.fields.len();
        let mut i: usize = 0;
        while i < n
            invariant
                n == self.fields@.len(),
                i <= n,
                m == self@,
                forall|l: int| 0 <= l < i ==> (#[trigger] m[l]).0 != ty@,
            decreases n - i,
        {
            if self.fields[i].0 == *ty {
                proof {
                    lemma_get_found(m, ty@, i as int);
                }
                return Some(self.fields[i].1.clone());
            }
            i += 1;
        }
        proof {
            lemma_get_absent(m, ty@);
        }
        None
    }

    /// The fields in insertion order.
    pub fn fields(&self) -> (r: &Vec<(FieldType, String)>)
        ensures
            pairs_model(r@) == self@,
    {
        &self.fields
    }

    /// Wraps an already-unique field list.
    pub(crate) fn from_fields(fields: Vec<(FieldType, String)>) -> (r: LogRecord)
        requires
            unique_keys(pairs_model(fields@)),
        ensures
            r@ == pairs_model(fields@),
            r.wf(),
    {
        LogRecord { fields }
    }
}

/// The written-once store header: schema version, operator call sign, free
/// comment.
#[derive(Debug)]
pub struct LogHeader {
    version: String,
    op_call: String,
    comment: String,
}

/// The abstract content of a header.
pub struct SpecHeader {
    pub version: Seq<char>,
    pub op_call: Seq<char>,
    pub comment: Seq<char>,
}

impl View for LogHeader {
    type V = SpecHeader;

    closed spec fn view(&self) -> SpecHeader {
        SpecHeader { version: self.version@, op_call: self.op_call@, comment: self.comment@ }
    }
}

impl LogHeader {
    /// A header stamped with this crate's schema version.
    pub fn new(op_call: &str, comment: &str) -> (r: LogHeader)
        ensures
            r@.version == "0.1.0"@,
            r@.op_call == op_call@,
            r@.comment == comment@,
    {
        LogHeader {
            version: String::from_str("0.1.0"),
            op_call: String::from_str(op_call),
            comment: String::from_str(comment),
        }
    }

    /// The operator call sign the header was created with.
    pub fn op_call(&self) -> (r: &String)
        ensures
            r@ == self@.op_call,
    {
        &self.op_call
    }

    /// The schema version the header was created with.
    pub fn version(&self) -> (r: &String)
        ensures
            r@ == self@.version,
    {
        &self.version
    }

    /// The free-text comment the header was created with.
    pub fn comment(&self) -> (r: &String)
        ensures
            r@ == self@.comment,
    {
        &self.comment
    }

    /// Wraps already-built parts.
    pub(crate) fn from_parts(version: String, op_call: String, comment: String) -> (r: LogHeader)
        ensures
            r@.version == version@,
            r@.op_call == op_call@,
            r@.comment == comment@,
    {
        LogHeader { version, op_call, comment }
    }
}

/// Each byte ASCII upper-cased, as the magic signature is compared.
pub open spec fn upper_bytes(s: Seq<u8>) -> Seq<u8> {
    s.map_values(|b: u8| spec_upper_u8(b))
}

pub open spec fn hex_digit(d: int) -> char {
    if d == 0 { '0' } else if d == 1 { '1' } else if d == 2 { '2' } else if d == 3 { '3' }
    else if d == 4 { '4' } else if d == 5 { '5' } else if d == 6 { '6' } else if d == 7 { '7' }
    else if d == 8 { '8' } else if d == 9 { '9' } else if d == 10 { 'a' } else if d == 11 { 'b' }
    else if d == 12 { 'c' } else if d == 13 { 'd' } else if d == 14 { 'e' } else { 'f' }
}

/// Bytes rendered as lowercase hex, two digits each.
pub open spec fn spec_hex(s: Seq<u8>) -> Seq<char>
    decreases s.len(),
{
    if s.len() == 0 {
        Seq::empty()
    } else {
        seq![hex_digit(s[0] as int / 16), hex_digit(s[0] as int % 16)] + spec_hex(s.drop_first())
    }
}

proof fn lemma_hex_push(s: Seq<u8>, b: u8)
    ensures
        spec_hex(s.push(b)) == spec_hex(s) + seq![hex_digit(b as int / 16), hex_digit(b as int % 16)],
    decreases s.len(),
{
    if s.len() == 0 {
        assert(s.push(b).drop_first() =~= s);
        assert(spec_hex(s.push(b)) =~= spec_hex(s) + seq![hex_digit(b as int / 16), hex_digit(b as int % 16)]);
    } else {
        lemma_hex_push(s.drop_first(), b);
        assert(s.push(b).drop_first() =~= s.drop_first().push(b));
        assert(spec_hex(s.push(b)) =~= spec_hex(s) + seq![hex_digit(b as int / 16), hex_digit(b as int % 16)]);
    }
}

fn hex_digit_exec(d: u8) -> (r: char)
    requires
        d < 16,
    ensures
        r == hex_digit(d as int),
{
    if d == 0 { '0' } else if d == 1 { '1' } else if d == 2 { '2' } else if d == 3 { '3' }
    else if d == 4 { '4' } else if d == 5 { '5' } else if d == 6 { '6' } else if d == 7 { '7' }
    else if d == 8 { '8' } else if d == 9 { '9' } else if d == 10 { 'a' } else if d == 11 { 'b' }
    else if d == 12 { 'c' } else if d == 13 { 'd' } else if d == 14 { 'e' } else { 'f' }
}

fn hex_string(v: &Vec<u8>) -> (r: String)
    ensures
        r@ == spec_hex(v@),
{
    let mut out = String::new();
    let n = v.len();
    let mut i: usize = 0;
    while i < n
        invariant
            n == v@.len(),
            i <= n,
            out@ == spec_hex(v@.subrange(0, i as int)),
        decreases n - i,
    {
        let b = v[i];
        let c1 = hex_digit_exec(b / 16);
        push_char(&mut out, c1);
        let c2 = hex_digit_exec(b % 16);
        push_char(&mut out, c2);
        proof {
            lemma_hex_push(v@.subrange(0, i as int), v@[i as int]);
            assert(v@.subrange(0, i + 1) =~= v@.subrange(0, i as int).push(v@[i as int]));
            assert(out@ =~= spec_hex(v@.subrange(0, i + 1)));
        }
        i += 1;
    }
    assert(v@.subrange(0, n as int) =~= v@);
    out
}

fn upper_bytes_exec(v: &Vec<u8>) -> (r: Vec<u8>)
    ensures
        r@ == upper_bytes(v@),
{
    let mut out: Vec<u8> = Vec::new();
    let n = v.len();
    let mut i: usize = 0;
    while i < n
        invariant
            n == v@.len(),
            i <= n,
            out@.len() == i,
            forall|j: int| 0 <= j < i ==> out@[j] == spec_upper_u8(v@[j]),
        decreases n - i,
    {
        let b = upper_u8(v[i]);
        out.push(b);
        i += 1;
    }
    assert(out@ =~= upper_bytes(v@));
    out
}

fn bytes_eq(a: &Vec<u8>, b: &Vec<u8>) -> (r: bool)
    ensures
        r == (a@ == b@),
{
    if a.len() != b.len() {
        assert(a@ != b@);
        return false;
    }
    let n = a.len();
    let mut i: usize = 0;
    while i < n
        invariant
            n == a@.len() == b@.len(),
            i <= n,
            forall|j: int| 0 <= j < i ==> a@[j] == b@[j],
        decreases n - i,
    {
        if a[i] != b[i] {
            assert(a@ != b@);
            return false;
        }
        i += 1;
    }
    assert(a@ =~= b@);
    true
}

/// The magic key is present and its upper-cased value is the signature.
pub open spec fn spec_magic_ok(m: Map<Seq<u8>, Seq<u8>>) -> bool {
    m.contains_key(magic_key()) && upper_bytes(m[magic_key()]) == spec_magic()
}

/// The next-free-slot counter the store holds, if present and well-formed.
pub open spec fn spec_index_of(m: Map<Seq<u8>, Seq<u8>>) -> Option<u64> {
    if m.contains_key(index_key()) && m[index_key()].len() == 8 {
        Some(spec_u64_from_le_bytes(m[index_key()]))
    } else {
        None
    }
}

/// What creation writes into an empty store.
pub open spec fn init_contents(m: Map<Seq<u8>, Seq<u8>>, h: SpecHeader) -> Map<Seq<u8>, Seq<u8>> {
    m.insert(magic_key(), spec_magic()).insert(info_key(), spec_info()).insert(
        header_key(),
        spec_encode_header(h),
    ).insert(index_key(), enc_u64(0))
}

/// The storage engine: exclusive owner of the underlying ordered byte
/// store's handle.
#[derive(Debug)]
pub struct Log {
    db: sled::Db,
}

impl Log {
    /// What the store holds, as the engine's contracts speak of it.
    pub closed spec fn contents(self) -> Map<Seq<u8>, Seq<u8>> {
        db_view(self.db)
    }

    /// Wraps an already-initialized store, refusing one whose magic key is
    /// missing or does not match the signature (compared case-insensitively);
    /// a mismatch names the offending value in hex.
    pub fn new(db: sled::Db) -> (r: Result<Log, Error>)
        ensures
            r matches Ok(log) ==> log.contents() == db_view(db) && spec_magic_ok(db_view(db)),
            r matches Err(e) ==> e is StoreIoError || e is StoreContractError,
            (r matches Err(e) && e is StoreContractError) ==> !spec_magic_ok(db_view(db)),
            r matches Err(e) ==> (e matches Error::StoreContractError { offender, .. } ==> (
            db_view(db).contains_key(magic_key()) ==> offender@ == spec_hex(
                db_view(db)[magic_key()],
            ))),
    {
        let key = magic_key_vec();
        match db_get(&db, &key) {
            Err(e) => Err(e),
            Ok(None) => Err(Error::StoreContractError {
                message: String::from_str(
                    "uninitialized store: no magic key; create it instead of opening it",
                ),
                offender: String::from_str(""),
            }),
            Ok(Some(v)) => {
                let upper = upper_bytes_exec(&v);
                let expect = magic_vec();
                if bytes_eq(&upper, &expect) {
                    Ok(Log { db })
                } else {
                    Err(Error::StoreContractError {
                        message: String::from_str("magic key exists and does not match"),
                        offender: hex_string(&v),
                    })
                }
            },
        }
    }

    /// Creates a store: fails on a store that already holds any key, without
    /// touching it; on success writes the magic signature, the informational
    /// string, the encoded header and a zero index counter. (A store whose
    /// emptiness probe faults is refused the same way, so a contract failure
    /// does not by itself prove the store held a key.)
    pub fn new_init(db: sled::Db, header: LogHeader) -> (r: Result<Log, Error>)
        ensures
            !db_view(db).dom().is_empty() ==> (r matches Err(e) && e is StoreContractError),
            r matches Ok(log) ==> db_view(db).dom().is_empty() && log.contents() == init_contents(
                db_view(db),
                header@,
            ),
            r matches Err(e) ==> e is StoreIoError || e is StoreContractError,
    {
        if db_is_empty(&db) {
            let mut db = db;
            let enc_header = encode_header(&header);
            let k1 = magic_key_vec();
            match db_insert(&mut db, &k1, magic_vec()) {
                Ok(_) => (),
                Err(e) => {
                    return Err(e);
                },
            }
            let k2 = info_key_vec();
            match db_insert(&mut db, &k2, crate::db::store::info_vec()) {
                Ok(_) => (),
                Err(e) => {
                    return Err(e);
                },
            }
            let k3 = header_key_vec();
            match db_insert(&mut db, &k3, enc_header) {
                Ok(_) => (),
                Err(e) => {
                    return Err(e);
                },
            }
            let k4 = index_key_vec();
            match db_insert(&mut db, &k4, u64_to_le_bytes(0)) {
                Ok(_) => (),
                Err(e) => {
                    return Err(e);
                },
            }
            Ok(Log { db })
        } else {
            Err(Error::StoreContractError {
                message: String::from_str("a non-empty store cannot be created over"),
                offender: String::from_str(""),
            })
        }
    }

    /// The next-free-slot counter: fails if the key is missing or not eight
    /// bytes.
    pub fn get_idx(&self) -> (r: Result<u64, Error>)
        ensures
            r matches Ok(x) ==> spec_index_of(self.contents()) == Some(x),
            r matches Err(e) ==> e is StoreIoError || e is DatabaseGetError || e is CodecError,
            (r matches Err(e) && e is DatabaseGetError) ==> !self.contents().contains_key(
                index_key(),
            ),
            (r matches Err(e) && e is CodecError) ==> self.contents().contains_key(index_key())
                && self.contents()[index_key()].len() != 8,
    {
        let key = index_key_vec();
        match db_get(&self.db, &key) {
            Err(e) => Err(e),
            Ok(None) => Err(Error::DatabaseGetError(String::from_str("INDEX"))),
            Ok(Some(v)) => {
                if v.len() != 8 {
                    Err(Error::CodecError {
                        message: String::from_str("index counter is not eight bytes"),
                    })
                } else {
                    let x = u64_from_le_bytes(slice_subrange(v.as_slice(), 0, 8));
                    proof {
                        assert(v@.subrange(0, 8) =~= v@);
                    }
                    Ok(x)
                }
            },
        }
    }

    /// The stored header: fails if the key is missing or does not decode.
    pub fn get_header(&self) -> (r: Result<LogHeader, Error>)
        ensures
            r matches Ok(h) ==> self.contents().contains_key(header_key())
                && spec_decode_header(self.contents()[header_key()]) == Some(h@),
            r matches Err(e) ==> e is StoreIoError || e is DatabaseGetError || e is CodecError,
            (r matches Err(e) && e is DatabaseGetError) ==> !self.contents().contains_key(
                header_key(),
            ),
            (r matches Err(e) && e is CodecError) ==> self.contents().contains_key(header_key())
                && spec_decode_header(self.contents()[header_key()]) is None,
    {
        let key = header_key_vec();
        match db_get(&self.db, &key) {
            Err(e) => Err(e),
            Ok(None) => Err(Error::DatabaseGetError(String::from_str("HEADER"))),
            Ok(Some(v)) => decode_header(&v),
        }
    }

    /// The record in a slot, every failure surfaced: absent slots are
    /// `Ok(None)`, undecodable bytes an error.
    pub fn get_record_strict(&self, idx: u64) -> (r: Result<Option<LogRecord>, Error>)
        ensures
            r matches Ok(Some(rec)) ==> self.contents().contains_key(enc_u64(idx))
                && spec_decode_record(self.contents()[enc_u64(idx)]) == Some(rec@) && rec.wf(),
            r matches Ok(None) ==> !self.contents().contains_key(enc_u64(idx)),
            r matches Err(e) ==> e is StoreIoError || (e is CodecError && self.contents(
            ).contains_key(enc_u64(idx)) && spec_decode_record(self.contents()[enc_u64(idx)])
                is None),
    {
        let key = u64_to_le_bytes(idx);
        match db_get(&self.db, &key) {
            Err(e) => Err(e),
            Ok(None) => Ok(None),
            Ok(Some(v)) => match decode_record(&v) {
                Ok(rec) => Ok(Some(rec)),
                Err(e) => Err(e),
            },
        }
    }

    /// The record in a slot, on the permissive read path: an absent slot, a
    /// slot that does not decode, and a store fault all read as `None`.
    pub fn get_record(&self, idx: u64) -> (r: Option<LogRecord>)
        ensures
            r matches Some(rec) ==> self.contents().contains_key(enc_u64(idx))
                && spec_decode_record(self.contents()[enc_u64(idx)]) == Some(rec@) && rec.wf(),
            !self.contents().contains_key(enc_u64(idx)) ==> r is None,
    {
        match self.get_record_strict(idx) {
            Ok(Some(rec)) => Some(rec),
            Ok(None) => None,
            Err(_) => None,
        }
    }

    /// Overwrites a slot unconditionally with the encoded record.
    pub fn modify_record(&mut self, idx: u64, record: LogRecord) -> (r: Result<(), Error>)
        ensures
            r matches Ok(_) ==> final(self).contents() == old(self).contents().insert(
                enc_u64(idx),
                spec_encode_record(record@),
            ),
            r matches Err(e) ==> e is StoreIoError,
    {
        let enc = encode_record(&record);
        let key = u64_to_le_bytes(idx);
        db_insert(&mut self.db, &key, enc)
    }

    /// Appends a record at the current index and advances the counter by
    /// one: the slot gains the encoded record and nothing else changes.
    pub fn insert_record(&mut self, record: LogRecord) -> (r: Result<(), Error>)
        ensures
            r matches Ok(_) ==> (spec_index_of(old(self).contents()) matches Some(idx)
                && idx < u64::MAX && final(self).contents() == old(self).contents().insert(
                enc_u64(idx),
                spec_encode_record(record@),
            ).insert(index_key(), enc_u64((idx + 1) as u64))),
            r matches Err(e) ==> e is StoreIoError || e is DatabaseGetError || e is CodecError
                || e is StoreContractError,
            (r matches Err(e) && !(e is StoreIoError)) ==> final(self).contents() == old(
                self,
            ).contents(),
            (r matches Err(e) && (e is DatabaseGetError || e is CodecError)) ==> spec_index_of(
                old(self).contents(),
            ) is None,
            (r matches Err(e) && e is StoreContractError) ==> spec_index_of(
                old(self).contents(),
            ) == Some(u64::MAX as u64),
    {
        let idx = match self.get_idx() {
            Ok(x) => x,
            Err(e) => {
                return Err(e);
            },
        };
        if idx == u64::MAX {
            return Err(Error::StoreContractError {
                message: String::from_str("index counter is exhausted"),
                offender: String::from_str(""),
            });
        }
        match self.modify_record(idx, record) {
            Ok(_) => (),
            Err(e) => {
                return Err(e);
            },
        }
        let key = index_key_vec();
        db_insert(&mut self.db, &key, u64_to_le_bytes(idx + 1))
    }

    /// The records that decode, from slot 0 up to the current index, in slot
    /// order; a slot that is absent or does not decode is skipped, a store
    /// fault surfaces.
    pub fn get_records(&self) -> (r: Result<Vec<LogRecord>, Error>)
        ensures
            r matches Ok(v) ==> (spec_index_of(self.contents()) matches Some(n)
                && v@.map_values(|rec: LogRecord| rec@) == records_upto(
                self.contents(),
                n as int,
            )),
            r matches Err(e) ==> e is StoreIoError || e is DatabaseGetError || e is CodecError,
            (r matches Err(e) && e is DatabaseGetError) ==> !self.contents().contains_key(
                index_key(),
            ),
            (r matches Err(e) && e is CodecError) ==> self.contents().contains_key(index_key())
                && self.contents()[index_key()].len() != 8,
    {
        let n = match self.get_idx() {
            Ok(x) => x,
            Err(e) => {
                return Err(e);
            },
        };
        let mut out: Vec<LogRecord> = Vec::new();
        let mut i: u64 = 0;
        while i < n
            invariant
                i <= n,
                spec_index_of(self.contents()) == Some(n),
                out@.map_values(|rec: LogRecord| rec@) == records_upto(self.contents(), i as int),
            decreases n - i,
        {
            match self.get_record_strict(i) {
                Ok(Some(rec)) => {
                    let ghost prev = out@;
                    out.push(rec);
                    proof {
                        assert(out@.map_values(|rec: LogRecord| rec@) =~= prev.map_values(
                            |rec: LogRecord| rec@,
                        ).push(out@[prev.len() as int]@));
                        assert(out@.map_values(|rec: LogRecord| rec@) =~= records_upto(
                            self.contents(),
                            i + 1,
                        ));
                    }
                },
                Ok(None) => {
                    assert(out@.map_values(|rec: LogRecord| rec@) =~= records_upto(
                        self.contents(),
                        i + 1,
                    ));
                },
                Err(e) => {
                    if let Error::StoreIoError { message } = e {
                        return Err(Error::StoreIoError { message });
                    }
                    assert(out@.map_values(|rec: LogRecord| rec@) =~= records_upto(
                        self.contents(),
                        i + 1,
                    ));
                },
            }
            i = i + 1;
        }
        Ok(out)
    }
}

/// The records of slots `0..n` that are present and decode, in slot order.
pub open spec fn records_upto(m: Map<Seq<u8>, Seq<u8>>, n: int) -> Seq<Seq<(SpecField, Seq<char>)>>
    decreases n,
{
    if n <= 0 {
        Seq::empty()
    } else {
        records_upto(m, n - 1) + (if m.contains_key(enc_u64((n - 1) as u64))
            && spec_decode_record(m[enc_u64((n - 1) as u64)]) is Some {
            seq![spec_decode_record(m[enc_u64((n - 1) as u64)])->Some_0]
        } else {
            Seq::empty()
        })
    }
}

} // verus!
