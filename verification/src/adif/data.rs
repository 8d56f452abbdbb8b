//! The tag-value interchange model: a typed tag value, the ordered header
//! and record pair lists, and the whole file, each with its serialization
//! into `<NAME:length>value` text.
use vstd::prelude::*;
use vstd::string::*;
use vstd::utf8::encode_utf8;
use crate::text::{dec_digits, push_char, push_dec, spec_upper, upper_char};
use crate::util::Error;

verus! {

/// The abstract value of a tag: text, a truth value, or a number held as its
/// decimal text.
pub enum SpecValue {
    Text(Seq<char>),
    Truth(bool),
    Number(Seq<char>),
}

/// A tag's typed value. Only `Str` has a defined wire form; serializing or
/// extracting the other two variants fails loudly until an encoding for them
/// is settled. `Num` keeps the number as its decimal text.
#[derive(Debug, Clone, PartialEq)]
pub enum ADIFType {
    Str(String),
    Bool(bool),
    Num(String),
}

impl View for ADIFType {
    type V = SpecValue;

    open spec fn view(&self) -> SpecValue {
        match self {
            ADIFType::Str(s) => SpecValue::Text(s@),
            ADIFType::Bool(b) => SpecValue::Truth(*b),
            ADIFType::Num(s) => SpecValue::Number(s@),
        }
    }
}

/// Field-name normalization: spaces become underscores, ASCII letters are
/// upper-cased. Case mapping is deliberately ASCII-only: the tag grammar
/// only admits ASCII letters and underscores in names, so nothing beyond
/// ASCII can round-trip anyway.
pub open spec fn spec_norm_name_char(c: char) -> char {
    if c == ' ' {
        '_'
    } else {
        spec_upper(c)
    }
}

pub open spec fn spec_norm_name(k: Seq<char>) -> Seq<char> {
    k.map_values(|c: char| spec_norm_name_char(c))
}

/// The serialized form of one text-valued tag: `<NAME:length>value`, where
/// the length is the UTF-8 byte length of the value.
pub open spec fn spec_tag_chars(k: Seq<char>, v: Seq<char>) -> Seq<char> {
    seq!['<'] + spec_norm_name(k) + seq![':'] + dec_digits(encode_utf8(v).len()) + seq!['>'] + v
}

/// One (field name, value) pair of a header or record.
pub open spec fn spec_pair_chars(p: (Seq<char>, SpecValue)) -> Seq<char> {
    spec_tag_chars(p.0, p.1->Text_0)
}

pub open spec fn all_text(ps: Seq<(Seq<char>, SpecValue)>) -> bool {
    forall|i: int| 0 <= i < ps.len() ==> ps[i].1 is Text
}

/// The pairs serialized in order, separated by `sep`.
pub open spec fn spec_pairs_joined(ps: Seq<(Seq<char>, SpecValue)>, sep: Seq<char>) -> Seq<char>
    decreases ps.len(),
{
    if ps.len() == 0 {
        Seq::empty()
    } else if ps.len() == 1 {
        spec_pair_chars(ps[0])
    } else {
        spec_pair_chars(ps[0]) + sep + spec_pairs_joined(ps.drop_first(), sep)
    }
}

/// The banner line that opens a serialized file.
pub open spec fn spec_banner(ts: Seq<char>) -> Seq<char> {
    "Exported from veelog on "@ + ts + seq!['\n']
}

/// The generation timestamp holds neither `<` nor a newline, so the banner
/// line never reads back as a tag.
pub open spec fn banner_time_ok(ts: Seq<char>) -> bool {
    forall|i: int| 0 <= i < ts.len() ==> (#[trigger] ts[i]) != '<' && ts[i] != '\n'
}

/// A serialized header: banner, the pairs joined by newlines, then the
/// header sentinel on its own line.
pub open spec fn spec_header_chars(ps: Seq<(Seq<char>, SpecValue)>, ts: Seq<char>) -> Seq<char> {
    spec_banner(ts) + spec_pairs_joined(ps, seq!['\n']) + seq!['\n'] + "<EOH>"@
}

/// A serialized record: the pairs concatenated, then the record sentinel.
pub open spec fn spec_record_chars(ps: Seq<(Seq<char>, SpecValue)>) -> Seq<char> {
    spec_pairs_joined(ps, Seq::empty()) + "<EOR>"@
}

/// Relies on chrono's `Local::now` rendered with the fixed format string
/// `%Y-%m-%d %H:%M:%S`: whatever the clock reads, that rendering holds only
/// digits, year signs, `-`, `:` and spaces — never a `<` and never a
/// newline. (The call itself sits outside the library's no-panic promise:
/// chrono aborts on a clock outside its representable range.)
#[verifier::external_body]
fn local_now_chars() -> (r: String)
    ensures
        banner_time_ok(r@),
{
    chrono::Local::now().format("%Y-%m-%d %H:%M:%S").to_string()
}

/// Relies on `str::len`: the length in bytes of the slice's UTF-8 contents.
#[verifier::external_body]
fn byte_len(s: &str) -> (r: usize)
    ensures
        r as nat == encode_utf8(s@).len(),
{
    s.len()
}

/// Appends the normalized field name.
fn push_norm_name(out: &mut String, name: &str)
    ensures
        final(out)@ == old(out)@ + spec_norm_name(name@),
{
    let n = name.unicode_len();
    let mut i: usize = 0;
    while i < n
        invariant
            n == name@.len(),
            i <= n,
            out@.len() == old(out)@.len() + i,
            out@ == old(out)@ + name@.subrange(0, i as int).map_values(
                |c: char| spec_norm_name_char(c),
            ),
        decreases n - i,
    {
        let c = name.get_char(i);
        if c == ' ' {
            push_char(out, '_');
        } else {
            let u = upper_char(c);
            push_char(out, u);
        }
        assert(out@ =~= old(out)@ + name@.subrange(0, i + 1).map_values(
            |c: char| spec_norm_name_char(c),
        ));
        i += 1;
    }
    assert(name@.subrange(0, n as int) =~= name@);
}

/// Appends one serialized text-valued tag.
fn push_tag(out: &mut String, key: &str, val: &String)
    ensures
        final(out)@ == old(out)@ + spec_tag_chars(key@, val@),
{
    push_char(out, '<');
    push_norm_name(out, key);
    push_char(out, ':');
    let len = byte_len(val.as_str());
    push_dec(out, len as u64);
    push_char(out, '>');
    out.append(val.as_str());
    assert(final(out)@ =~= old(out)@ + spec_tag_chars(key@, val@));
}

impl ADIFType {
    /// Serializes this value as the tag `<FIELD_NAME:length>value`; only a
    /// text value has a defined wire form, anything else is refused with the
    /// offending value rendered into the error.
    pub fn serialize(&self, field_name: &str) -> (r: Result<String, Error>)
        ensures
            match self@ {
                SpecValue::Text(v) => r matches Ok(s) && s@ == spec_tag_chars(field_name@, v),
                SpecValue::Truth(b) => r matches Err(e) && (e matches Error::ADIFSerializeError {
                    offender,
                    ..
                } && offender@ == spec_truth_chars(b)),
                SpecValue::Number(t) => r matches Err(e) && (e matches Error::ADIFSerializeError {
                    offender,
                    ..
                } && offender@ == t),
            },
    {
        match self {
            ADIFType::Str(val) => {
                let mut out = String::new();
                push_tag(&mut out, field_name, val);
                Ok(out)
            },
            ADIFType::Bool(b) => Err(Error::ADIFSerializeError {
                message: String::from_str("no serialization is defined for a boolean tag value"),
                offender: truth_string(*b),
            }),
            ADIFType::Num(n) => Err(Error::ADIFSerializeError {
                message: String::from_str("no serialization is defined for a numeric tag value"),
                offender: n.clone(),
            }),
        }
    }

    /// The plain text under this value; only a text value has one, anything
    /// else is refused with the offending value rendered into the error.
    pub fn extract_value(&self) -> (r: Result<String, Error>)
        ensures
            match self@ {
                SpecValue::Text(v) => r matches Ok(s) && s@ == v,
                SpecValue::Truth(b) => r matches Err(e) && (e matches Error::ADIFSerializeError {
                    offender,
                    ..
                } && offender@ == spec_truth_chars(b)),
                SpecValue::Number(t) => r matches Err(e) && (e matches Error::ADIFSerializeError {
                    offender,
                    ..
                } && offender@ == t),
            },
    {
        match self {
            ADIFType::Str(v) => Ok(v.clone()),
            ADIFType::Bool(b) => Err(Error::ADIFSerializeError {
                message: String::from_str("cannot extract text from a boolean tag value"),
                offender: truth_string(*b),
            }),
            ADIFType::Num(n) => Err(Error::ADIFSerializeError {
                message: String::from_str("cannot extract text from a numeric tag value"),
                offender: n.clone(),
            }),
        }
    }
}

/// The rendering of a truth value, as errors report it.
pub open spec fn spec_truth_chars(b: bool) -> Seq<char> {
    if b {
        "true"@
    } else {
        "false"@
    }
}

fn truth_string(b: bool) -> (r: String)
    ensures
        r@ == spec_truth_chars(b),
{
    if b {
        String::from_str("true")
    } else {
        String::from_str("false")
    }
}

/// The view of an ordered (field name, value) pair list.
pub open spec fn pairs_view(v: Seq<(String, ADIFType)>) -> Seq<(Seq<char>, SpecValue)> {
    v.map_values(|p: (String, ADIFType)| (p.0@, p.1@))
}

/// Appends the pairs of `v` from index `i` on, separated by `sep`, failing
/// on the first pair whose value is not text.
fn push_pairs(out: &mut String, v: &Vec<(String, ADIFType)>, i: usize, sep: &str) -> (r: Result<
    (),
    Error,
>)
    requires
        i <= v@.len(),
    ensures
        ({
            let ps = pairs_view(v@).skip(i as int);
            if all_text(ps) {
                r is Ok && final(out)@ == old(out)@ + spec_pairs_joined(ps, sep@)
            } else {
                r matches Err(e) && e is ADIFSerializeError
            }
        }),
    decreases v.len() - i,
{
    let ghost ps = pairs_view(v@).skip(i as int);
    if i == v.len() {
        assert(final(out)@ =~= old(out)@ + spec_pairs_joined(ps, sep@));
        return Ok(());
    }
    match &v[i].1 {
        ADIFType::Str(val) => {
            push_tag(out, v[i].0.as_str(), val);
            assert(ps[0].1 is Text);
            if i + 1 == v.len() {
                assert(ps.len() == 1);
                assert(all_text(ps)) by {
                    assert(forall|j: int| 0 <= j < ps.len() ==> #[trigger] ps[j].1 is Text);
                }
                assert(final(out)@ =~= old(out)@ + spec_pairs_joined(ps, sep@));
                Ok(())
            } else {
                out.append(sep);
                let r = push_pairs(out, v, i + 1, sep);
                proof {
                    let ps2 = pairs_view(v@).skip(i + 1);
                    assert(ps.drop_first() =~= ps2);
                    if r is Err {
                        let j = choose|j: int|
                            0 <= j < ps2.len() && !(#[trigger] ps2[j].1 is Text);
                        assert(ps[j + 1] == ps2[j]);
                        assert(!all_text(ps));
                    } else {
                        assert(all_text(ps2));
                        assert forall|j: int| 0 <= j < ps.len() implies #[trigger] ps[j].1
                            is Text by {
                            if j > 0 {
                                assert(ps[j] == ps2[j - 1]);
                            }
                        }
                        assert(all_text(ps));
                    }
                }
                if r.is_ok() {
                    assert(final(out)@ =~= old(out)@ + spec_pairs_joined(ps, sep@));
                }
                r
            }
        },
        ADIFType::Bool(b) => {
            assert(!all_text(ps)) by {
                assert(ps[0].1 is Truth);
            }
            Err(Error::ADIFSerializeError {
                message: String::from_str("no serialization is defined for a boolean tag value"),
                offender: truth_string(*b),
            })
        },
        ADIFType::Num(n) => {
            assert(!all_text(ps)) by {
                assert(ps[0].1 is Number);
            }
            Err(Error::ADIFSerializeError {
                message: String::from_str("no serialization is defined for a numeric tag value"),
                offender: n.clone(),
            })
        },
    }
}

/// The ordered (field name, value) pairs of a file header. Duplicate names
/// are legal; consumers decide precedence.
#[derive(Debug, Clone, PartialEq)]
pub struct ADIFHeader(pub Vec<(String, ADIFType)>);

impl View for ADIFHeader {
    type V = Seq<(Seq<char>, SpecValue)>;

    open spec fn view(&self) -> Seq<(Seq<char>, SpecValue)> {
        pairs_view(self.0@)
    }
}

impl ADIFHeader {
    /// Serializes the header: a banner line carrying the generation
    /// timestamp, the pairs joined by newlines, then the `<EOH>` sentinel.
    /// Fails exactly when some value is not text.
    pub fn serialize(&self) -> (r: Result<String, Error>)
        ensures
            if all_text(self@) {
                r matches Ok(s) && exists|ts: Seq<char>|
                    banner_time_ok(ts) && s@ == spec_header_chars(self@, ts)
            } else {
                r matches Err(e) && e is ADIFSerializeError
            },
    {
        let ts = local_now_chars();
        let mut out = String::from_str("Exported from veelog on ");
        out.append(ts.as_str());
        push_char(&mut out, '\n');
        assert(out@ =~= spec_banner(ts@));
        let ghost banner = out@;
        let pr = push_pairs(&mut out, &self.0, 0, "\n");
        proof {
            reveal_strlit("\n");
            assert(pairs_view(self.0@).skip(0) =~= self@);
            assert("\n"@ =~= seq!['\n']);
        }
        match pr {
            Ok(_) => {
                push_char(&mut out, '\n');
                out.append("<EOH>");
                assert(out@ =~= spec_header_chars(self@, ts@));
                Ok(out)
            },
            Err(e) => Err(e),
        }
    }
}

/// The ordered (field name, value) pairs of one record.
#[derive(Debug, Clone, PartialEq)]
pub struct ADIFRecord(pub Vec<(String, ADIFType)>);

impl View for ADIFRecord {
    type V = Seq<(Seq<char>, SpecValue)>;

    open spec fn view(&self) -> Seq<(Seq<char>, SpecValue)> {
        pairs_view(self.0@)
    }
}

impl ADIFRecord {
    /// Serializes the record: the pairs concatenated with no separator,
    /// terminated by the `<EOR>` sentinel. Fails exactly when some value is
    /// not text.
    pub fn serialize(&self) -> (r: Result<String, Error>)
        ensures
            if all_text(self@) {
                r matches Ok(s) && s@ == spec_record_chars(self@)
            } else {
                r matches Err(e) && e is ADIFSerializeError
            },
    {
        let mut out = String::new();
        let pr = push_pairs(&mut out, &self.0, 0, "");
        proof {
            reveal_strlit("");
            assert(pairs_view(self.0@).skip(0) =~= self@);
            assert(""@ =~= Seq::<char>::empty());
        }
        match pr {
            Ok(_) => {
                out.append("<EOR>");
                assert(out@ =~= spec_record_chars(self@));
                Ok(out)
            },
            Err(e) => Err(e),
        }
    }
}

/// A parsed interchange file: a header and its records.
#[derive(Debug, Clone, PartialEq)]
pub struct ADIFFile {
    pub header: ADIFHeader,
    pub body: Vec<ADIFRecord>,
}

/// The views of a file's records.
pub open spec fn records_view(rs: Seq<ADIFRecord>) -> Seq<Seq<(Seq<char>, SpecValue)>> {
    rs.map_values(|r: ADIFRecord| r@)
}

pub open spec fn all_records_text(rs: Seq<Seq<(Seq<char>, SpecValue)>>) -> bool {
    forall|i: int| 0 <= i < rs.len() ==> all_text(#[trigger] rs[i])
}

/// The records serialized in order, joined by newlines.
pub open spec fn spec_records_joined(rs: Seq<Seq<(Seq<char>, SpecValue)>>) -> Seq<char>
    decreases rs.len(),
{
    if rs.len() == 0 {
        Seq::empty()
    } else if rs.len() == 1 {
        spec_record_chars(rs[0])
    } else {
        spec_record_chars(rs[0]) + seq!['\n'] + spec_records_joined(rs.drop_first())
    }
}

/// A whole serialized file: the header, a newline, then the records joined
/// by newlines.
pub open spec fn spec_file_chars(
    h: Seq<(Seq<char>, SpecValue)>,
    rs: Seq<Seq<(Seq<char>, SpecValue)>>,
    ts: Seq<char>,
) -> Seq<char> {
    spec_header_chars(h, ts) + seq!['\n'] + spec_records_joined(rs)
}

/// Appends the records of `v` from index `i` on, joined by newlines.
fn push_records(out: &mut String, v: &Vec<ADIFRecord>, i: usize) -> (r: Result<(), Error>)
    requires
        i <= v@.len(),
    ensures
        ({
            let rs = records_view(v@).skip(i as int);
            if all_records_text(rs) {
                r is Ok && final(out)@ == old(out)@ + spec_records_joined(rs)
            } else {
                r matches Err(e) && e is ADIFSerializeError
            }
        }),
    decreases v.len() - i,
{
    let ghost rs = records_view(v@).skip(i as int);
    if i == v.len() {
        assert(final(out)@ =~= old(out)@ + spec_records_joined(rs));
        return Ok(());
    }
    let pr = push_pairs(out, &v[i].0, 0, "");
    proof {
        reveal_strlit("");
        assert(pairs_view(v@[i as int].0@).skip(0) =~= rs[0]);
        assert(""@ =~= Seq::<char>::empty());
    }
    match pr {
        Ok(_) => {
            out.append("<EOR>");
            assert(all_text(rs[0]));
            if i + 1 == v.len() {
                assert(rs.len() == 1);
                assert(all_records_text(rs)) by {
                    assert(forall|j: int| 0 <= j < rs.len() ==> all_text(#[trigger] rs[j]));
                }
                assert(final(out)@ =~= old(out)@ + spec_records_joined(rs));
                Ok(())
            } else {
                push_char(out, '\n');
                let r = push_records(out, v, i + 1);
                proof {
                    let rs2 = records_view(v@).skip(i + 1);
                    assert(rs.drop_first() =~= rs2);
                    if r is Err {
                        let j = choose|j: int|
                            0 <= j < rs2.len() && !all_text(#[trigger] rs2[j]);
                        assert(rs[j + 1] == rs2[j]);
                        assert(!all_records_text(rs));
                    } else {
                        assert(all_records_text(rs2));
                        assert forall|j: int| 0 <= j < rs.len() implies all_text(
                            #[trigger] rs[j],
                        ) by {
                            if j > 0 {
                                assert(rs[j] == rs2[j - 1]);
                            }
                        }
                        assert(all_records_text(rs));
                    }
                }
                if r.is_ok() {
                    assert(final(out)@ =~= old(out)@ + spec_records_joined(rs));
                }
                r
            }
        },
        Err(e) => {
            assert(!all_records_text(rs)) by {
                assert(!all_text(rs[0]));
            }
            Err(e)
        },
    }
}

impl ADIFFile {
    pub fn new(header: ADIFHeader, body: Vec<ADIFRecord>) -> (r: ADIFFile)
        ensures
            r.header == header,
            r.body == body,
    {
        ADIFFile { header, body }
    }

    /// Serializes the whole file; fails exactly when some header or record
    /// value is not text.
    pub fn serialize(&self) -> (r: Result<String, Error>)
        ensures
            if all_text(self.header@) && all_records_text(records_view(self.body@)) {
                r matches Ok(s) && exists|ts: Seq<char>|
                    banner_time_ok(ts) && s@ == spec_file_chars(
                        self.header@,
                        records_view(self.body@),
                        ts,
                    )
            } else {
                r matches Err(e) && e is ADIFSerializeError
            },
    {
        let mut out = match self.header.serialize() {
            Ok(s) => s,
            Err(e) => {
                return Err(e);
            },
        };
        let ghost hdr_view = out@;
        push_char(&mut out, '\n');
        let pr = push_records(&mut out, &self.body, 0);
        proof {
            assert(records_view(self.body@).skip(0) =~= records_view(self.body@));
        }
        match pr {
            Ok(_) => {
                proof {
                    let ts = choose|ts: Seq<char>|
                        banner_time_ok(ts) && hdr_view == spec_header_chars(self.header@, ts);
                    assert(out@ =~= spec_file_chars(
                        self.header@,
                        records_view(self.body@),
                        ts,
                    ));
                }
                Ok(out)
            },
            Err(e) => Err(e),
        }
    }
}

} // verus!
