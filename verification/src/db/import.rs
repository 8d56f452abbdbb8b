//! The import pipeline: each parsed record's fields are filtered and
//! normalized, its date and time are reconstructed into one UTC timestamp,
//! and the finished record is appended to the store; the first failure stops
//! the import with nothing half-written for the failing record.
use vstd::prelude::*;
use vstd::string::*;
use crate::adif::data::{records_view, ADIFFile, ADIFRecord, SpecValue};
use crate::db::codec::{
    enc_u64, lemma_record_roundtrip, spec_decode_record, spec_encode_record, wire_bounded,
};
use crate::db::data::{
    init_contents, records_upto, spec_from_field, spec_index_of, spec_insert, unique_keys,
    FieldType, Log, LogRecord, SpecField, SpecHeader,
};
use crate::db::store::index_key;
use crate::db::time::{
    parse_qso_date, parse_time_on, spec_parse_date, spec_parse_time, CivilDate, CivilTime,
    UtcTimestamp, spec_timestamp_chars,
};
use crate::text::{push_char, str_eq};
use crate::util::{spec_grid, Error};

verus! {

/// The fold state while one record is normalized.
pub struct ImportState {
    pub rec: Seq<(SpecField, Seq<char>)>,
    pub date: Option<CivilDate>,
    pub time: Option<CivilTime>,
}

/// Why one record is rejected: a value that is not text (carrying the
/// value), or a field whose content fails validation (carrying the field
/// name and the raw value): a bad grid square, a bad date or time, or a
/// missing date/time half.
pub enum ImportFailKind {
    BadValue(SpecValue),
    BadField(Seq<char>, Seq<char>),
}

/// The rendering a rejected non-text value carries in its error.
pub open spec fn spec_value_offender(v: SpecValue) -> Seq<char> {
    match v {
        SpecValue::Text(t) => t,
        SpecValue::Truth(b) => crate::adif::data::spec_truth_chars(b),
        SpecValue::Number(t) => t,
    }
}

pub open spec fn has_pre3(s: Seq<char>, c0: char, c1: char, c2: char) -> bool {
    s.len() >= 3 && s[0] == c0 && s[1] == c1 && s[2] == c2
}

/// Fields dropped outright: station-local metadata and redundant duplicates.
pub open spec fn skip_name(s: Seq<char>) -> bool {
    ||| has_pre3(s, 'M', 'Y', '_')
    ||| has_pre3(s, 'S', 'I', 'G')
    ||| has_pre3(s, 'Q', 'S', 'L')
    ||| s == "STATION_CALLSIGN"@
    ||| s == "OPERATOR"@
    ||| s == "BAND"@
    ||| s == "TIME_OFF"@
    ||| s == "QSO_DATE_OFF"@
    ||| s == "TX_PWR"@
    ||| s == "SUBMODE"@
}

pub open spec fn drop_lead0(s: Seq<char>) -> Seq<char>
    decreases s.len(),
{
    if s.len() > 0 && s[0] == '0' {
        drop_lead0(s.drop_first())
    } else {
        s
    }
}

pub open spec fn drop_tail0(s: Seq<char>) -> Seq<char>
    decreases s.len(),
{
    if s.len() > 0 && s.last() == '0' {
        drop_tail0(s.drop_last())
    } else {
        s
    }
}

/// A frequency value with its padding zero characters stripped from both
/// ends.
pub open spec fn trim_zeros(s: Seq<char>) -> Seq<char> {
    drop_tail0(drop_lead0(s))
}

/// One field folded into the state: skipped, special-cased, or inserted
/// under its normalized name.
pub open spec fn imp_step(st: ImportState, name: Seq<char>, v: SpecValue) -> Result<
    ImportState,
    ImportFailKind,
> {
    if !(v is Text) {
        Err(ImportFailKind::BadValue(v))
    } else {
        let val = v->Text_0;
        if skip_name(name) {
            Ok(st)
        } else if name == "FREQ"@ {
            Ok(ImportState { rec: spec_insert(st.rec, spec_from_field(name), trim_zeros(val)), ..st })
        } else if name == "GRIDSQUARE"@ {
            match spec_grid(val) {
                Some(g) => Ok(ImportState { rec: spec_insert(st.rec, spec_from_field(name), g), ..st }),
                None => Err(ImportFailKind::BadField("GRIDSQUARE"@, val)),
            }
        } else if name == "QSO_DATE"@ {
            match spec_parse_date(val) {
                Some(d) => Ok(ImportState { date: Some(d), ..st }),
                None => Err(ImportFailKind::BadField("QSO_DATE"@, val)),
            }
        } else if name == "TIME_ON"@ {
            match spec_parse_time(val) {
                Some(t) => Ok(ImportState { time: Some(t), ..st }),
                None => Err(ImportFailKind::BadField("TIME_ON"@, val)),
            }
        } else {
            Ok(ImportState { rec: spec_insert(st.rec, spec_from_field(name), val), ..st })
        }
    }
}

/// The state after the first `i` fields.
pub open spec fn imp_state(fields: Seq<(Seq<char>, SpecValue)>, i: int) -> Result<
    ImportState,
    ImportFailKind,
>
    decreases i,
{
    if i <= 0 {
        Ok(ImportState { rec: Seq::empty(), date: None, time: None })
    } else {
        match imp_state(fields, i - 1) {
            Err(k) => Err(k),
            Ok(st) => imp_step(st, fields[i - 1].0, fields[i - 1].1),
        }
    }
}

/// A whole record normalized: every field folded in order, then the UTC
/// timestamp synthesized from its date and time, both of which must be
/// present.
pub open spec fn spec_import_record(fields: Seq<(Seq<char>, SpecValue)>) -> Result<
    Seq<(SpecField, Seq<char>)>,
    ImportFailKind,
> {
    match imp_state(fields, fields.len() as int) {
        Err(k) => Err(k),
        Ok(st) => match (st.date, st.time) {
            (Some(d), Some(t)) => Ok(
                spec_insert(
                    st.rec,
                    SpecField::Timestamp,
                    spec_timestamp_chars(UtcTimestamp { date: d, time: t }),
                ),
            ),
            _ => Err(ImportFailKind::BadField("QSO_DATE/TIME_ON"@, ""@)),
        },
    }
}

pub open spec fn import_ok(fields: Seq<(Seq<char>, SpecValue)>) -> bool {
    spec_import_record(fields) is Ok
}

/// Once a field fails, the fold stays failed.
proof fn lemma_imp_state_err(fields: Seq<(Seq<char>, SpecValue)>, i: int, j: int)
    requires
        i <= j,
        imp_state(fields, i) is Err,
    ensures
        imp_state(fields, j) == imp_state(fields, i),
    decreases j - i,
{
    if i < j {
        lemma_imp_state_err(fields, i, j - 1);
    }
}

/// The store after appending `recs` one by one from slot `idx`.
pub open spec fn store_after(
    m: Map<Seq<u8>, Seq<u8>>,
    idx: int,
    recs: Seq<Seq<(SpecField, Seq<char>)>>,
) -> Map<Seq<u8>, Seq<u8>>
    decreases recs.len(),
{
    if recs.len() == 0 {
        m
    } else {
        store_after(
            m.insert(enc_u64(idx as u64), spec_encode_record(recs[0])).insert(
                index_key(),
                enc_u64((idx + 1) as u64),
            ),
            idx + 1,
            recs.drop_first(),
        )
    }
}

/// Appending one more record extends the accumulated store by one slot and
/// one index bump.
pub proof fn lemma_store_after_push(
    m: Map<Seq<u8>, Seq<u8>>,
    idx: int,
    recs: Seq<Seq<(SpecField, Seq<char>)>>,
    r: Seq<(SpecField, Seq<char>)>,
)
    ensures
        store_after(m, idx, recs.push(r)) == store_after(m, idx, recs).insert(
            enc_u64((idx + recs.len()) as u64),
            spec_encode_record(r),
        ).insert(index_key(), enc_u64((idx + recs.len() + 1) as u64)),
    decreases recs.len(),
{
    if recs.len() == 0 {
        assert(recs.push(r).drop_first() =~= recs);
        assert(recs.push(r)[0] == r);
        assert(store_after(m, idx, recs.push(r)) == store_after(m, idx, recs).insert(
            enc_u64((idx + recs.len()) as u64),
            spec_encode_record(r),
        ).insert(index_key(), enc_u64((idx + recs.len() + 1) as u64))) by {
            reveal_with_fuel(store_after, 3);
        }
    } else {
        assert(recs.push(r).drop_first() =~= recs.drop_first().push(r));
        lemma_store_after_push(
            m.insert(enc_u64(idx as u64), spec_encode_record(recs[0])).insert(
                index_key(),
                enc_u64((idx + 1) as u64),
            ),
            idx + 1,
            recs.drop_first(),
            r,
        );
    }
}

/// The records each record's normalization yields, for the first `i`
/// records.
pub open spec fn imported_prefix(rs: Seq<Seq<(Seq<char>, SpecValue)>>, i: int) -> Seq<
    Seq<(SpecField, Seq<char>)>,
> {
    rs.subrange(0, i).map_values(
        |rec: Seq<(Seq<char>, SpecValue)>| spec_import_record(rec)->Ok_0,
    )
}

fn has_prefix3(s: &String, c0: char, c1: char, c2: char) -> (r: bool)
    ensures
        r == has_pre3(s@, c0, c1, c2),
{
    let n = s.as_str().unicode_len();
    if n < 3 {
        return false;
    }
    s.as_str().get_char(0) == c0 && s.as_str().get_char(1) == c1 && s.as_str().get_char(2) == c2
}

proof fn lemma_drop_lead0(s: Seq<char>, a: int)
    requires
        0 <= a <= s.len(),
        forall|j: int| 0 <= j < a ==> s[j] == '0',
        a == s.len() || s[a] != '0',
    ensures
        drop_lead0(s) == s.skip(a),
    decreases a,
{
    if a == 0 {
        assert(s.skip(0) =~= s);
    } else {
        lemma_drop_lead0(s.drop_first(), a - 1);
        assert(s.drop_first().skip(a - 1) =~= s.skip(a));
    }
}

proof fn lemma_drop_tail0(s: Seq<char>, b: int)
    requires
        0 <= b <= s.len(),
        forall|j: int| b <= j < s.len() ==> s[j] == '0',
        b == 0 || s[b - 1] != '0',
    ensures
        drop_tail0(s) == s.take(b),
    decreases s.len(),
{
    if s.len() > b {
        lemma_drop_tail0(s.drop_last(), b);
        assert(s.drop_last().take(b) =~= s.take(b));
    } else {
        assert(s.take(b) =~= s);
    }
}

/// Strips padding zero characters from both ends of a frequency value.
fn trim_zeros_exec(s: &String) -> (r: String)
    ensures
        r@ == trim_zeros(s@),
{
    let n = s.as_str().unicode_len();
    let mut a: usize = 0;
    while a < n && s.as_str().get_char(a) == '0'
        invariant
            n == s@.len(),
            a <= n,
            forall|j: int| 0 <= j < a ==> s@[j] == '0',
        decreases n - a,
    {
        a += 1;
    }
    proof {
        lemma_drop_lead0(s@, a as int);
    }
    let mut b: usize = n;
    while b > a && s.as_str().get_char(b - 1) == '0'
        invariant
            a <= b <= n,
            n == s@.len(),
            forall|j: int| b <= j < n ==> s@[j] == '0',
        decreases b,
    {
        b -= 1;
    }
    proof {
        let t = s@.skip(a as int);
        lemma_drop_tail0(t, b - a);
        assert(t.take(b - a) =~= s@.subrange(a as int, b as int));
    }
    let mut out = String::new();
    let mut i: usize = a;
    while i < b
        invariant
            a <= i <= b <= n,
            n == s@.len(),
            out@ == s@.subrange(a as int, i as int),
        decreases b - i,
    {
        let c = s.as_str().get_char(i);
        push_char(&mut out, c);
        assert(out@ =~= s@.subrange(a as int, i + 1));
        i += 1;
    }
    out
}

/// Normalizes one parsed record: fields filtered and mapped in order, the
/// timestamp synthesized; fails exactly where [`spec_import_record`] does,
/// a non-text value as a serialization error, everything else attributed to
/// the offending field.
pub fn import_record(rec: &ADIFRecord) -> (r: Result<LogRecord, Error>)
    ensures
        match spec_import_record(rec@) {
            Ok(m) => r matches Ok(lr) && lr@ == m && lr.wf(),
            Err(k) => r matches Err(e) && (k matches ImportFailKind::BadValue(v) ==> (e matches
            Error::ADIFSerializeError { offender, .. } && offender@ == spec_value_offender(v)))
                && (k matches ImportFailKind::BadField(fname, fval) ==> (e matches
            Error::FieldParseError { field_name, field_value, .. } && field_name@ == fname
                && field_value@ == fval)),
        },
{
    let mut lr = LogRecord::new();
    let mut date: Option<CivilDate> = None;
    let mut time: Option<CivilTime> = None;
    let n = rec.0.len();
    let mut i: usize = 0;
    while i < n
        invariant
            n == rec.0@.len(),
            i <= n,
            lr.wf(),
            imp_state(rec@, i as int) matches Ok(st) && st.rec == lr@ && st.date == date
                && st.time == time,
        decreases n - i,
    {
        let ghost st0 = imp_state(rec@, i as int)->Ok_0;
        let name = &rec.0[i].0;
        let value = &rec.0[i].1;
        proof {
            assert(rec@[i as int] == (name@, value@));
        }
        let val = match value.extract_value() {
            Ok(v) => v,
            Err(e) => {
                proof {
                    assert(imp_state(rec@, i + 1) == Err::<ImportState, ImportFailKind>(
                        ImportFailKind::BadValue(value@),
                    ));
                    lemma_imp_state_err(rec@, i + 1, rec@.len() as int);
                    assert(spec_import_record(rec@) == Err::<Seq<(SpecField, Seq<char>)>,
                        ImportFailKind>(ImportFailKind::BadValue(value@)));
                }
                return Err(e);
            },
        };
        if has_prefix3(name, 'M', 'Y', '_') || has_prefix3(name, 'S', 'I', 'G') || has_prefix3(
            name,
            'Q',
            'S',
            'L',
        ) || str_eq(name.as_str(), "STATION_CALLSIGN") || str_eq(name.as_str(), "OPERATOR")
            || str_eq(name.as_str(), "BAND") || str_eq(name.as_str(), "TIME_OFF") || str_eq(
            name.as_str(),
            "QSO_DATE_OFF",
        ) || str_eq(name.as_str(), "TX_PWR") || str_eq(name.as_str(), "SUBMODE") {
            assert(skip_name(name@));
        } else if str_eq(name.as_str(), "FREQ") {
            let trimmed = trim_zeros_exec(&val);
            lr.insert_field(FieldType::from_adif_field(name.as_str()), trimmed.as_str());
        } else if str_eq(name.as_str(), "GRIDSQUARE") {
            match crate::util::prettyvalidate_gridsquare(&val) {
                Ok(g) => {
                    lr.insert_field(FieldType::from_adif_field(name.as_str()), g.as_str());
                },
                Err(e) => {
                    proof {
                        assert(imp_state(rec@, i + 1) == Err::<ImportState, ImportFailKind>(
                            ImportFailKind::BadField("GRIDSQUARE"@, val@),
                        ));
                        lemma_imp_state_err(rec@, i + 1, rec@.len() as int);
                        assert(spec_import_record(rec@) == Err::<Seq<(SpecField, Seq<char>)>,
                            ImportFailKind>(ImportFailKind::BadField("GRIDSQUARE"@, val@)));
                    }
                    return Err(e);
                },
            }
        } else if str_eq(name.as_str(), "QSO_DATE") {
            match parse_qso_date(val.as_str()) {
                Some(d) => {
                    date = Some(d);
                },
                None => {
                    proof {
                        assert(imp_state(rec@, i + 1) == Err::<ImportState, ImportFailKind>(
                            ImportFailKind::BadField("QSO_DATE"@, val@),
                        ));
                        lemma_imp_state_err(rec@, i + 1, rec@.len() as int);
                        assert(spec_import_record(rec@) == Err::<Seq<(SpecField, Seq<char>)>,
                            ImportFailKind>(ImportFailKind::BadField("QSO_DATE"@, val@)));
                    }
                    return Err(Error::FieldParseError {
                        field_name: String::from_str("QSO_DATE"),
                        field_value: val,
                        err: String::from_str("not a valid YYYYMMDD calendar date"),
                    });
                },
            }
        } else if str_eq(name.as_str(), "TIME_ON") {
            match parse_time_on(val.as_str()) {
                Some(t) => {
                    time = Some(t);
                },
                None => {
                    proof {
                        assert(imp_state(rec@, i + 1) == Err::<ImportState, ImportFailKind>(
                            ImportFailKind::BadField("TIME_ON"@, val@),
                        ));
                        lemma_imp_state_err(rec@, i + 1, rec@.len() as int);
                        assert(spec_import_record(rec@) == Err::<Seq<(SpecField, Seq<char>)>,
                            ImportFailKind>(ImportFailKind::BadField("TIME_ON"@, val@)));
                    }
                    return Err(Error::FieldParseError {
                        field_name: String::from_str("TIME_ON"),
                        field_value: val,
                        err: String::from_str("not a valid HHMMSS time of day"),
                    });
                },
            }
        } else {
            lr.insert_field(FieldType::from_adif_field(name.as_str()), val.as_str());
        }
        i += 1;
    }
    match (date, time) {
        (Some(d), Some(t)) => {
            lr.insert_timestamp(UtcTimestamp::new(d, t));
            Ok(lr)
        },
        _ => {
            assert(spec_import_record(rec@) == Err::<Seq<(SpecField, Seq<char>)>,
                ImportFailKind>(ImportFailKind::BadField("QSO_DATE/TIME_ON"@, ""@)));
            Err(Error::FieldParseError {
                field_name: String::from_str("QSO_DATE/TIME_ON"),
                field_value: String::from_str(""),
                err: String::from_str("record has no date and/or time fields"),
            })
        },
    }
}

impl Log {
    /// Imports every record of a parsed file, in order: each record is
    /// normalized and appended at the next free slot. The first rejected
    /// record stops the import with the store holding exactly the records
    /// before it — nothing of the rejected record is written.
    pub fn import_adif(&mut self, adif: ADIFFile) -> (r: Result<(), Error>)
        ensures
            ({
                let rs = records_view(adif.body@);
                &&& (r is Ok && rs.len() == 0 ==> final(self).contents() == old(self).contents())
                &&& (r is Ok ==> forall|i: int| 0 <= i < rs.len() ==> import_ok(#[trigger] rs[i]))
                &&& (r is Ok && rs.len() > 0 ==> (spec_index_of(old(self).contents()) matches Some(
                    idx0,
                ) && idx0 + rs.len() <= u64::MAX && final(self).contents() == store_after(
                    old(self).contents(),
                    idx0 as int,
                    imported_prefix(rs, rs.len() as int),
                )))
                &&& (r matches Err(e) ==> ((e is FieldParseError || e is ADIFSerializeError)
                    ==> exists|i: int|
                    0 <= i < rs.len() && !import_ok(#[trigger] rs[i]) && (forall|j: int|
                        0 <= j < i ==> import_ok(#[trigger] rs[j])) && (i == 0 ==> final(self).contents()
                        == old(self).contents()) && (i > 0 ==> (spec_index_of(
                        old(self).contents(),
                    ) matches Some(idx0) && idx0 + i <= u64::MAX && final(self).contents()
                        == store_after(old(self).contents(), idx0 as int, imported_prefix(rs, i))))
                        && (spec_import_record(rs[i]) matches Err(fk) && (fk matches
                    ImportFailKind::BadField(fname, fval) ==> (e matches Error::FieldParseError {
                        field_name,
                        field_value,
                        ..
                    } && field_name@ == fname && field_value@ == fval)) && (fk matches
                    ImportFailKind::BadValue(v) ==> (e matches Error::ADIFSerializeError {
                        offender,
                        ..
                    } && offender@ == spec_value_offender(v))))))
                &&& (r matches Err(e) ==> ((e is DatabaseGetError || e is CodecError)
                    ==> spec_index_of(old(self).contents()) is None && final(self).contents()
                        == old(self).contents()))
                &&& (r matches Err(e) ==> (e is StoreContractError ==> exists|i: int|
                    #![trigger imported_prefix(rs, i)]
                    0 <= i < rs.len() && (forall|j: int|
                        0 <= j < i ==> import_ok(#[trigger] rs[j])) && (spec_index_of(
                        old(self).contents(),
                    ) matches Some(idx0) && idx0 + i == u64::MAX && final(self).contents()
                        == store_after(old(self).contents(), idx0 as int, imported_prefix(rs, i)))))
            }),
    {
        let ghost rs = records_view(adif.body@);
        let n = adif.body.len();
        let mut k: usize = 0;
        while k < n
            invariant
                n == adif.body@.len(),
                rs == records_view(adif.body@),
                k <= n,
                forall|j: int| 0 <= j < k ==> import_ok(#[trigger] rs[j]),
                k == 0 ==> self.contents() == old(self).contents(),
                k > 0 ==> (spec_index_of(old(self).contents()) matches Some(idx0) && idx0 + k
                    <= u64::MAX && self.contents() == store_after(
                    old(self).contents(),
                    idx0 as int,
                    imported_prefix(rs, k as int),
                )),
            decreases n - k,
        {
            let lr = match import_record(&adif.body[k]) {
                Ok(lr) => lr,
                Err(e) => {
                    proof {
                        assert(rs[k as int] == adif.body@[k as int]@);
                        assert(!import_ok(rs[k as int]));
                    }
                    return Err(e);
                },
            };
            let ghost pre = self.contents();
            let ghost m_k = lr@;
            match self.insert_record(lr) {
                Ok(_) => (),
                Err(e) => {
                    proof {
                        if !(e is StoreIoError) {
                            assert(self.contents() == pre);
                            if k > 0 {
                                let idx0 = spec_index_of(old(self).contents())->Some_0;
                                lemma_store_after_index(
                                    old(self).contents(),
                                    idx0 as int,
                                    imported_prefix(rs, k as int),
                                );
                                assert(imported_prefix(rs, k as int).len() == k);
                                assert(spec_index_of(pre) == Some((idx0 + k) as u64));
                            }
                            if e is StoreContractError {
                                if k == 0 {
                                    assert(spec_index_of(old(self).contents()) == Some(
                                        u64::MAX as u64,
                                    ));
                                    assert(imported_prefix(rs, 0)
                                        =~= Seq::<Seq<(SpecField, Seq<char>)>>::empty());
                                    assert(store_after(
                                        old(self).contents(),
                                        u64::MAX as int,
                                        imported_prefix(rs, 0),
                                    ) == old(self).contents());
                                } else {
                                    let idx0 = spec_index_of(old(self).contents())->Some_0;
                                    assert(idx0 + k == u64::MAX);
                                }
                            }
                        }
                    }
                    return Err(e);
                },
            }
            proof {
                let idx = spec_index_of(pre)->Some_0;
                assert(rs[k as int] == adif.body@[k as int]@);
                assert(import_ok(rs[k as int]));
                assert(m_k == spec_import_record(rs[k as int])->Ok_0);
                if k == 0 {
                    assert(imported_prefix(rs, 1) =~= Seq::empty().push(m_k));
                    lemma_store_after_push(pre, idx as int, Seq::empty(), m_k);
                    assert(store_after(pre, idx as int, Seq::empty()) == pre);
                    assert(self.contents() == store_after(pre, idx as int, imported_prefix(rs, 1)));
                } else {
                    let idx0 = spec_index_of(old(self).contents())->Some_0;
                    lemma_store_after_index(old(self).contents(), idx0 as int, imported_prefix(rs, k as int));
                    assert(imported_prefix(rs, k as int).len() == k);
                    assert(idx == idx0 + k);
                    assert(imported_prefix(rs, k + 1) =~= imported_prefix(rs, k as int).push(m_k));
                    lemma_store_after_push(
                        old(self).contents(),
                        idx0 as int,
                        imported_prefix(rs, k as int),
                        m_k,
                    );
                    assert(self.contents() == store_after(
                        old(self).contents(),
                        idx0 as int,
                        imported_prefix(rs, k + 1),
                    ));
                }
            }
            k += 1;
        }
        Ok(())
    }
}

/// After appending records, the counter reads their end, and every slot the
/// run wrote holds its record's encoding; an empty run changes nothing at
/// the counter beyond what it read.
pub proof fn lemma_store_after_index(
    m: Map<Seq<u8>, Seq<u8>>,
    idx: int,
    recs: Seq<Seq<(SpecField, Seq<char>)>>,
)
    requires
        recs.len() > 0 || spec_index_of(m) == Some(idx as u64),
        0 <= idx,
        idx + recs.len() <= u64::MAX,
    ensures
        spec_index_of(store_after(m, idx, recs)) == Some((idx + recs.len()) as u64),
    decreases recs.len(),
{
    vstd::bytes::lemma_auto_spec_u64_to_from_le_bytes();
    if recs.len() == 0 {
    } else {
        let m2 = m.insert(enc_u64(idx as u64), spec_encode_record(recs[0])).insert(
            index_key(),
            enc_u64((idx + 1) as u64),
        );
        assert(spec_index_of(m2) == Some((idx + 1) as u64));
        if recs.len() == 1 {
            lemma_store_after_index(m2, idx + 1, recs.drop_first());
        } else {
            lemma_store_after_index(m2, idx + 1, recs.drop_first());
        }
    }
}

/// Index monotonicity: after `recs` are appended one by one to a freshly
/// created store, the next-free-slot counter reads exactly their count, and
/// every one of them is retrievable: slot `k` holds the encoding of
/// `recs[k]`, which decodes back to it.
pub proof fn lemma_index_monotonicity(h: SpecHeader, recs: Seq<Seq<(SpecField, Seq<char>)>>)
    requires
        recs.len() <= u64::MAX,
        forall|k: int|
            0 <= k < recs.len() ==> unique_keys(#[trigger] recs[k]) && wire_bounded(recs[k]),
    ensures
        ({
            let m = store_after(init_contents(Map::empty(), h), 0, recs);
            &&& spec_index_of(m) == Some(recs.len() as u64)
            &&& forall|k: int|
                0 <= k < recs.len() ==> m.contains_key(#[trigger] enc_u64(k as u64))
                    && spec_decode_record(m[enc_u64(k as u64)]) == Some(recs[k])
        }),
    decreases recs.len(),
{
    vstd::bytes::lemma_auto_spec_u64_to_from_le_bytes();
    let m0 = init_contents(Map::empty(), h);
    assert(spec_index_of(m0) == Some(0u64));
    lemma_store_after_index(m0, 0, recs);
    if recs.len() > 0 {
        let short = recs.drop_last();
        assert(short.push(recs.last()) =~= recs);
        lemma_index_monotonicity(h, short);
        lemma_store_after_push(m0, 0, short, recs.last());
        let m_prev = store_after(m0, 0, short);
        let m = store_after(m0, 0, recs);
        let kk = short.len() as int;
        assert(m == m_prev.insert(enc_u64(kk as u64), spec_encode_record(recs.last())).insert(
            index_key(),
            enc_u64((kk + 1) as u64),
        ));
        lemma_record_roundtrip(recs[kk]);
        assert forall|k: int|
            0 <= k < recs.len() implies m.contains_key(#[trigger] enc_u64(k as u64))
            && spec_decode_record(m[enc_u64(k as u64)]) == Some(recs[k]) by {
            assert(index_key().len() == 5);
            assert(enc_u64(k as u64).len() == 8);
            if k < kk {
                assert(m_prev.contains_key(enc_u64(k as u64)));
                assert(enc_u64(k as u64) != index_key());
                if enc_u64(k as u64) == enc_u64(kk as u64) {
                    assert(vstd::bytes::spec_u64_from_le_bytes(enc_u64(k as u64)) == k as u64);
                    assert(vstd::bytes::spec_u64_from_le_bytes(enc_u64(kk as u64)) == kk as u64);
                    assert(false);
                }
                assert(m[enc_u64(k as u64)] == m_prev[enc_u64(k as u64)]);
            } else {
                assert(k == kk);
                assert(enc_u64(k as u64) != index_key());
                assert(m[enc_u64(k as u64)] == spec_encode_record(recs[kk]));
            }
        }
    }
}

/// Slots that all hold decodable records are collected in order.
proof fn lemma_records_upto_take(
    m: Map<Seq<u8>, Seq<u8>>,
    recs: Seq<Seq<(SpecField, Seq<char>)>>,
    n: int,
)
    requires
        0 <= n <= recs.len(),
        recs.len() <= u64::MAX,
        forall|k: int|
            0 <= k < recs.len() ==> m.contains_key(#[trigger] enc_u64(k as u64))
                && spec_decode_record(m[enc_u64(k as u64)]) == Some(recs[k]),
    ensures
        records_upto(m, n) == recs.take(n),
    decreases n,
{
    if n > 0 {
        lemma_records_upto_take(m, recs, n - 1);
        assert(m.contains_key(enc_u64((n - 1) as u64)));
        assert(spec_decode_record(m[enc_u64((n - 1) as u64)]) == Some(recs[n - 1]));
        assert(records_upto(m, n) =~= recs.take(n));
    } else {
        assert(records_upto(m, 0) =~= recs.take(0));
    }
}

/// On a freshly created store, after the records are appended one by one,
/// the permissive read path collects exactly those records, in slot (and so
/// insertion) order: what the record scan returns is the appended sequence.
pub proof fn lemma_fresh_store_records(h: SpecHeader, recs: Seq<Seq<(SpecField, Seq<char>)>>)
    requires
        recs.len() <= u64::MAX,
        forall|k: int|
            0 <= k < recs.len() ==> unique_keys(#[trigger] recs[k]) && wire_bounded(recs[k]),
    ensures
        ({
            let m = store_after(init_contents(Map::empty(), h), 0, recs);
            &&& spec_index_of(m) == Some(recs.len() as u64)
            &&& records_upto(m, recs.len() as int) == recs
        }),
{
    lemma_index_monotonicity(h, recs);
    let m = store_after(init_contents(Map::empty(), h), 0, recs);
    lemma_records_upto_take(m, recs, recs.len() as int);
    assert(recs.take(recs.len() as int) =~= recs);
}

} // verus!
