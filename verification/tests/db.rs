use veelog::adif::data::{ADIFFile, ADIFHeader, ADIFRecord, ADIFType};
use veelog::db::data::{FieldType, Log, LogHeader, LogRecord};
use veelog::db::time::{CivilDate, CivilTime, UtcTimestamp};
use veelog::util::Error;

fn fresh_db() -> sled::Db {
    sled::Config::new().temporary(true).open().unwrap()
}

fn fresh_log() -> Log {
    Log::new_init(fresh_db(), LogHeader::new("N0CALL", "")).unwrap()
}

fn ts(y: u16, mo: u8, d: u8, h: u8, mi: u8, s: u8) -> UtcTimestamp {
    UtcTimestamp::new(
        CivilDate::new(y, mo, d).unwrap(),
        CivilTime::new(h, mi, s).unwrap(),
    )
}

fn text_record(pairs: &[(&str, &str)]) -> ADIFRecord {
    ADIFRecord(
        pairs
            .iter()
            .map(|(k, v)| (k.to_string(), ADIFType::Str(v.to_string())))
            .collect(),
    )
}

fn file_of(records: Vec<ADIFRecord>) -> ADIFFile {
    ADIFFile {
        header: ADIFHeader(vec![(
            "ADIF_VER".to_string(),
            ADIFType::Str("3.1.1".to_string()),
        )]),
        body: records,
    }
}

#[test]
pub fn test_db() {
    let header = LogHeader::new("N0CALL", "");
    let mut testlog = Log::new_init(fresh_db(), header).unwrap();
    let mut record = LogRecord::new();
    record.insert_field(FieldType::WorkedCall, "N0CALL");
    record.insert_field(FieldType::GridSquare, "AA00");
    record.insert_timestamp(ts(2025, 7, 28, 2, 48, 13));

    testlog.insert_record(record).unwrap();
    let dec = testlog.get_record(0).unwrap();

    assert_eq!(
        "N0CALL".to_string(),
        dec.get_field(&FieldType::WorkedCall).unwrap()
    );
    assert_eq!(
        "AA00".to_string(),
        dec.get_field(&FieldType::GridSquare).unwrap()
    );
    assert_eq!(
        "2025-07-28T02:48:13Z".to_string(),
        dec.get_field(&FieldType::Timestamp).unwrap()
    );
}

#[test]
fn index_counts_up_and_records_stay_retrievable() {
    let mut log = fresh_log();
    assert_eq!(0, log.get_idx().unwrap());
    let n: u64 = 5;
    for k in 0..n {
        let mut rec = LogRecord::new();
        rec.insert_field(FieldType::WorkedCall, &format!("N{}CALL", k));
        rec.insert_timestamp(ts(2025, 1, 1, 0, 0, k as u8));
        log.insert_record(rec).unwrap();
        assert_eq!(k + 1, log.get_idx().unwrap());
    }
    assert_eq!(n, log.get_idx().unwrap());
    for k in 0..n {
        let rec = log.get_record(k).unwrap();
        assert_eq!(
            format!("N{}CALL", k),
            rec.get_field(&FieldType::WorkedCall).unwrap()
        );
    }
    assert_eq!(n as usize, log.get_records().unwrap().len());
}

#[test]
fn record_codec_round_trips_unicode_and_custom_fields() {
    let mut log = fresh_log();
    let mut rec = LogRecord::new();
    rec.insert_field(FieldType::Other("APP_VEELOG_NOTE".to_string()), "café ☕");
    rec.insert_field(FieldType::QTH, "Überlingen");
    rec.insert_timestamp(ts(2024, 2, 29, 23, 59, 59));
    log.insert_record(rec).unwrap();
    let back = log.get_record(0).unwrap();
    assert_eq!(
        "café ☕".to_string(),
        back.get_field(&FieldType::Other("APP_VEELOG_NOTE".to_string()))
            .unwrap()
    );
    assert_eq!(
        "Überlingen".to_string(),
        back.get_field(&FieldType::QTH).unwrap()
    );
    assert_eq!(
        "2024-02-29T23:59:59Z".to_string(),
        back.get_field(&FieldType::Timestamp).unwrap()
    );
}

#[test]
fn reinsertion_overwrites_in_place() {
    let mut rec = LogRecord::new();
    rec.insert_field(FieldType::WorkedCall, "N0CALL");
    rec.insert_field(FieldType::Mode, "CW");
    rec.insert_field(FieldType::WorkedCall, "N1CALL");
    let fields = rec.fields();
    assert_eq!(2, fields.len());
    assert_eq!(FieldType::WorkedCall, fields[0].0);
    assert_eq!("N1CALL", fields[0].1);
    assert_eq!(FieldType::Mode, fields[1].0);
}

#[test]
fn get_record_is_none_for_missing_slots() {
    let log = fresh_log();
    assert!(log.get_record(0).is_none());
    assert!(log.get_record(7).is_none());
}

#[test]
fn modify_record_overwrites_a_slot() {
    let mut log = fresh_log();
    let mut rec = LogRecord::new();
    rec.insert_field(FieldType::WorkedCall, "N0CALL");
    log.insert_record(rec).unwrap();
    let mut other = LogRecord::new();
    other.insert_field(FieldType::WorkedCall, "N9CALL");
    log.modify_record(0, other).unwrap();
    assert_eq!(
        "N9CALL".to_string(),
        log.get_record(0)
            .unwrap()
            .get_field(&FieldType::WorkedCall)
            .unwrap()
    );
    assert_eq!(1, log.get_idx().unwrap());
}

#[test]
fn header_survives_creation() {
    let log = fresh_log();
    let header = log.get_header().unwrap();
    assert_eq!("N0CALL", header.op_call());
    assert_eq!("0.1.0", header.version());
    assert_eq!("", header.comment());
}

#[test]
fn import_stores_normalized_fields_and_timestamp() {
    let mut log = fresh_log();
    let file = file_of(vec![text_record(&[
        ("CALL", "N0CALL"),
        ("GRIDSQUARE", "AA00"),
        ("QSO_DATE", "20250728"),
        ("TIME_ON", "024813"),
    ])]);
    log.import_adif(file).unwrap();
    assert_eq!(1, log.get_idx().unwrap());
    let rec = log.get_record(0).unwrap();
    assert_eq!(
        "N0CALL".to_string(),
        rec.get_field(&FieldType::WorkedCall).unwrap()
    );
    assert_eq!(
        "AA00".to_string(),
        rec.get_field(&FieldType::GridSquare).unwrap()
    );
    assert_eq!(
        "2025-07-28T02:48:13Z".to_string(),
        rec.get_field(&FieldType::Timestamp).unwrap()
    );
}

#[test]
fn import_normalizes_grid_square_case() {
    let mut log = fresh_log();
    let file = file_of(vec![text_record(&[
        ("CALL", "N0CALL"),
        ("GRIDSQUARE", "aa00AA"),
        ("QSO_DATE", "20250728"),
        ("TIME_ON", "024813"),
    ])]);
    log.import_adif(file).unwrap();
    let rec = log.get_record(0).unwrap();
    assert_eq!(
        "AA00aa".to_string(),
        rec.get_field(&FieldType::GridSquare).unwrap()
    );
}

#[test]
fn import_trims_frequency_padding_and_drops_station_fields() {
    let mut log = fresh_log();
    let file = file_of(vec![text_record(&[
        ("CALL", "N0CALL"),
        ("FREQ", "7.074000"),
        ("MY_GRIDSQUARE", "BB11"),
        ("QSL_SENT", "Y"),
        ("OPERATOR", "N0CALL"),
        ("POTA_REF", "K-0001"),
        ("APP_SOMETHING", "kept"),
        ("QSO_DATE", "20250728"),
        ("TIME_ON", "024813"),
    ])]);
    log.import_adif(file).unwrap();
    let rec = log.get_record(0).unwrap();
    assert_eq!(
        "7.074".to_string(),
        rec.get_field(&FieldType::Frequency).unwrap()
    );
    assert_eq!(
        "K-0001".to_string(),
        rec.get_field(&FieldType::POTARef).unwrap()
    );
    assert_eq!(
        "kept".to_string(),
        rec.get_field(&FieldType::Other("APP_SOMETHING".to_string()))
            .unwrap()
    );
    assert!(rec
        .get_field(&FieldType::Other("MY_GRIDSQUARE".to_string()))
        .is_none());
    assert!(rec
        .get_field(&FieldType::Other("QSL_SENT".to_string()))
        .is_none());
    assert!(rec
        .get_field(&FieldType::Other("OPERATOR".to_string()))
        .is_none());
}

#[test]
fn import_rejects_date_without_time_and_writes_nothing() {
    let mut log = fresh_log();
    let file = file_of(vec![text_record(&[
        ("CALL", "N0CALL"),
        ("QSO_DATE", "20250728"),
    ])]);
    match log.import_adif(file) {
        Err(Error::FieldParseError { .. }) => {}
        _ => panic!("expected a field rejection"),
    }
    assert_eq!(0, log.get_idx().unwrap());
    assert!(log.get_records().unwrap().is_empty());
}

#[test]
fn import_rejects_time_without_date_and_writes_nothing() {
    let mut log = fresh_log();
    let file = file_of(vec![text_record(&[
        ("CALL", "N0CALL"),
        ("TIME_ON", "024813"),
    ])]);
    match log.import_adif(file) {
        Err(Error::FieldParseError { .. }) => {}
        _ => panic!("expected a field rejection"),
    }
    assert_eq!(0, log.get_idx().unwrap());
    assert!(log.get_records().unwrap().is_empty());
}

#[test]
fn import_keeps_earlier_records_when_a_later_one_is_rejected() {
    let mut log = fresh_log();
    let file = file_of(vec![
        text_record(&[
            ("CALL", "N0CALL"),
            ("QSO_DATE", "20250728"),
            ("TIME_ON", "024813"),
        ]),
        text_record(&[("CALL", "N1CALL"), ("QSO_DATE", "20250230")]),
    ]);
    match log.import_adif(file) {
        Err(Error::FieldParseError { field_name, .. }) => {
            assert_eq!("QSO_DATE", field_name);
        }
        _ => panic!("expected a field rejection"),
    }
    assert_eq!(1, log.get_idx().unwrap());
    let rec = log.get_record(0).unwrap();
    assert_eq!(
        "N0CALL".to_string(),
        rec.get_field(&FieldType::WorkedCall).unwrap()
    );
    assert!(log.get_record(1).is_none());
}

#[test]
fn import_rejects_bad_dates_and_times() {
    for (k, v) in [
        ("QSO_DATE", "2025072"),
        ("QSO_DATE", "20251301"),
        ("QSO_DATE", "20250230"),
        ("QSO_DATE", "2025072a"),
        ("TIME_ON", "246060"),
        ("TIME_ON", "02481"),
        ("TIME_ON", "abcdef"),
    ] {
        let mut log = fresh_log();
        let file = file_of(vec![text_record(&[
            ("QSO_DATE", "20250728"),
            ("TIME_ON", "024813"),
            (k, v),
        ])]);
        match log.import_adif(file) {
            Err(Error::FieldParseError {
                field_name,
                field_value,
                ..
            }) => {
                assert_eq!(k, field_name);
                assert_eq!(v, field_value);
            }
            _ => panic!("expected a field rejection for {}={}", k, v),
        }
        assert_eq!(0, log.get_idx().unwrap());
    }
}

#[test]
fn import_rejects_bad_grid_square_naming_field_and_value() {
    let mut log = fresh_log();
    let file = file_of(vec![text_record(&[
        ("GRIDSQUARE", "AA0"),
        ("QSO_DATE", "20250728"),
        ("TIME_ON", "024813"),
    ])]);
    match log.import_adif(file) {
        Err(Error::FieldParseError {
            field_name,
            field_value,
            ..
        }) => {
            assert_eq!("GRIDSQUARE", field_name);
            assert_eq!("AA0", field_value);
        }
        _ => panic!("expected a field rejection"),
    }
    assert_eq!(0, log.get_idx().unwrap());
}

#[test]
fn opening_a_store_with_wrong_magic_names_the_value() {
    let db = fresh_db();
    db.insert(b"MAGIC", b"nonsense").unwrap();
    match Log::new(db) {
        Err(Error::StoreContractError { offender, .. }) => {
            assert_eq!("6e6f6e73656e7365", offender);
        }
        _ => panic!("expected a store contract failure"),
    }
}

#[test]
fn opening_a_non_empty_store_without_magic_fails() {
    let db = fresh_db();
    db.insert(b"stray", b"value").unwrap();
    match Log::new(db) {
        Err(Error::StoreContractError { .. }) => {}
        _ => panic!("expected a store contract failure"),
    }
}

#[test]
fn magic_comparison_is_case_insensitive() {
    let db = fresh_db();
    let log = Log::new_init(db.clone(), LogHeader::new("N0CALL", "")).unwrap();
    drop(log);
    let lowered = db.get(b"MAGIC").unwrap().unwrap().to_ascii_lowercase();
    db.insert(b"MAGIC", lowered).unwrap();
    Log::new(db).unwrap();
}

#[test]
fn create_new_on_non_empty_store_fails_without_mutating() {
    let db = fresh_db();
    db.insert(b"stray", b"value").unwrap();
    match Log::new_init(db.clone(), LogHeader::new("N0CALL", "")) {
        Err(Error::StoreContractError { .. }) => {}
        _ => panic!("expected a store contract failure"),
    }
    assert_eq!(1, db.len());
    assert_eq!(&db.get(b"stray").unwrap().unwrap()[..], b"value");
}

#[test]
fn corrupted_slot_reads_as_absent_but_strict_read_fails() {
    let db = fresh_db();
    let mut log = Log::new_init(db.clone(), LogHeader::new("N0CALL", "")).unwrap();
    let mut rec = LogRecord::new();
    rec.insert_field(FieldType::WorkedCall, "N0CALL");
    log.insert_record(rec).unwrap();
    db.insert(&0u64.to_le_bytes(), b"garbage").unwrap();
    assert!(log.get_record(0).is_none());
    match log.get_record_strict(0) {
        Err(Error::CodecError { .. }) => {}
        _ => panic!("expected a codec failure"),
    }
    assert!(log.get_records().unwrap().is_empty());
}

#[test]
fn missing_index_key_is_reported() {
    let db = fresh_db();
    let log = Log::new_init(db.clone(), LogHeader::new("N0CALL", "")).unwrap();
    db.remove(b"INDEX").unwrap();
    match log.get_idx() {
        Err(Error::DatabaseGetError(key)) => assert_eq!("INDEX", key),
        _ => panic!("expected a missing-key failure"),
    }
}

#[test]
fn errors_flatten_to_message_and_offender() {
    let e = Error::FieldParseError {
        field_name: "GRIDSQUARE".to_string(),
        field_value: "AA0".to_string(),
        err: "gridsquare has invalid length".to_string(),
    };
    let flat = e.to_log_error();
    assert_eq!("GRIDSQUARE: gridsquare has invalid length", flat.message);
    assert_eq!("AA0", flat.offender);
}

#[test]
fn reopening_a_created_store_succeeds() {
    let db = fresh_db();
    let mut log = Log::new_init(db.clone(), LogHeader::new("N0CALL", "hi")).unwrap();
    let mut rec = LogRecord::new();
    rec.insert_field(FieldType::WorkedCall, "N0CALL");
    log.insert_record(rec).unwrap();
    drop(log);
    let reopened = Log::new(db).unwrap();
    assert_eq!(1, reopened.get_idx().unwrap());
    assert_eq!("hi", reopened.get_header().unwrap().comment());
}
