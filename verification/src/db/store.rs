//! The embedded ordered byte store, held behind a small trusted surface:
//! the store's contents as a map from key bytes to value bytes, and the
//! three operations the engine uses.
use vstd::prelude::*;
use vstd::string::*;
use vstd::utf8::encode_utf8;
use crate::util::Error;

verus! {

#[verifier::external_type_specification]
#[verifier::external_body]
pub struct ExDb(sled::Db);

/// What the store holds: each present key's bytes mapped to its value's
/// bytes.
pub uninterp spec fn db_view(db: sled::Db) -> Map<Seq<u8>, Seq<u8>>;

/// Relies on sled's `Tree::get`: the value stored under the key, if any;
/// a store fault surfaces as an error.
#[verifier::external_body]
pub(crate) fn db_get(db: &sled::Db, key: &Vec<u8>) -> (r: Result<Option<Vec<u8>>, Error>)
    ensures
        match r {
            Ok(Some(v)) => db_view(*db).contains_key(key@) && v@ == db_view(*db)[key@],
            Ok(None) => !db_view(*db).contains_key(key@),
            Err(e) => e is StoreIoError,
        },
{
    match db.get(key.as_slice()) {
        Ok(Some(iv)) => Ok(Some(iv.to_vec())),
        Ok(None) => Ok(None),
        Err(e) => Err(Error::StoreIoError { message: e.to_string() }),
    }
}

/// Relies on sled's `Tree::insert`: on success the key now holds the value
/// and every other key is unchanged; after a fault nothing is claimed.
#[verifier::external_body]
pub(crate) fn db_insert(db: &mut sled::Db, key: &Vec<u8>, val: Vec<u8>) -> (r: Result<(), Error>)
    ensures
        match r {
            Ok(_) => db_view(*final(db)) == db_view(*old(db)).insert(key@, val@),
            Err(e) => e is StoreIoError,
        },
{
    match db.insert(key.as_slice(), val) {
        Ok(_) => Ok(()),
        Err(e) => Err(Error::StoreIoError { message: e.to_string() }),
    }
}

/// Relies on sled's `Tree::is_empty`: a `true` answer means the first read
/// found no key, so the store holds none. A `false` answer is not trusted
/// the other way: sled answers `false` also when the probing read faults,
/// whatever the store holds.
#[verifier::external_body]
pub(crate) fn db_is_empty(db: &sled::Db) -> (r: bool)
    ensures
        r ==> db_view(*db).dom().is_empty(),
{
    db.is_empty()
}

/// The reserved key holding the magic signature.
pub open spec fn magic_key() -> Seq<u8> {
    seq![77u8, 65u8, 71u8, 73u8, 67u8]
}

/// The reserved informational key.
pub open spec fn info_key() -> Seq<u8> {
    seq![73u8, 78u8, 70u8, 79u8]
}

/// The reserved key holding the encoded header.
pub open spec fn header_key() -> Seq<u8> {
    seq![72u8, 69u8, 65u8, 68u8, 69u8, 82u8]
}

/// The reserved key holding the monotonic index counter.
pub open spec fn index_key() -> Seq<u8> {
    seq![73u8, 78u8, 68u8, 69u8, 88u8]
}

/// The fixed 32-byte magic signature, in its canonical upper case.
pub open spec fn spec_magic() -> Seq<u8> {
    seq![
        68u8, 55u8, 56u8, 52u8, 67u8, 66u8, 57u8, 69u8, 53u8, 56u8, 68u8, 50u8, 55u8, 57u8,
        66u8, 52u8, 50u8, 70u8, 68u8, 65u8, 52u8, 68u8, 48u8, 65u8, 53u8, 70u8, 67u8, 55u8,
        68u8, 65u8, 56u8, 48u8,
    ]
}

/// The informational value written beside the magic signature.
pub open spec fn spec_info() -> Seq<u8> {
    encode_utf8("Database generated by veelog."@)
}

fn push_byte(out: &mut Vec<u8>, b: u8)
    ensures
        final(out)@ == old(out)@.push(b),
{
    out.push(b);
}

/// The `MAGIC` key bytes.
pub(crate) fn magic_key_vec() -> (r: Vec<u8>)
    ensures
        r@ == magic_key(),
{
    let mut v: Vec<u8> = Vec::new();
    push_byte(&mut v, 77);
    push_byte(&mut v, 65);
    push_byte(&mut v, 71);
    push_byte(&mut v, 73);
    push_byte(&mut v, 67);
    assert(v@ =~= magic_key());
    v
}

/// The `INFO` key bytes.
pub(crate) fn info_key_vec() -> (r: Vec<u8>)
    ensures
        r@ == info_key(),
{
    let mut v: Vec<u8> = Vec::new();
    push_byte(&mut v, 73);
    push_byte(&mut v, 78);
    push_byte(&mut v, 70);
    push_byte(&mut v, 79);
    assert(v@ =~= info_key());
    v
}

/// The `HEADER` key bytes.
pub(crate) fn header_key_vec() -> (r: Vec<u8>)
    ensures
        r@ == header_key(),
{
    let mut v: Vec<u8> = Vec::new();
    push_byte(&mut v, 72);
    push_byte(&mut v, 69);
    push_byte(&mut v, 65);
    push_byte(&mut v, 68);
    push_byte(&mut v, 69);
    push_byte(&mut v, 82);
    assert(v@ =~= header_key());
    v
}

/// The `INDEX` key bytes.
pub(crate) fn index_key_vec() -> (r: Vec<u8>)
    ensures
        r@ == index_key(),
{
    let mut v: Vec<u8> = Vec::new();
    push_byte(&mut v, 73);
    push_byte(&mut v, 78);
    push_byte(&mut v, 68);
    push_byte(&mut v, 69);
    push_byte(&mut v, 88);
    assert(v@ =~= index_key());
    v
}

/// The magic signature bytes.
pub(crate) fn magic_vec() -> (r: Vec<u8>)
    ensures
        r@ == spec_magic(),
{
    let mut v: Vec<u8> = Vec::new();
    push_byte(&mut v, 68);
    push_byte(&mut v, 55);
    push_byte(&mut v, 56);
    push_byte(&mut v, 52);
    push_byte(&mut v, 67);
    push_byte(&mut v, 66);
    push_byte(&mut v, 57);
    push_byte(&mut v, 69);
    push_byte(&mut v, 53);
    push_byte(&mut v, 56);
    push_byte(&mut v, 68);
    push_byte(&mut v, 50);
    push_byte(&mut v, 55);
    push_byte(&mut v, 57);
    push_byte(&mut v, 66);
    push_byte(&mut v, 52);
    push_byte(&mut v, 50);
    push_byte(&mut v, 70);
    push_byte(&mut v, 68);
    push_byte(&mut v, 65);
    push_byte(&mut v, 52);
    push_byte(&mut v, 68);
    push_byte(&mut v, 48);
    push_byte(&mut v, 65);
    push_byte(&mut v, 53);
    push_byte(&mut v, 70);
    push_byte(&mut v, 67);
    push_byte(&mut v, 55);
    push_byte(&mut v, 68);
    push_byte(&mut v, 65);
    push_byte(&mut v, 56);
    push_byte(&mut v, 48);
    assert(v@ =~= spec_magic());
    v
}

/// The informational value bytes.
pub(crate) fn info_vec() -> (r: Vec<u8>)
    ensures
        r@ == spec_info(),
{
    "Database generated by veelog.".as_bytes_vec()
}

} // verus!
