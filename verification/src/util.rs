//! The error taxonomy shared by every layer, and Maidenhead grid-square
//! validation and normalization.
use vstd::prelude::*;
use vstd::string::*;
use vstd::utf8::is_ascii_chars;
use crate::text::{lower_char, push_char, spec_lower, spec_upper, upper_char};

verus! {

/// Every failure the library reports.
///
/// - `ADIFSerializeError`: a value variant with no tag serialization yet.
/// - `FieldParseError`: a field-level rejection (bad grid square, bad date or
///   time, missing date/time), attributed to the field name and raw value.
/// - `DatabaseGetError`: a reserved key that the store contract promises is
///   absent.
/// - `ParseError`: malformed interchange text (bad tag length, wrong number
///   of header terminators).
/// - `StoreContractError`: wrong or missing magic signature, or a non-empty
///   store handed to creation.
/// - `CodecError`: stored bytes that do not decode as a record or header.
/// - `StoreIoError`: a fault reported by the underlying store.
#[derive(Debug)]
pub enum Error {
    ADIFSerializeError { message: String, offender: String },
    FieldParseError { field_name: String, field_value: String, err: String },
    DatabaseGetError(String),
    ParseError { message: String },
    StoreContractError { message: String, offender: String },
    CodecError { message: String },
    StoreIoError { message: String },
}

/// Grid-square normalization: `None` for input that is rejected (non-ASCII,
/// or a length other than 4 or 6); otherwise a 4-character grid upper-cased
/// wholesale, or a 6-character grid with its field pair upper-cased and its
/// square pair lower-cased.
pub open spec fn spec_grid(s: Seq<char>) -> Option<Seq<char>> {
    if !is_ascii_chars(s) {
        None
    } else if s.len() == 4 {
        Some(s.map_values(|c: char| spec_upper(c)))
    } else if s.len() == 6 {
        Some(
            s.subrange(0, 4).map_values(|c: char| spec_upper(c))
                + s.subrange(4, 6).map_values(|c: char| spec_lower(c)),
        )
    } else {
        None
    }
}

/// Validates and normalizes a Maidenhead grid square per [`spec_grid`];
/// rejection is attributed to the `GRIDSQUARE` field with the raw value.
pub fn prettyvalidate_gridsquare(grid: &String) -> (r: Result<String, Error>)
    ensures
        match spec_grid(grid@) {
            Some(t) => r matches Ok(s) && s@ == t,
            None => r matches Err(e) && (e matches Error::FieldParseError {
                field_name,
                field_value,
                ..
            } && field_name@ == "GRIDSQUARE"@ && field_value@ == grid@),
        },
{
    if !grid.is_ascii() {
        return Err(Error::FieldParseError {
            field_name: String::from_str("GRIDSQUARE"),
            field_value: grid.clone(),
            err: String::from_str("gridsquare is not ASCII"),
        });
    }
    let n = grid.as_str().unicode_len();
    if n == 4 {
        let mut out = String::new();
        let mut i: usize = 0;
        while i < 4
            invariant
                grid@.len() == 4,
                i <= 4,
                out@.len() == i,
                forall|j: int| 0 <= j < i ==> out@[j] == spec_upper(grid@[j]),
            decreases 4 - i,
        {
            let c = upper_char(grid.as_str().get_char(i));
            push_char(&mut out, c);
            i += 1;
        }
        assert(out@ =~= grid@.map_values(|c: char| spec_upper(c)));
        Ok(out)
    } else if n == 6 {
        let mut out = String::new();
        let mut i: usize = 0;
        while i < 4
            invariant
                grid@.len() == 6,
                i <= 4,
                out@.len() == i,
                forall|j: int| 0 <= j < i ==> out@[j] == spec_upper(grid@[j]),
            decreases 4 - i,
        {
            let c = upper_char(grid.as_str().get_char(i));
            push_char(&mut out, c);
            i += 1;
        }
        while i < 6
            invariant
                grid@.len() == 6,
                4 <= i <= 6,
                out@.len() == i,
                forall|j: int| 0 <= j < 4 ==> out@[j] == spec_upper(grid@[j]),
                forall|j: int| 4 <= j < i ==> out@[j] == spec_lower(grid@[j]),
            decreases 6 - i,
        {
            let c = lower_char(grid.as_str().get_char(i));
            push_char(&mut out, c);
            i += 1;
        }
        assert(out@ =~= grid@.subrange(0, 4).map_values(|c: char| spec_upper(c))
            + grid@.subrange(4, 6).map_values(|c: char| spec_lower(c)));
        Ok(out)
    } else {
        Err(Error::FieldParseError {
            field_name: String::from_str("GRIDSQUARE"),
            field_value: grid.clone(),
            err: String::from_str("gridsquare has invalid length"),
        })
    }
}

/// Normalization rejects any input whose length is neither 4 nor 6, and any
/// non-ASCII input, whatever its case.
pub proof fn lemma_grid_rejects_bad_input(s: Seq<char>)
    requires
        (s.len() != 4 && s.len() != 6) || !is_ascii_chars(s),
    ensures
        spec_grid(s) is None,
{
}

/// Case-mapping an ASCII character yields an ASCII character, and mapping a
/// second time changes nothing.
proof fn lemma_upper_ascii(c: char)
    requires
        '\0' <= c <= '\u{7f}',
    ensures
        '\0' <= spec_upper(c) <= '\u{7f}',
        spec_upper(spec_upper(c)) == spec_upper(c),
        spec_lower(spec_lower(c)) == spec_lower(c),
        '\0' <= spec_lower(c) <= '\u{7f}',
{
}

/// Normalization is idempotent: normalizing an already-normalized grid square
/// gives it back unchanged.
pub proof fn lemma_grid_normalize_idempotent(g: Seq<char>, t: Seq<char>)
    requires
        spec_grid(g) == Some(t),
    ensures
        spec_grid(t) == Some(t),
{
    assert forall|i: int| 0 <= i < t.len() implies '\0' <= #[trigger] t[i] <= '\u{7f}' by {
        if g.len() == 4 {
            lemma_upper_ascii(g[i]);
        } else {
            if i < 4 {
                lemma_upper_ascii(g.subrange(0, 4)[i]);
            } else {
                lemma_upper_ascii(g.subrange(4, 6)[i - 4]);
            }
        }
    }
    assert(is_ascii_chars(t));
    if g.len() == 4 {
        let u = t.map_values(|c: char| spec_upper(c));
        assert forall|i: int| 0 <= i < 4 implies u[i] == t[i] by {
            lemma_upper_ascii(g[i]);
        }
        assert(u =~= t);
    } else {
        let u = t.subrange(0, 4).map_values(|c: char| spec_upper(c))
            + t.subrange(4, 6).map_values(|c: char| spec_lower(c));
        assert forall|i: int| 0 <= i < 6 implies u[i] == t[i] by {
            if i < 4 {
                lemma_upper_ascii(g.subrange(0, 4)[i]);
            } else {
                lemma_upper_ascii(g.subrange(4, 6)[i - 4]);
            }
        }
        assert(u =~= t);
    }
}

} // verus!
