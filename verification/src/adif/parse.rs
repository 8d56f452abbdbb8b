//! The tag tokenizer and the file parser for the interchange text.
//!
//! A token is text of the shape `<name:length[:typecode]>value`: `name` is
//! letters or underscores, `length` is decimal digits, `typecode` is one
//! lowercase letter, and `value` runs until the next `<` or a newline, with
//! trailing ASCII whitespace trimmed and at least one character before the
//! trim. A `<` that opens no such shape is passed over; a tag whose length
//! field holds no digits, or digits beyond the machine's range, is a hard
//! parse failure. Keys and type codes are upper-cased on extraction.
use vstd::prelude::*;
use vstd::string::*;
use crate::text::{
    all_digits, digit_val, is_digit_char, lemma_num_val_mono, lemma_num_val_nonneg, num_val,
    push_char, spec_upper, upper_char,
};
use crate::adif::data::{pairs_view, records_view, ADIFFile, ADIFHeader, ADIFRecord, ADIFType,
    SpecValue};
use crate::util::Error;

verus! {

/// The abstract content of one token.
pub struct SpecToken {
    pub key: Seq<char>,
    pub len: int,
    pub ty: Option<char>,
    pub val: Seq<char>,
}

/// One parsed tag: its upper-cased key, declared length, optional upper-cased
/// type code, and raw value.
pub struct Token {
    pub key: String,
    pub len: usize,
    pub ty: Option<char>,
    pub val: String,
}

impl View for Token {
    type V = SpecToken;

    open spec fn view(&self) -> SpecToken {
        SpecToken { key: self.key@, len: self.len as int, ty: self.ty, val: self.val@ }
    }
}

pub open spec fn tokens_view(v: Seq<Token>) -> Seq<SpecToken> {
    v.map_values(|t: Token| t@)
}

pub open spec fn is_name_char(c: char) -> bool {
    ('A' <= c <= 'Z') || ('a' <= c <= 'z') || c == '_'
}

pub open spec fn is_lower_alpha(c: char) -> bool {
    'a' <= c <= 'z'
}

/// A character a value may hold: anything but a tag opener or a newline.
pub open spec fn is_value_char(c: char) -> bool {
    c != '<' && c != '\n'
}

/// The whitespace trimmed from the end of a value. This is deliberately the
/// ASCII whitespace set only: exotic Unicode whitespace (a no-break space, a
/// vertical tab) stays part of the value rather than being guessed at.
pub open spec fn is_ws_char(c: char) -> bool {
    c == ' ' || c == '\t' || c == '\r' || c == '\n' || c == '\u{c}'
}

/// The position right after the maximal run of name characters from `j`.
pub open spec fn name_run_end(s: Seq<char>, j: int) -> int
    decreases s.len() - j,
{
    if j < 0 || j >= s.len() || !is_name_char(s[j]) {
        j
    } else {
        name_run_end(s, j + 1)
    }
}

/// The position right after the maximal run of digits from `j`.
pub open spec fn digit_run_end(s: Seq<char>, j: int) -> int
    decreases s.len() - j,
{
    if j < 0 || j >= s.len() || !is_digit_char(s[j]) {
        j
    } else {
        digit_run_end(s, j + 1)
    }
}

/// The position right after the maximal run of value characters from `j`.
pub open spec fn value_run_end(s: Seq<char>, j: int) -> int
    decreases s.len() - j,
{
    if j < 0 || j >= s.len() || !is_value_char(s[j]) {
        j
    } else {
        value_run_end(s, j + 1)
    }
}

/// The end of `s[a..b]` once trailing whitespace is dropped.
pub open spec fn trim_back(s: Seq<char>, a: int, b: int) -> int
    decreases b,
{
    if b <= a || b <= 0 || b > s.len() || !is_ws_char(s[b - 1]) {
        b
    } else {
        trim_back(s, a, b - 1)
    }
}

/// What an attempt to read a tag at a `<` yields: no tag at all (scanning
/// passes over the `<`), a malformed length (a hard failure), or a token
/// together with the position right after its value.
pub enum TagTry {
    NotTag,
    BadLen,
    Tag(SpecToken, int),
}

pub open spec fn spec_value_part(
    s: Seq<char>,
    i: int,
    ke: int,
    de: int,
    tc: Option<char>,
    vstart: int,
) -> TagTry {
    let vend = value_run_end(s, vstart);
    if vend == vstart {
        TagTry::NotTag
    } else {
        TagTry::Tag(
            SpecToken {
                key: s.subrange(i + 1, ke).map_values(|c: char| spec_upper(c)),
                len: num_val(s, ke + 1, de),
                ty: tc,
                val: s.subrange(vstart, trim_back(s, vstart, vend)),
            },
            vend,
        )
    }
}

/// Reads the tag opened by the `<` at position `i`.
pub open spec fn spec_try_tag(s: Seq<char>, i: int) -> TagTry {
    let ke = name_run_end(s, i + 1);
    if ke == i + 1 || ke >= s.len() || s[ke] != ':' {
        TagTry::NotTag
    } else {
        let ds = ke + 1;
        let de = digit_run_end(s, ds);
        if de == ds || num_val(s, ds, de) > usize::MAX as int {
            TagTry::BadLen
        } else if de < s.len() && s[de] == '>' {
            spec_value_part(s, i, ke, de, None, de + 1)
        } else if de + 2 < s.len() && s[de] == ':' && is_lower_alpha(s[de + 1]) && s[de + 2]
            == '>' {
            spec_value_part(s, i, ke, de, Some(spec_upper(s[de + 1])), de + 3)
        } else {
            TagTry::NotTag
        }
    }
}

/// The tokens of `s` from position `i` on, in textual order, or a hard
/// failure on a malformed length.
pub open spec fn spec_scan_from(s: Seq<char>, i: int) -> Result<Seq<SpecToken>, ()>
    decreases s.len() - i,
{
    if i >= s.len() {
        Ok(Seq::empty())
    } else if s[i] != '<' {
        spec_scan_from(s, i + 1)
    } else {
        match spec_try_tag(s, i) {
            TagTry::NotTag => spec_scan_from(s, i + 1),
            TagTry::BadLen => Err(()),
            TagTry::Tag(t, next) => if i < next <= s.len() {
                match spec_scan_from(s, next) {
                    Ok(rest) => Ok(seq![t] + rest),
                    Err(e) => Err(e),
                }
            } else {
                Err(())
            },
        }
    }
}

/// The tokens of the whole text.
pub open spec fn spec_scan(s: Seq<char>) -> Result<Seq<SpecToken>, ()> {
    spec_scan_from(s, 0)
}

pub open spec fn prepend_toks(ts: Seq<SpecToken>, r: Result<Seq<SpecToken>, ()>) -> Result<
    Seq<SpecToken>,
    (),
> {
    match r {
        Ok(rest) => Ok(ts + rest),
        Err(e) => Err(e),
    }
}

/// The characters of a string slice, in order.
fn chars_of(data: &str) -> (r: Vec<char>)
    ensures
        r@ == data@,
{
    let n = data.unicode_len();
    let mut out: Vec<char> = Vec::new();
    let mut i: usize = 0;
    while i < n
        invariant
            n == data@.len(),
            i <= n,
            out@ == data@.subrange(0, i as int),
        decreases n - i,
    {
        out.push(data.get_char(i));
        assert(out@ =~= data@.subrange(0, i + 1));
        i += 1;
    }
    assert(data@.subrange(0, n as int) =~= data@);
    out
}

/// The characters `cs[a..b]` as a string.
fn string_from_range(cs: &Vec<char>, a: usize, b: usize) -> (r: String)
    requires
        a <= b <= cs@.len(),
    ensures
        r@ == cs@.subrange(a as int, b as int),
{
    let mut out = String::new();
    let mut i: usize = a;
    while i < b
        invariant
            a <= i <= b <= cs@.len(),
            out@ == cs@.subrange(a as int, i as int),
        decreases b - i,
    {
        push_char(&mut out, cs[i]);
        assert(out@ =~= cs@.subrange(a as int, i + 1));
        i += 1;
    }
    out
}

/// The characters `cs[a..b]` upper-cased, as a string.
fn upper_string_from_range(cs: &Vec<char>, a: usize, b: usize) -> (r: String)
    requires
        a <= b <= cs@.len(),
    ensures
        r@ == cs@.subrange(a as int, b as int).map_values(|c: char| spec_upper(c)),
{
    let mut out = String::new();
    let mut i: usize = a;
    while i < b
        invariant
            a <= i <= b <= cs@.len(),
            out@ == cs@.subrange(a as int, i as int).map_values(|c: char| spec_upper(c)),
        decreases b - i,
    {
        let u = upper_char(cs[i]);
        push_char(&mut out, u);
        assert(out@ =~= cs@.subrange(a as int, i + 1).map_values(|c: char| spec_upper(c)));
        i += 1;
    }
    out
}

fn is_name_char_exec(c: char) -> (b: bool)
    ensures
        b == is_name_char(c),
{
    let u = c as u32;
    (65 <= u && u <= 90) || (97 <= u && u <= 122) || u == 95
}

fn is_value_char_exec(c: char) -> (b: bool)
    ensures
        b == is_value_char(c),
{
    let u = c as u32;
    u != 60 && u != 10
}

fn is_ws_char_exec(c: char) -> (b: bool)
    ensures
        b == is_ws_char(c),
{
    let u = c as u32;
    u == 32 || u == 9 || u == 13 || u == 10 || u == 12
}

/// The end of `cs[a..b]` once trailing whitespace is dropped.
fn trim_end_pos(cs: &Vec<char>, a: usize, b: usize) -> (r: usize)
    requires
        a <= b <= cs@.len(),
    ensures
        a <= r <= b,
        r == trim_back(cs@, a as int, b as int),
{
    let mut te: usize = b;
    loop
        invariant
            a <= te <= b <= cs@.len(),
            trim_back(cs@, a as int, b as int) == trim_back(cs@, a as int, te as int),
        decreases te,
    {
        if te == a {
            assert(trim_back(cs@, a as int, te as int) == te);
            return te;
        }
        if !is_ws_char_exec(cs[te - 1]) {
            assert(trim_back(cs@, a as int, te as int) == te);
            return te;
        }
        assert(trim_back(cs@, a as int, te as int) == trim_back(cs@, a as int, te - 1));
        te -= 1;
    }
}

fn is_digit_char_exec(c: char) -> (b: bool)
    ensures
        b == is_digit_char(c),
{
    let u = c as u32;
    48 <= u && u <= 57
}

fn is_lower_alpha_exec(c: char) -> (b: bool)
    ensures
        b == is_lower_alpha(c),
{
    let u = c as u32;
    97 <= u && u <= 122
}

/// Scans `cs` for tokens; fails exactly where [`spec_scan`] does.
fn scan_chars(cs: &Vec<char>) -> (r: Result<Vec<Token>, Error>)
    ensures
        match spec_scan(cs@) {
            Ok(ts) => r matches Ok(v) && tokens_view(v@) == ts,
            Err(_) => r matches Err(e) && e is ParseError,
        },
{
    let ghost s = cs@;
    let n = cs.len();
    let mut out: Vec<Token> = Vec::new();
    let mut i: usize = 0;
    while i < n
        invariant
            n == s.len(),
            s == cs@,
            i <= n,
            prepend_toks(tokens_view(out@), spec_scan_from(s, i as int)) == spec_scan(s),
        decreases n - i,
    {
        let ghost i0 = i as int;
        if cs[i] != '<' {
            assert(spec_scan_from(s, i0) == spec_scan_from(s, i0 + 1));
            i += 1;
            continue ;
        }
        // name run
        let mut j: usize = i + 1;
        while j < n && is_name_char_exec(cs[j])
            invariant
                i + 1 <= j <= n,
                n == s.len(),
                s == cs@,
                name_run_end(s, i0 + 1) == name_run_end(s, j as int),
            decreases n - j,
        {
            assert(name_run_end(s, j as int) == name_run_end(s, j + 1));
            j += 1;
        }
        assert(name_run_end(s, j as int) == j);
        let ke = j;
        if ke == i + 1 || ke == n || cs[ke] != ':' {
            assert(spec_try_tag(s, i0) is NotTag);
            assert(spec_scan_from(s, i0) == spec_scan_from(s, i0 + 1));
            i += 1;
            continue ;
        }
        // digit run
        let ds = ke + 1;
        let mut j2: usize = ds;
        while j2 < n && is_digit_char_exec(cs[j2])
            invariant
                ds <= j2 <= n,
                n == s.len(),
                s == cs@,
                digit_run_end(s, ds as int) == digit_run_end(s, j2 as int),
                all_digits(s, ds as int, j2 as int),
            decreases n - j2,
        {
            assert(digit_run_end(s, j2 as int) == digit_run_end(s, j2 + 1));
            assert(all_digits(s, ds as int, j2 + 1));
            j2 += 1;
        }
        assert(digit_run_end(s, j2 as int) == j2);
        let de = j2;
        if de == ds {
            assert(spec_try_tag(s, i0) is BadLen);
            assert(spec_scan_from(s, i0) is Err);
            return Err(Error::ParseError {
                message: String::from_str("tag length field holds no digits"),
            });
        }
        // length value, with its machine bound
        let mut acc: usize = 0;
        let mut j3: usize = ds;
        let mut overflowed = false;
        while j3 < de
            invariant
                ds <= j3 <= de <= n,
                n == s.len(),
                s == cs@,
                all_digits(s, ds as int, de as int),
                !overflowed ==> acc == num_val(s, ds as int, j3 as int),
                overflowed ==> num_val(s, ds as int, j3 as int) > usize::MAX as int,
            decreases de - j3,
        {
            let d = (cs[j3] as u32 - 48) as usize;
            proof {
                lemma_num_val_nonneg(s, ds as int, j3 as int);
            }
            if !overflowed {
                if acc > (usize::MAX - d) / 10 {
                    proof {
                        let a0 = acc as int;
                        let m = usize::MAX as int;
                        assert(a0 * 10 + d > m) by (nonlinear_arith)
                            requires
                                a0 > (m - d) / 10,
                                0 <= d <= 9,
                                m > 100,
                                a0 >= 0,
                        ;
                    }
                    overflowed = true;
                } else {
                    proof {
                        let a0 = acc as int;
                        let m = usize::MAX as int;
                        assert(a0 * 10 + d <= m) by (nonlinear_arith)
                            requires
                                a0 <= (m - d) / 10,
                                0 <= d <= 9,
                                m > 100,
                                a0 >= 0,
                        ;
                    }
                    acc = acc * 10 + d;
                }
            } else {
                proof {
                    lemma_num_val_nonneg(s, ds as int, j3 as int);
                    assert(num_val(s, ds as int, j3 + 1) == num_val(s, ds as int, j3 as int) * 10
                        + digit_val(s[j3 as int]));
                    assert(num_val(s, ds as int, j3 as int) * 10 >= num_val(s, ds as int, j3 as int))
                        by (nonlinear_arith)
                        requires
                            num_val(s, ds as int, j3 as int) >= 0,
                    ;
                }
            }
            j3 += 1;
        }
        if overflowed {
            assert(num_val(s, ds as int, de as int) > usize::MAX as int);
            assert(spec_try_tag(s, i0) is BadLen);
            assert(spec_scan_from(s, i0) is Err);
            return Err(Error::ParseError {
                message: String::from_str("tag length field is out of range"),
            });
        }
        assert(num_val(s, ds as int, de as int) <= usize::MAX as int);
        // optional type code, then the closing angle
        let tc: Option<char>;
        let vstart: usize;
        if de < n && cs[de] == '>' {
            tc = None;
            vstart = de + 1;
        } else if n - de > 2 && cs[de] == ':' && is_lower_alpha_exec(cs[de + 1]) && cs[de + 2]
            == '>' {
            tc = Some(upper_char(cs[de + 1]));
            vstart = de + 3;
        } else {
            assert(spec_try_tag(s, i0) is NotTag);
            assert(spec_scan_from(s, i0) == spec_scan_from(s, i0 + 1));
            i += 1;
            continue ;
        }
        // value run
        let mut j4: usize = vstart;
        while j4 < n && is_value_char_exec(cs[j4])
            invariant
                vstart <= j4 <= n,
                n == s.len(),
                s == cs@,
                value_run_end(s, vstart as int) == value_run_end(s, j4 as int),
            decreases n - j4,
        {
            assert(value_run_end(s, j4 as int) == value_run_end(s, j4 + 1));
            j4 += 1;
        }
        assert(value_run_end(s, j4 as int) == j4);
        let ve = j4;
        if ve == vstart {
            assert(spec_try_tag(s, i0) is NotTag);
            assert(spec_scan_from(s, i0) == spec_scan_from(s, i0 + 1));
            i += 1;
            continue ;
        }
        // trailing whitespace
        let te = trim_end_pos(cs, vstart, ve);
        let tok = Token {
            key: upper_string_from_range(cs, i + 1, ke),
            len: acc,
            ty: tc,
            val: string_from_range(cs, vstart, te),
        };
        proof {
            assert(spec_try_tag(s, i0) == TagTry::Tag(tok@, ve as int));
            assert(spec_scan_from(s, i0) == prepend_toks(
                seq![tok@],
                spec_scan_from(s, ve as int),
            ));
        }
        let ghost old_out = out@;
        out.push(tok);
        proof {
            assert(tokens_view(out@) =~= tokens_view(old_out) + seq![tok@]);
            if spec_scan_from(s, ve as int) is Ok {
                assert(tokens_view(old_out) + (seq![tok@] + spec_scan_from(
                    s,
                    ve as int,
                )->Ok_0) =~= tokens_view(out@) + spec_scan_from(s, ve as int)->Ok_0);
            }
        }
        i = ve;
    }
    assert(spec_scan_from(s, i as int) == Ok::<Seq<SpecToken>, ()>(Seq::empty()));
    assert(tokens_view(out@) + Seq::<SpecToken>::empty() =~= tokens_view(out@));
    Ok(out)
}

/// Tokenizes the raw text, in textual order; a malformed tag length is a
/// hard failure.
pub fn parse_tokens(data: &str) -> (r: Result<Vec<Token>, Error>)
    ensures
        match spec_scan(data@) {
            Ok(ts) => r matches Ok(v) && tokens_view(v@) == ts,
            Err(_) => r matches Err(e) && e is ParseError,
        },
{
    let cs = chars_of(data);
    scan_chars(&cs)
}

/// Each token as an ordered (key, text value) pair.
pub open spec fn toks_pairs(ts: Seq<SpecToken>) -> Seq<(Seq<char>, SpecValue)> {
    ts.map_values(|t: SpecToken| (t.key, SpecValue::Text(t.val)))
}

/// Folds tokens into an ordered field list; every token becomes a text
/// value, whatever its type code. Duplicate keys are all kept in order.
pub fn build_token_list(tokens: Vec<Token>) -> (r: Vec<(String, ADIFType)>)
    ensures
        pairs_view(r@) == toks_pairs(tokens_view(tokens@)),
{
    let mut tuples: Vec<(String, ADIFType)> = Vec::new();
    let n = tokens.len();
    let mut i: usize = 0;
    while i < n
        invariant
            n == tokens@.len(),
            i <= n,
            tuples@.len() == i,
            forall|j: int|
                0 <= j < i ==> (#[trigger] tuples@[j]).0@ == tokens@[j]@.key && tuples@[j].1@
                    == SpecValue::Text(tokens@[j]@.val),
        decreases n - i,
    {
        let t = &tokens[i];
        tuples.push((t.key.clone(), ADIFType::Str(t.val.clone())));
        i += 1;
    }
    proof {
        assert forall|j: int| 0 <= j < n implies pairs_view(tuples@)[j] == toks_pairs(
            tokens_view(tokens@),
        )[j] by {
            assert(tuples@[j].0@ == tokens@[j]@.key);
        }
        assert(pairs_view(tuples@) =~~= toks_pairs(tokens_view(tokens@)));
    }
    tuples
}

/// A five-character sentinel `<EOx>`; `c3` distinguishes header from record.
pub open spec fn sent_pat(c3: char) -> Seq<char> {
    seq!['<', 'E', 'O', c3, '>']
}

pub open spec fn eoh_pat() -> Seq<char> {
    sent_pat('H')
}

pub open spec fn eor_pat() -> Seq<char> {
    sent_pat('R')
}

/// The sentinel stands at `i`, compared case-insensitively.
pub open spec fn is_sent_at(s: Seq<char>, i: int, pat: Seq<char>) -> bool {
    &&& 0 <= i
    &&& i + pat.len() <= s.len()
    &&& forall|j: int| 0 <= j < pat.len() ==> spec_upper(s[i + j]) == pat[j]
}

/// The first position at or after `i` where the sentinel stands, or -1.
pub open spec fn first_occ(s: Seq<char>, i: int, pat: Seq<char>) -> int
    decreases s.len() - i,
{
    if i < 0 || i + pat.len() > s.len() {
        -1
    } else if is_sent_at(s, i, pat) {
        i
    } else {
        first_occ(s, i + 1, pat)
    }
}

fn sent5_at(cs: &Vec<char>, k: usize, c3: char) -> (b: bool)
    requires
        k <= cs@.len(),
        c3 == 'H' || c3 == 'R',
    ensures
        b == is_sent_at(cs@, k as int, sent_pat(c3)),
{
    if cs.len() - k < 5 {
        return false;
    }
    let b = upper_char(cs[k]) == '<' && upper_char(cs[k + 1]) == 'E' && upper_char(cs[k + 2])
        == 'O' && upper_char(cs[k + 3]) == c3 && upper_char(cs[k + 4]) == '>';
    proof {
        let s = cs@;
        let p = sent_pat(c3);
        if b {
            assert forall|j: int| 0 <= j < p.len() implies spec_upper(s[k as int + j]) == p[j] by {
                if j == 0 {
                } else if j == 1 {
                } else if j == 2 {
                } else if j == 3 {
                } else {
                    assert(j == 4);
                }
            }
            assert(is_sent_at(s, k as int, p));
        } else {
            assert(!is_sent_at(s, k as int, p));
        }
    }
    b
}

fn find_sent5(cs: &Vec<char>, from: usize, c3: char) -> (r: Option<usize>)
    requires
        from <= cs@.len(),
        c3 == 'H' || c3 == 'R',
    ensures
        match r {
            Some(k) => from <= k && k + 5 <= cs@.len() && first_occ(
                cs@,
                from as int,
                sent_pat(c3),
            ) == k && is_sent_at(cs@, k as int, sent_pat(c3)),
            None => first_occ(cs@, from as int, sent_pat(c3)) == -1,
        },
{
    let ghost s = cs@;
    let n = cs.len();
    let mut i: usize = from;
    while i <= n && n - i >= 5
        invariant
            from <= i <= n,
            n == s.len(),
            s == cs@,
            c3 == 'H' || c3 == 'R',
            first_occ(s, from as int, sent_pat(c3)) == first_occ(s, i as int, sent_pat(c3)),
        decreases n - i,
    {
        if sent5_at(cs, i, c3) {
            assert(first_occ(s, i as int, sent_pat(c3)) == i);
            return Some(i);
        }
        assert(first_occ(s, i as int, sent_pat(c3)) == first_occ(s, i + 1, sent_pat(c3)));
        i += 1;
    }
    assert(first_occ(s, i as int, sent_pat(c3)) == -1);
    None
}

/// The characters `cs[a..b]`, copied out.
fn vec_from_range(cs: &Vec<char>, a: usize, b: usize) -> (r: Vec<char>)
    requires
        a <= b <= cs@.len(),
    ensures
        r@ == cs@.subrange(a as int, b as int),
{
    let mut out: Vec<char> = Vec::new();
    let mut i: usize = a;
    while i < b
        invariant
            a <= i <= b <= cs@.len(),
            out@ == cs@.subrange(a as int, i as int),
        decreases b - i,
    {
        out.push(cs[i]);
        assert(out@ =~= cs@.subrange(a as int, i + 1));
        i += 1;
    }
    out
}

/// The records after the header: the text split on each `<EOR>` sentinel
/// (case-insensitive), a trailing unterminated chunk kept unless empty, and
/// each chunk tokenized.
pub open spec fn spec_records_from(s: Seq<char>, i: int) -> Result<Seq<Seq<SpecToken>>, ()>
    decreases s.len() - i,
{
    let e = first_occ(s, i, eor_pat());
    if e < 0 {
        if i >= s.len() {
            Ok(Seq::empty())
        } else {
            match spec_scan_from(s.subrange(i, s.len() as int), 0) {
                Ok(ts) => Ok(seq![ts]),
                Err(_) => Err(()),
            }
        }
    } else if i <= e && e + 5 <= s.len() {
        match spec_scan_from(s.subrange(i, e), 0) {
            Ok(ts) => match spec_records_from(s, e + 5) {
                Ok(rs) => Ok(seq![ts] + rs),
                Err(x) => Err(x),
            },
            Err(_) => Err(()),
        }
    } else {
        Err(())
    }
}

/// A parsed file: the text before the single `<EOH>` sentinel tokenized as
/// the header, everything after it split into records. Zero or several
/// header sentinels, or a malformed tag length, is a failure.
pub open spec fn spec_parse_file(s: Seq<char>) -> Result<
    (Seq<(Seq<char>, SpecValue)>, Seq<Seq<(Seq<char>, SpecValue)>>),
    (),
> {
    let h = first_occ(s, 0, eoh_pat());
    if h < 0 {
        Err(())
    } else if first_occ(s, h + 5, eoh_pat()) >= 0 {
        Err(())
    } else {
        match spec_scan_from(s.subrange(0, h), 0) {
            Ok(hts) => match spec_records_from(s, h + 5) {
                Ok(rss) => Ok(
                    (toks_pairs(hts), rss.map_values(|ts: Seq<SpecToken>| toks_pairs(ts))),
                ),
                Err(_) => Err(()),
            },
            Err(_) => Err(()),
        }
    }
}

/// Parses the records after the header, from `start` on.
fn parse_records(cs: &Vec<char>, start: usize) -> (r: Result<Vec<ADIFRecord>, Error>)
    requires
        start <= cs@.len(),
    ensures
        match spec_records_from(cs@, start as int) {
            Ok(rss) => r matches Ok(v) && records_view(v@) == rss.map_values(
                |ts: Seq<SpecToken>| toks_pairs(ts),
            ),
            Err(_) => r matches Err(e) && e is ParseError,
        },
{
    let ghost s = cs@;
    let n = cs.len();
    let mut body: Vec<ADIFRecord> = Vec::new();
    let ghost mut rts: Seq<Seq<SpecToken>> = Seq::empty();
    let mut i: usize = start;
    loop
        invariant
            start <= i <= n,
            n == s.len(),
            s == cs@,
            body@.len() == rts.len(),
            forall|j: int| 0 <= j < rts.len() ==> (#[trigger] body@[j])@ == toks_pairs(rts[j]),
            match spec_records_from(s, i as int) {
                Ok(rest) => spec_records_from(s, start as int) == Ok::<Seq<Seq<SpecToken>>, ()>(
                    rts + rest,
                ),
                Err(_) => spec_records_from(s, start as int) is Err,
            },
        decreases n - i,
    {
        match find_sent5(&cs, i, 'R') {
            Some(e) => {
                let chunk = vec_from_range(&cs, i, e);
                match scan_chars(&chunk) {
                    Ok(ts) => {
                        let rec = ADIFRecord(build_token_list(ts));
                        proof {
                            assert(rec@ == toks_pairs(tokens_view(ts@)));
                        }
                        body.push(rec);
                        proof {
                            let tsv = tokens_view(ts@);
                            let rest0 = spec_records_from(s, e + 5);
                            assert(spec_records_from(s, i as int) == (match rest0 {
                                Ok(rs) => Ok::<Seq<Seq<SpecToken>>, ()>(seq![tsv] + rs),
                                Err(x) => Err(x),
                            }));
                            if rest0 is Ok {
                                assert(rts + (seq![tsv] + rest0->Ok_0) =~= (rts.push(tsv))
                                    + rest0->Ok_0);
                            }
                            rts = rts.push(tsv);
                        }
                        i = e + 5;
                    },
                    Err(er) => {
                        assert(spec_records_from(s, i as int) is Err);
                        return Err(er);
                    },
                }
            },
            None => {
                if i == n {
                    proof {
                        assert(spec_records_from(s, i as int) == Ok::<Seq<Seq<SpecToken>>, ()>(
                            Seq::empty(),
                        ));
                        assert(rts + Seq::<Seq<SpecToken>>::empty() =~= rts);
                        assert(records_view(body@) =~~= rts.map_values(
                            |ts: Seq<SpecToken>| toks_pairs(ts),
                        ));
                    }
                    return Ok(body);
                }
                let chunk = vec_from_range(&cs, i, n);
                match scan_chars(&chunk) {
                    Ok(ts) => {
                        let rec = ADIFRecord(build_token_list(ts));
                        body.push(rec);
                        proof {
                            let tsv = tokens_view(ts@);
                            assert(chunk@ == s.subrange(i as int, s.len() as int));
                            assert(spec_records_from(s, i as int) == Ok::<Seq<Seq<SpecToken>>, ()>(
                                seq![tsv],
                            ));
                            assert(rts + seq![tsv] =~= rts.push(tsv));
                            rts = rts.push(tsv);
                            assert(records_view(body@) =~~= rts.map_values(
                                |ts: Seq<SpecToken>| toks_pairs(ts),
                            ));
                        }
                        return Ok(body);
                    },
                    Err(er) => {
                        assert(spec_records_from(s, i as int) is Err);
                        return Err(er);
                    },
                }
            },
        }
    }
}

/// Parses interchange text into a file; fails exactly where
/// [`spec_parse_file`] does, always with a `ParseError`.
pub fn parse_adif(data: &str) -> (r: Result<ADIFFile, Error>)
    ensures
        match spec_parse_file(data@) {
            Ok(m) => r matches Ok(f) && f.header@ == m.0 && records_view(f.body@) == m.1,
            Err(_) => r matches Err(e) && e is ParseError,
        },
{
    let cs = chars_of(data);
    let ghost s = cs@;
    let n = cs.len();
    let h = match find_sent5(&cs, 0, 'H') {
        Some(h) => h,
        None => {
            return Err(Error::ParseError {
                message: String::from_str("expected exactly one header terminator"),
            });
        },
    };
    if find_sent5(&cs, h + 5, 'H').is_some() {
        return Err(Error::ParseError {
            message: String::from_str("expected exactly one header terminator"),
        });
    }
    let head = vec_from_range(&cs, 0, h);
    let htoks = match scan_chars(&head) {
        Ok(t) => t,
        Err(e) => {
            return Err(e);
        },
    };
    let ghost hview = tokens_view(htoks@);
    let header = ADIFHeader(build_token_list(htoks));
    match parse_records(&cs, h + 5) {
        Ok(body) => {
            proof {
                let rss = spec_records_from(s, h + 5)->Ok_0;
                assert(spec_parse_file(s) == Ok::<
                    (Seq<(Seq<char>, SpecValue)>, Seq<Seq<(Seq<char>, SpecValue)>>),
                    (),
                >((toks_pairs(hview), rss.map_values(|ts: Seq<SpecToken>| toks_pairs(ts)))));
            }
            Ok(ADIFFile { header, body })
        },
        Err(e) => {
            assert(spec_parse_file(s) is Err);
            Err(e)
        },
    }
}

} // verus!
