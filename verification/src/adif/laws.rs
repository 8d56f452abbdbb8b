//! The round-trip law: parsing a serialized file reproduces its ordered
//! (key, value) pairs, in the header and in every record.
use vstd::prelude::*;
use vstd::utf8::encode_utf8;
use crate::adif::data::{
    banner_time_ok, spec_banner, spec_file_chars, spec_header_chars, spec_norm_name,
    spec_pair_chars, spec_pairs_joined, spec_record_chars, spec_records_joined, spec_tag_chars,
    SpecValue,
};
use crate::adif::parse::{
    digit_run_end, eoh_pat, eor_pat, first_occ, is_name_char, is_sent_at, is_value_char,
    is_ws_char, name_run_end, prepend_toks, sent_pat, spec_parse_file, spec_records_from,
    spec_scan_from, spec_try_tag, spec_value_part, toks_pairs, trim_back, value_run_end,
    SpecToken, TagTry,
};
use crate::text::{dec_digits, digit_char, digit_val, is_digit_char, num_val, spec_upper};

verus! {

/// A key that serializes to itself: non-empty, upper-case letters and
/// underscores.
pub open spec fn key_ok(k: Seq<char>) -> bool {
    k.len() > 0 && forall|i: int|
        0 <= i < k.len() ==> (('A' <= #[trigger] k[i] <= 'Z') || k[i] == '_')
}

/// A value the tokenizer reads back exactly: non-empty, free of `<` and
/// newlines, not ending in whitespace, and of machine-representable byte
/// length.
pub open spec fn val_ok(v: Seq<char>) -> bool {
    &&& v.len() > 0
    &&& forall|i: int| 0 <= i < v.len() ==> is_value_char(#[trigger] v[i])
    &&& !is_ws_char(v.last())
    &&& encode_utf8(v).len() <= usize::MAX
}

pub open spec fn pair_ok(p: (Seq<char>, SpecValue)) -> bool {
    p.1 is Text && key_ok(p.0) && val_ok(p.1->Text_0)
}

pub open spec fn pairs_ok(ps: Seq<(Seq<char>, SpecValue)>) -> bool {
    forall|i: int| 0 <= i < ps.len() ==> pair_ok(#[trigger] ps[i])
}

pub open spec fn recs_ok(rs: Seq<Seq<(Seq<char>, SpecValue)>>) -> bool {
    forall|i: int| 0 <= i < rs.len() ==> pairs_ok(#[trigger] rs[i])
}

/// The token a well-formed pair serializes to.
pub open spec fn pair_token(p: (Seq<char>, SpecValue)) -> SpecToken {
    SpecToken {
        key: p.0,
        len: encode_utf8(p.1->Text_0).len() as int,
        ty: None,
        val: p.1->Text_0,
    }
}

pub open spec fn pair_tokens(ps: Seq<(Seq<char>, SpecValue)>) -> Seq<SpecToken> {
    ps.map_values(|p: (Seq<char>, SpecValue)| pair_token(p))
}

/// Upper-casing hits the serializer's structural characters only from
/// themselves.
proof fn lemma_upper_shape(c: char)
    ensures
        spec_upper(c) == '<' ==> c == '<',
        spec_upper(c) == '>' ==> c == '>',
        spec_upper(c) == ':' ==> c == ':',
        spec_upper(c) == '\n' ==> c == '\n',
        ('A' <= c <= 'Z' || c == '_') ==> spec_upper(c) == c && is_name_char(c),
        is_digit_char(c) ==> spec_upper(c) == c,
{
}

/// A well-formed key is its own normalized form, twice over.
proof fn lemma_norm_fixed(k: Seq<char>)
    requires
        key_ok(k),
    ensures
        spec_norm_name(k) == k,
        k.map_values(|c: char| spec_upper(c)) == k,
{
    assert forall|i: int| 0 <= i < k.len() implies spec_norm_name(k)[i] == k[i] by {
        lemma_upper_shape(k[i]);
    }
    assert(spec_norm_name(k) =~= k);
    assert forall|i: int| 0 <= i < k.len() implies k.map_values(|c: char| spec_upper(c))[i]
        == k[i] by {
        lemma_upper_shape(k[i]);
    }
    assert(k.map_values(|c: char| spec_upper(c)) =~= k);
}

/// The decimal rendering of a number holds only digits.
proof fn lemma_dec_digits_are_digits(n: nat)
    ensures
        dec_digits(n).len() >= 1,
        forall|i: int| 0 <= i < dec_digits(n).len() ==> is_digit_char(#[trigger] dec_digits(n)[i]),
    decreases n,
{
    if n >= 10 {
        lemma_dec_digits_are_digits(n / 10);
        assert forall|i: int| 0 <= i < dec_digits(n).len() implies is_digit_char(
            #[trigger] dec_digits(n)[i],
        ) by {
            if i < dec_digits(n).len() - 1 {
                assert(dec_digits(n)[i] == dec_digits(n / 10)[i]);
            } else {
                assert(dec_digits(n)[i] == digit_char((n % 10) as int));
            }
        }
    }
}

/// Reading back a decimal rendering yields the number.
proof fn lemma_num_val_of_dec(s: Seq<char>, a: int, n: nat)
    requires
        0 <= a,
        a + dec_digits(n).len() <= s.len(),
        s.subrange(a, a + dec_digits(n).len()) == dec_digits(n),
    ensures
        num_val(s, a, a + dec_digits(n).len()) == n,
    decreases n,
{
    let d = dec_digits(n);
    if n < 10 {
        assert(s[a] == d[0]);
        assert(num_val(s, a, a) == 0);
        assert(num_val(s, a, a + 1) == num_val(s, a, a) * 10 + digit_val(s[a]));
        assert(digit_val(digit_char(n as int)) == n);
    } else {
        let d2 = dec_digits(n / 10);
        assert(d =~= d2.push(digit_char((n % 10) as int)));
        assert(s.subrange(a, a + d2.len()) =~= d2);
        lemma_num_val_of_dec(s, a, n / 10);
        assert(s[a + d.len() - 1] == d[d.len() - 1]);
        assert(num_val(s, a, a + d.len()) == num_val(s, a, a + d.len() - 1) * 10 + digit_val(
            s[a + d.len() - 1],
        ));
    }
}

/// Scanning passes over a region without tag openers.
proof fn lemma_scan_skip(s: Seq<char>, i: int, j: int)
    requires
        0 <= i <= j <= s.len(),
        forall|l: int| i <= l < j ==> s[l] != '<',
    ensures
        spec_scan_from(s, i) == spec_scan_from(s, j),
    decreases j - i,
{
    if i < j {
        lemma_scan_skip(s, i + 1, j);
    }
}

/// A name run ends exactly where the name characters stop.
proof fn lemma_run_name(s: Seq<char>, j: int, e: int)
    requires
        0 <= j <= e <= s.len(),
        forall|l: int| j <= l < e ==> is_name_char(#[trigger] s[l]),
        e == s.len() || !is_name_char(s[e]),
    ensures
        name_run_end(s, j) == e,
    decreases e - j,
{
    if j < e {
        lemma_run_name(s, j + 1, e);
    }
}

/// A digit run ends exactly where the digits stop.
proof fn lemma_run_digits(s: Seq<char>, j: int, e: int)
    requires
        0 <= j <= e <= s.len(),
        forall|l: int| j <= l < e ==> is_digit_char(#[trigger] s[l]),
        e == s.len() || !is_digit_char(s[e]),
    ensures
        digit_run_end(s, j) == e,
    decreases e - j,
{
    if j < e {
        lemma_run_digits(s, j + 1, e);
    }
}

/// A value run ends exactly where the value characters stop.
proof fn lemma_run_value(s: Seq<char>, j: int, e: int)
    requires
        0 <= j <= e <= s.len(),
        forall|l: int| j <= l < e ==> is_value_char(#[trigger] s[l]),
        e == s.len() || !is_value_char(s[e]),
    ensures
        value_run_end(s, j) == e,
    decreases e - j,
{
    if j < e {
        lemma_run_value(s, j + 1, e);
    }
}

/// Scanning at a serialized tag reads exactly its token, stopping right
/// after the value.
proof fn lemma_scan_tag(s: Seq<char>, i: int, k: Seq<char>, v: Seq<char>)
    requires
        0 <= i,
        key_ok(k),
        val_ok(v),
        i + spec_tag_chars(k, v).len() <= s.len(),
        s.subrange(i, i + spec_tag_chars(k, v).len()) == spec_tag_chars(k, v),
        ({
            let e = i + spec_tag_chars(k, v).len();
            e == s.len() || s[e] == '<' || s[e] == '\n'
        }),
    ensures
        spec_try_tag(s, i) == TagTry::Tag(
            pair_token((k, SpecValue::Text(v))),
            i + spec_tag_chars(k, v).len(),
        ),
{
    let t = spec_tag_chars(k, v);
    let tl = t.len() as int;
    let kl = k.len() as int;
    let n: nat = encode_utf8(v).len();
    let d = dec_digits(n);
    let dl = d.len() as int;
    let vl = v.len() as int;
    lemma_norm_fixed(k);
    lemma_dec_digits_are_digits(n);
    assert(t =~= seq!['<'] + k + seq![':'] + d + seq!['>'] + v);
    assert(tl == 3 + kl + dl + vl);
    assert forall|j: int| i <= j < i + tl implies #[trigger] s[j] == t[j - i] by {
        assert(s.subrange(i, i + tl)[j - i] == s[j]);
    }
    assert(t[0] == '<');
    assert(s[i] == '<');
    // the name run
    assert forall|j: int| i + 1 <= j < i + 1 + kl implies is_name_char(#[trigger] s[j]) by {
        assert(t[j - i] == k[j - i - 1]);
        lemma_upper_shape(k[j - i - 1]);
    }
    assert(s[i + 1 + kl] == ':');
    assert(!is_name_char(':'));
    lemma_run_name(s, i + 1, i + 1 + kl);
    let ke = i + 1 + kl;
    assert(name_run_end(s, i + 1) == ke);
    assert(ke != i + 1);
    assert(ke < s.len() && s[ke] == ':');
    // the length digits
    let ds = ke + 1;
    assert forall|j: int| ds <= j < ds + dl implies is_digit_char(#[trigger] s[j]) by {
        assert(t[j - i] == d[j - ds]);
    }
    assert(s[ds + dl] == '>');
    assert(!is_digit_char('>'));
    lemma_run_digits(s, ds, ds + dl);
    let de = ds + dl;
    assert(digit_run_end(s, ds) == de);
    assert(de != ds);
    assert(s.subrange(ds, ds + dl) =~= d);
    lemma_num_val_of_dec(s, ds, n);
    assert(num_val(s, ds, de) == n);
    assert(num_val(s, ds, de) <= usize::MAX as int);
    assert(de < s.len() && s[de] == '>');
    // the value run
    let vstart = de + 1;
    assert forall|j: int| vstart <= j < vstart + vl implies is_value_char(#[trigger] s[j]) by {
        assert(t[j - i] == v[j - vstart]);
    }
    assert(vstart + vl == i + tl);
    assert(i + tl == s.len() || !is_value_char(s[i + tl]));
    lemma_run_value(s, vstart, vstart + vl);
    let vend = vstart + vl;
    assert(value_run_end(s, vstart) == vend);
    assert(vend != vstart);
    // no trailing whitespace to trim
    assert(s[vend - 1] == v[vl - 1]);
    assert(!is_ws_char(s[vend - 1]));
    assert(trim_back(s, vstart, vend) == vend);
    // the token itself
    assert(s.subrange(i + 1, ke) =~= k);
    assert(s.subrange(i + 1, ke).map_values(|c: char| spec_upper(c)) == k);
    assert(s.subrange(vstart, vend) =~= v);
    assert(spec_value_part(s, i, ke, de, None, vstart) == TagTry::Tag(
        pair_token((k, SpecValue::Text(v))),
        vend,
    ));
    assert(spec_try_tag(s, i) == spec_value_part(s, i, ke, de, None, vstart));
}

/// The separator between serialized pairs: a newline in a header, nothing
/// in a record.
pub open spec fn sep_chars(nl: bool) -> Seq<char> {
    if nl {
        seq!['\n']
    } else {
        Seq::empty()
    }
}

/// A serialized tag opens with `<` and is at least six characters long.
proof fn lemma_tag_shape(k: Seq<char>, v: Seq<char>)
    requires
        key_ok(k),
        val_ok(v),
    ensures
        spec_tag_chars(k, v).len() >= 6,
        spec_tag_chars(k, v).len() == 3 + k.len() + dec_digits(encode_utf8(v).len()).len()
            + v.len(),
        spec_tag_chars(k, v)[0] == '<',
{
    lemma_norm_fixed(k);
    lemma_dec_digits_are_digits(encode_utf8(v).len());
    let d = dec_digits(encode_utf8(v).len());
    assert(spec_tag_chars(k, v) =~= seq!['<'] + k + seq![':'] + d + seq!['>'] + v);
}

/// Scanning a joined run of serialized pairs reads exactly their tokens,
/// stopping right after the run.
#[verifier::rlimit(100)]
proof fn lemma_scan_pairs(s: Seq<char>, i: int, ps: Seq<(Seq<char>, SpecValue)>, nl: bool)
    requires
        0 <= i,
        pairs_ok(ps),
        i + spec_pairs_joined(ps, sep_chars(nl)).len() <= s.len(),
        s.subrange(i, i + spec_pairs_joined(ps, sep_chars(nl)).len()) == spec_pairs_joined(
            ps,
            sep_chars(nl),
        ),
        ({
            let e = i + spec_pairs_joined(ps, sep_chars(nl)).len();
            e == s.len() || s[e] == '\n'
        }),
    ensures
        spec_scan_from(s, i) == prepend_toks(
            pair_tokens(ps),
            spec_scan_from(s, i + spec_pairs_joined(ps, sep_chars(nl)).len()),
        ),
    decreases ps.len(),
{
    let sep = sep_chars(nl);
    let run = spec_pairs_joined(ps, sep);
    let e = i + run.len();
    if ps.len() == 0 {
        assert(pair_tokens(ps) =~= Seq::<SpecToken>::empty());
        let r = spec_scan_from(s, i);
        if r is Ok {
            assert(Seq::<SpecToken>::empty() + r->Ok_0 =~= r->Ok_0);
        }
    } else {
        let k = ps[0].0;
        let v = ps[0].1->Text_0;
        let t = spec_tag_chars(k, v);
        let tl = t.len() as int;
        assert(pair_ok(ps[0]));
        lemma_tag_shape(k, v);
        assert(spec_pair_chars(ps[0]) == t);
        let rest = ps.drop_first();
        let rrun = spec_pairs_joined(rest, sep);
        if ps.len() == 1 {
            assert(run == t);
        } else {
            assert(run == t + sep + rrun);
        }
        assert forall|j: int| i <= j < e implies #[trigger] s[j] == run[j - i] by {
            assert(s.subrange(i, e)[j - i] == s[j]);
        }
        // the first tag sits at the front of the run
        assert(s.subrange(i, i + tl) =~= t) by {
            assert forall|j: int| 0 <= j < tl implies s.subrange(i, i + tl)[j] == t[j] by {
                assert(s[i + j] == run[j]);
                assert(run[j] == t[j]);
            }
        }
        let next = i + tl;
        // what follows the first tag
        if ps.len() == 1 {
            assert(next == e);
            assert(next == s.len() || s[next] == '\n');
        } else {
            if nl {
                assert(run[tl] == '\n');
                assert(s[next] == '\n');
            } else {
                assert(rest.len() > 0);
                assert(pair_ok(rest[0]));
                lemma_tag_shape(rest[0].0, rest[0].1->Text_0);
                assert(rrun[0] == spec_pair_chars(rest[0])[0]);
                assert(run[tl] == rrun[0]);
                assert(s[next] == '<');
            }
        }
        lemma_scan_tag(s, i, k, v);
        assert(s[i] == '<');
        assert(spec_scan_from(s, i) == prepend_toks(
            seq![pair_token(ps[0])],
            spec_scan_from(s, next),
        ));
        // the rest of the run
        let i2 = if ps.len() > 1 && nl {
            next + 1
        } else {
            next
        };
        if ps.len() > 1 && nl {
            assert(s[next] != '<');
            lemma_scan_skip(s, next, next + 1);
        }
        assert(i2 + rrun.len() == e) by {
            if ps.len() == 1 {
                assert(rrun =~= Seq::<char>::empty());
            }
        }
        assert(s.subrange(i2, e) =~= rrun) by {
            assert forall|j: int| 0 <= j < rrun.len() implies s.subrange(i2, e)[j] == rrun[j] by {
                assert(s[i2 + j] == run[i2 + j - i]);
                if ps.len() > 1 {
                    assert(run[i2 + j - i] == rrun[j]);
                }
            }
        }
        lemma_scan_pairs(s, i2, rest, nl);
        assert(pair_tokens(ps) =~= seq![pair_token(ps[0])] + pair_tokens(rest));
        let x = spec_scan_from(s, e);
        if x is Ok {
            assert(seq![pair_token(ps[0])] + (pair_tokens(rest) + x->Ok_0) =~= pair_tokens(ps)
                + x->Ok_0);
        }
    }
}

/// A position not holding `<` opens no sentinel.
proof fn lemma_not_sent_here(s: Seq<char>, p: int, c3: char)
    requires
        p >= s.len() || s[p] != '<',
    ensures
        !is_sent_at(s, p, sent_pat(c3)),
{
    if is_sent_at(s, p, sent_pat(c3)) {
        assert(sent_pat(c3)[0] == '<');
        assert(spec_upper(s[p + 0]) == '<');
        lemma_upper_shape(s[p]);
    }
}

/// No sentinel opens anywhere in a serialized tag.
proof fn lemma_no_sent_tag(s: Seq<char>, i: int, k: Seq<char>, v: Seq<char>, c3: char)
    requires
        0 <= i,
        key_ok(k),
        val_ok(v),
        c3 == 'H' || c3 == 'R',
        i + spec_tag_chars(k, v).len() <= s.len(),
        s.subrange(i, i + spec_tag_chars(k, v).len()) == spec_tag_chars(k, v),
    ensures
        forall|p: int|
            i <= p < i + spec_tag_chars(k, v).len() ==> !is_sent_at(s, p, sent_pat(c3)),
{
    let t = spec_tag_chars(k, v);
    let tl = t.len() as int;
    let kl = k.len() as int;
    let n: nat = encode_utf8(v).len();
    let d = dec_digits(n);
    let dl = d.len() as int;
    lemma_norm_fixed(k);
    lemma_dec_digits_are_digits(n);
    lemma_tag_shape(k, v);
    assert(t =~= seq!['<'] + k + seq![':'] + d + seq!['>'] + v);
    assert forall|j: int| i <= j < i + tl implies #[trigger] s[j] == t[j - i] by {
        assert(s.subrange(i, i + tl)[j - i] == s[j]);
    }
    assert forall|p: int| i < p < i + tl implies #[trigger] s[p] != '<' by {
        let x = p - i;
        if x < 1 + kl {
            assert(t[x] == k[x - 1]);
        } else if x == 1 + kl {
            assert(t[x] == ':');
        } else if x < 2 + kl + dl {
            assert(t[x] == d[x - 2 - kl]);
            assert(is_digit_char(t[x]));
        } else if x == 2 + kl + dl {
            assert(t[x] == '>');
        } else {
            assert(t[x] == v[x - 3 - kl - dl]);
            assert(is_value_char(t[x]));
        }
    }
    assert forall|p: int| i <= p < i + tl implies !is_sent_at(s, p, sent_pat(c3)) by {
        if p > i {
            lemma_not_sent_here(s, p, c3);
        } else {
            if is_sent_at(s, i, sent_pat(c3)) {
                assert(sent_pat(c3)[2] == 'O');
                assert(sent_pat(c3)[3] == c3);
                assert(sent_pat(c3)[4] == '>');
                if kl == 1 {
                    assert(s[i + 2] == t[2] && t[2] == ':');
                    assert(spec_upper(s[i + 2]) == 'O');
                } else if kl == 2 {
                    assert(s[i + 3] == t[3] && t[3] == ':');
                    assert(spec_upper(s[i + 3]) == c3);
                } else if kl == 3 {
                    assert(s[i + 4] == t[4] && t[4] == ':');
                    assert(spec_upper(s[i + 4]) == '>');
                } else {
                    assert(s[i + 4] == t[4] && t[4] == k[3]);
                    assert(spec_upper(s[i + 4]) == '>');
                    lemma_upper_shape(k[3]);
                }
                assert(false);
            }
        }
    }
}

/// No sentinel opens anywhere in a joined run of serialized pairs.
#[verifier::rlimit(60)]
proof fn lemma_no_sent_pairs(s: Seq<char>, i: int, ps: Seq<(Seq<char>, SpecValue)>, nl: bool, c3: char)
    requires
        0 <= i,
        pairs_ok(ps),
        c3 == 'H' || c3 == 'R',
        i + spec_pairs_joined(ps, sep_chars(nl)).len() <= s.len(),
        s.subrange(i, i + spec_pairs_joined(ps, sep_chars(nl)).len()) == spec_pairs_joined(
            ps,
            sep_chars(nl),
        ),
    ensures
        forall|p: int|
            i <= p < i + spec_pairs_joined(ps, sep_chars(nl)).len() ==> !is_sent_at(
                s,
                p,
                sent_pat(c3),
            ),
    decreases ps.len(),
{
    let sep = sep_chars(nl);
    let run = spec_pairs_joined(ps, sep);
    let e = i + run.len();
    if ps.len() > 0 {
        let k = ps[0].0;
        let v = ps[0].1->Text_0;
        let t = spec_tag_chars(k, v);
        let tl = t.len() as int;
        assert(pair_ok(ps[0]));
        lemma_tag_shape(k, v);
        assert(spec_pair_chars(ps[0]) == t);
        let rest = ps.drop_first();
        let rrun = spec_pairs_joined(rest, sep);
        if ps.len() == 1 {
            assert(run == t);
        } else {
            assert(run == t + sep + rrun);
        }
        assert forall|j: int| i <= j < e implies #[trigger] s[j] == run[j - i] by {
            assert(s.subrange(i, e)[j - i] == s[j]);
        }
        assert(s.subrange(i, i + tl) =~= t) by {
            assert forall|j: int| 0 <= j < tl implies s.subrange(i, i + tl)[j] == t[j] by {
                assert(s[i + j] == run[j]);
                assert(run[j] == t[j]);
            }
        }
        lemma_no_sent_tag(s, i, k, v, c3);
        let i2 = if ps.len() > 1 && nl {
            i + tl + 1
        } else {
            i + tl
        };
        assert(i2 + rrun.len() == e) by {
            if ps.len() == 1 {
                assert(rrun =~= Seq::<char>::empty());
            }
        }
        assert(s.subrange(i2, e) =~= rrun) by {
            assert forall|j: int| 0 <= j < rrun.len() implies s.subrange(i2, e)[j] == rrun[j] by {
                assert(s[i2 + j] == run[i2 + j - i]);
                if ps.len() > 1 {
                    assert(run[i2 + j - i] == rrun[j]);
                }
            }
        }
        lemma_no_sent_pairs(s, i2, rest, nl, c3);
        assert forall|p: int| i <= p < e implies !is_sent_at(s, p, sent_pat(c3)) by {
            if p < i + tl {
            } else if p < i2 {
                assert(run[p - i] == '\n');
                lemma_not_sent_here(s, p, c3);
            }
        }
    }
}

/// The first occurrence is the known one.
proof fn lemma_first_occ_is(s: Seq<char>, i: int, p: int, pat: Seq<char>)
    requires
        0 <= i <= p,
        is_sent_at(s, p, pat),
        forall|q: int| i <= q < p ==> !is_sent_at(s, q, pat),
    ensures
        first_occ(s, i, pat) == p,
    decreases p - i,
{
    if i < p {
        lemma_first_occ_is(s, i + 1, p, pat);
    }
}

/// With no occurrence anywhere at or after `i`, the search fails.
proof fn lemma_first_occ_none(s: Seq<char>, i: int, pat: Seq<char>)
    requires
        0 <= i,
        pat.len() > 0,
        forall|q: int| i <= q ==> !is_sent_at(s, q, pat),
    ensures
        first_occ(s, i, pat) == -1,
    decreases s.len() - i,
{
    if i + pat.len() <= s.len() {
        lemma_first_occ_none(s, i + 1, pat);
    }
}

/// Folding tokens back to pairs undoes serialization of text pairs.
proof fn lemma_toks_pairs_id(ps: Seq<(Seq<char>, SpecValue)>)
    requires
        pairs_ok(ps),
    ensures
        toks_pairs(pair_tokens(ps)) == ps,
{
    assert forall|i: int| 0 <= i < ps.len() implies toks_pairs(pair_tokens(ps))[i] == ps[i] by {
        assert(pair_ok(ps[i]));
    }
    assert(toks_pairs(pair_tokens(ps)) =~~= ps);
}

/// The text after the header sentinel, record by record.
pub open spec fn body_tail(rs: Seq<Seq<(Seq<char>, SpecValue)>>) -> Seq<char>
    decreases rs.len(),
{
    if rs.len() == 0 {
        Seq::empty()
    } else {
        seq!['\n'] + spec_pairs_joined(rs[0], Seq::empty()) + "<EOR>"@ + body_tail(
            rs.drop_first(),
        )
    }
}

/// The serialized records, led by the newline after the sentinel, read as
/// the record-by-record tail.
proof fn lemma_body_tail(rs: Seq<Seq<(Seq<char>, SpecValue)>>)
    requires
        rs.len() > 0,
    ensures
        seq!['\n'] + spec_records_joined(rs) == body_tail(rs),
    decreases rs.len(),
{
    if rs.len() == 1 {
        assert(body_tail(rs.drop_first()) == Seq::<char>::empty());
        assert(spec_records_joined(rs) == spec_record_chars(rs[0]));
        assert(spec_record_chars(rs[0]) == spec_pairs_joined(rs[0], Seq::empty()) + "<EOR>"@);
        assert(seq!['\n'] + spec_records_joined(rs) =~= body_tail(rs));
    } else {
        lemma_body_tail(rs.drop_first());
        let pj = spec_pairs_joined(rs[0], Seq::empty());
        assert(spec_records_joined(rs) == spec_record_chars(rs[0]) + seq!['\n']
            + spec_records_joined(rs.drop_first()));
        assert(spec_record_chars(rs[0]) == pj + "<EOR>"@);
        assert(body_tail(rs) == seq!['\n'] + pj + "<EOR>"@ + body_tail(rs.drop_first()));
        assert(seq!['\n'] + spec_records_joined(rs) =~= seq!['\n'] + pj + "<EOR>"@ + (
        seq!['\n'] + spec_records_joined(rs.drop_first())));
        assert(seq!['\n'] + pj + "<EOR>"@ + (seq!['\n'] + spec_records_joined(
            rs.drop_first(),
        )) == seq!['\n'] + pj + "<EOR>"@ + body_tail(rs.drop_first()));
        assert(seq!['\n'] + spec_records_joined(rs) == body_tail(rs));
    }
}

/// The record sentinel's characters, upper-cased in place.
proof fn lemma_eor_chars()
    ensures
        "<EOR>"@ =~= seq!['<', 'E', 'O', 'R', '>'],
        "<EOH>"@ =~= seq!['<', 'E', 'O', 'H', '>'],
        eor_pat() =~= seq!['<', 'E', 'O', 'R', '>'],
        eoh_pat() =~= seq!['<', 'E', 'O', 'H', '>'],
{
    reveal_strlit("<EOR>");
    reveal_strlit("<EOH>");
}

/// A record chunk, its leading newline included, scans to exactly the
/// record's tokens.
proof fn lemma_record_chunk(c: Seq<char>, pp: Seq<(Seq<char>, SpecValue)>)
    requires
        pairs_ok(pp),
        c == seq!['\n'] + spec_pairs_joined(pp, Seq::empty()),
    ensures
        spec_scan_from(c, 0) == Ok::<Seq<SpecToken>, ()>(pair_tokens(pp)),
{
    let pl = spec_pairs_joined(pp, Seq::empty()).len() as int;
    assert(c.subrange(1, 1 + pl) =~= spec_pairs_joined(pp, Seq::empty()));
    assert(c[0] == '\n');
    lemma_scan_skip(c, 0, 1);
    lemma_scan_pairs(c, 1, pp, false);
    assert(spec_scan_from(c, 1 + pl) == Ok::<Seq<SpecToken>, ()>(Seq::empty()));
    assert(pair_tokens(pp) + Seq::<SpecToken>::empty() =~= pair_tokens(pp));
}

/// The shape of the records region: a newline, the first record's pairs,
/// the record sentinel, then the rest.
#[verifier::rlimit(60)]
proof fn lemma_records_shape(s: Seq<char>, i: int, rs: Seq<Seq<(Seq<char>, SpecValue)>>)
    requires
        0 <= i <= s.len(),
        recs_ok(rs),
        rs.len() > 0,
        s.subrange(i, s.len() as int) == body_tail(rs),
    ensures
        ({
            let pl = spec_pairs_joined(rs[0], Seq::empty()).len() as int;
            let eorp = i + 1 + pl;
            &&& eorp + 5 <= s.len()
            &&& s[i] == '\n'
            &&& s.subrange(i + 1, eorp) == spec_pairs_joined(rs[0], Seq::empty())
            &&& s.subrange(i, eorp) == seq!['\n'] + spec_pairs_joined(rs[0], Seq::empty())
            &&& s[eorp] == '<' && s[eorp + 1] == 'E' && s[eorp + 2] == 'O' && s[eorp + 3] == 'R'
                && s[eorp + 4] == '>'
            &&& is_sent_at(s, eorp, eor_pat())
            &&& first_occ(s, i, eor_pat()) == eorp
            &&& s.subrange(eorp + 5, s.len() as int) == body_tail(rs.drop_first())
        }),
{
    lemma_eor_chars();
    let pp = rs[0];
    assert(pairs_ok(pp));
    let pj = spec_pairs_joined(pp, Seq::empty());
    let pl = pj.len() as int;
    let tail = body_tail(rs);
    let rest = body_tail(rs.drop_first());
    assert(tail == seq!['\n'] + pj + "<EOR>"@ + rest);
    let eorp = i + 1 + pl;
    assert forall|j: int| i <= j < s.len() implies #[trigger] s[j] == tail[j - i] by {
        assert(s.subrange(i, s.len() as int)[j - i] == s[j]);
    }
    assert(s[i] == '\n');
    assert(s.subrange(i + 1, eorp) =~= pj) by {
        assert forall|j: int| 0 <= j < pl implies s.subrange(i + 1, eorp)[j] == pj[j] by {
            assert(s[i + 1 + j] == tail[1 + j]);
        }
    }
    assert(s.subrange(i, eorp) =~= seq!['\n'] + pj);
    assert(s[eorp] == '<' && s[eorp + 1] == 'E' && s[eorp + 2] == 'O' && s[eorp + 3] == 'R'
        && s[eorp + 4] == '>');
    assert(is_sent_at(s, eorp, eor_pat())) by {
        assert forall|j: int| 0 <= j < 5 implies spec_upper(s[eorp + j]) == eor_pat()[j] by {
            if j == 0 {
            } else if j == 1 {
            } else if j == 2 {
            } else if j == 3 {
            } else {
                assert(j == 4);
            }
        }
    }
    lemma_no_sent_pairs(s, i + 1, pp, false, 'R');
    assert forall|q: int| i <= q < eorp implies !is_sent_at(s, q, eor_pat()) by {
        if q == i {
            lemma_not_sent_here(s, q, 'R');
        }
    }
    lemma_first_occ_is(s, i, eorp, eor_pat());
    assert(s.subrange(eorp + 5, s.len() as int) =~= rest) by {
        assert forall|j: int| 0 <= j < rest.len() implies s.subrange(
            eorp + 5,
            s.len() as int,
        )[j] == rest[j] by {
            assert(s[eorp + 5 + j] == tail[eorp + 5 + j - i]);
        }
    }
}

/// Parsing the records region reads back each record's tokens.
#[verifier::rlimit(60)]
proof fn lemma_records(s: Seq<char>, i: int, rs: Seq<Seq<(Seq<char>, SpecValue)>>)
    requires
        0 <= i <= s.len(),
        recs_ok(rs),
        s.subrange(i, s.len() as int) == body_tail(rs),
    ensures
        spec_records_from(s, i) == Ok::<Seq<Seq<SpecToken>>, ()>(
            rs.map_values(|r: Seq<(Seq<char>, SpecValue)>| pair_tokens(r)),
        ),
    decreases rs.len(),
{
    lemma_eor_chars();
    if rs.len() == 0 {
        assert(body_tail(rs) == Seq::<char>::empty());
        assert(i == s.len());
        assert forall|q: int| i <= q implies !is_sent_at(s, q, eor_pat()) by {}
        lemma_first_occ_none(s, i, eor_pat());
        assert(rs.map_values(|r: Seq<(Seq<char>, SpecValue)>| pair_tokens(r))
            =~= Seq::<Seq<SpecToken>>::empty());
    } else {
        let pp = rs[0];
        assert(pairs_ok(pp));
        let pj = spec_pairs_joined(pp, Seq::empty());
        let pl = pj.len() as int;
        let eorp = i + 1 + pl;
        lemma_records_shape(s, i, rs);
        let c = s.subrange(i, eorp);
        lemma_record_chunk(c, pp);
        lemma_records(s, eorp + 5, rs.drop_first());
        assert(spec_records_from(s, i) == Ok::<Seq<Seq<SpecToken>>, ()>(
            seq![pair_tokens(pp)] + rs.drop_first().map_values(
                |r: Seq<(Seq<char>, SpecValue)>| pair_tokens(r),
            ),
        ));
        assert(seq![pair_tokens(pp)] + rs.drop_first().map_values(
            |r: Seq<(Seq<char>, SpecValue)>| pair_tokens(r),
        ) =~= rs.map_values(|r: Seq<(Seq<char>, SpecValue)>| pair_tokens(r)));
    }
}

/// The records region holds no header sentinel.
#[verifier::rlimit(60)]
proof fn lemma_no_eoh_tail(s: Seq<char>, i: int, rs: Seq<Seq<(Seq<char>, SpecValue)>>)
    requires
        0 <= i <= s.len(),
        recs_ok(rs),
        s.subrange(i, s.len() as int) == body_tail(rs),
    ensures
        forall|p: int| i <= p ==> !is_sent_at(s, p, eoh_pat()),
    decreases rs.len(),
{
    lemma_eor_chars();
    if rs.len() == 0 {
        assert(body_tail(rs) == Seq::<char>::empty());
        assert(i == s.len());
        assert forall|p: int| i <= p implies !is_sent_at(s, p, eoh_pat()) by {}
    } else {
        let pp = rs[0];
        assert(pairs_ok(pp));
        let pj = spec_pairs_joined(pp, Seq::empty());
        let pl = pj.len() as int;
        let eorp = i + 1 + pl;
        lemma_records_shape(s, i, rs);
        lemma_no_sent_pairs(s, i + 1, pp, false, 'H');
        lemma_no_eoh_tail(s, eorp + 5, rs.drop_first());
        assert forall|p: int| i <= p implies !is_sent_at(s, p, eoh_pat()) by {
            if p == i {
                lemma_not_sent_here(s, p, 'H');
            } else if p < eorp {
            } else if p == eorp {
                if is_sent_at(s, p, eoh_pat()) {
                    assert(spec_upper(s[eorp + 3]) == 'H');
                }
            } else if p < eorp + 5 {
                lemma_not_sent_here(s, p, 'H');
            }
        }
    }
}

/// The banner's fixed prefix opens no tag.
proof fn lemma_banner_lit()
    ensures
        forall|j: int|
            0 <= j < "Exported from veelog on "@.len() ==> "Exported from veelog on "@[j] != '<',
{
    reveal_strlit("Exported from veelog on ");
}

/// Round trip: for any file built purely from well-formed text-valued
/// fields and carrying at least one record, parsing the serialized text
/// reproduces the same ordered (key, value) pairs in the header and in
/// every record. Keys must be upper-case letters and underscores, values
/// non-empty, free of `<` and newlines, and not ending in whitespace — the
/// forms serialization itself emits.
#[verifier::rlimit(100)]
pub proof fn lemma_parse_serialize_roundtrip(
    hp: Seq<(Seq<char>, SpecValue)>,
    rs: Seq<Seq<(Seq<char>, SpecValue)>>,
    ts: Seq<char>,
)
    requires
        banner_time_ok(ts),
        pairs_ok(hp),
        recs_ok(rs),
        rs.len() > 0,
    ensures
        spec_parse_file(spec_file_chars(hp, rs, ts)) == Ok::<
            (Seq<(Seq<char>, SpecValue)>, Seq<Seq<(Seq<char>, SpecValue)>>),
            (),
        >((hp, rs)),
{
    lemma_eor_chars();
    lemma_banner_lit();
    let lit = "Exported from veelog on "@;
    let ll = lit.len() as int;
    let ban = spec_banner(ts);
    let hj = spec_pairs_joined(hp, seq!['\n']);
    let eoh5 = "<EOH>"@;
    let s = spec_file_chars(hp, rs, ts);
    let bl = ban.len() as int;
    let jl = hj.len() as int;
    let hpos = bl + jl + 1;
    let bt = body_tail(rs);
    lemma_body_tail(rs);
    assert(sep_chars(true) =~= seq!['\n']);
    // the whole text, flattened
    assert(spec_header_chars(hp, ts) == ban + hj + seq!['\n'] + eoh5);
    assert(s == spec_header_chars(hp, ts) + seq!['\n'] + spec_records_joined(rs));
    let a = ban + hj + seq!['\n'] + eoh5;
    assert(s =~= a + (seq!['\n'] + spec_records_joined(rs)));
    assert(s == a + bt);
    assert(s.len() == hpos + 5 + bt.len());
    // nothing in the banner opens a tag
    assert forall|p: int| 0 <= p < bl implies #[trigger] s[p] != '<' by {
        assert(s[p] == ban[p]);
        if p < ll {
            assert(ban[p] == lit[p]);
        } else if p < ll + ts.len() {
            assert(ban[p] == ts[p - ll]);
            assert(ts[p - ll] != '<');
        } else {
            assert(ban[p] == '\n');
        }
    }
    // the header pairs region
    assert(s.subrange(bl, bl + jl) =~= hj) by {
        assert forall|j: int| 0 <= j < jl implies s.subrange(bl, bl + jl)[j] == hj[j] by {
            assert(s[bl + j] == a[bl + j]);
        }
    }
    assert(s[bl + jl] == a[bl + jl] && a[bl + jl] == '\n');
    // the single header sentinel
    assert(s[hpos] == '<' && s[hpos + 1] == 'E' && s[hpos + 2] == 'O' && s[hpos + 3] == 'H'
        && s[hpos + 4] == '>') by {
        assert(s[hpos] == a[hpos] && s[hpos + 1] == a[hpos + 1] && s[hpos + 2] == a[hpos + 2]
            && s[hpos + 3] == a[hpos + 3] && s[hpos + 4] == a[hpos + 4]);
    }
    assert(is_sent_at(s, hpos, eoh_pat())) by {
        assert forall|j: int| 0 <= j < 5 implies spec_upper(s[hpos + j]) == eoh_pat()[j] by {
            if j == 0 {
            } else if j == 1 {
            } else if j == 2 {
            } else if j == 3 {
            } else {
                assert(j == 4);
            }
        }
    }
    lemma_no_sent_pairs(s, bl, hp, true, 'H');
    assert forall|q: int| 0 <= q < hpos implies !is_sent_at(s, q, eoh_pat()) by {
        if q < bl {
            lemma_not_sent_here(s, q, 'H');
        } else if q == bl + jl {
            lemma_not_sent_here(s, q, 'H');
        }
    }
    lemma_first_occ_is(s, 0, hpos, eoh_pat());
    // and none after it
    assert(s.subrange(hpos + 5, s.len() as int) =~= bt) by {
        assert forall|j: int| 0 <= j < bt.len() implies s.subrange(
            hpos + 5,
            s.len() as int,
        )[j] == bt[j] by {
            assert(s[hpos + 5 + j] == (a + bt)[hpos + 5 + j]);
        }
    }
    lemma_no_eoh_tail(s, hpos + 5, rs);
    lemma_first_occ_none(s, hpos + 5, eoh_pat());
    // the header chunk scans to the header's tokens
    let c = s.subrange(0, hpos);
    assert(c =~= ban + hj + seq!['\n']);
    assert forall|l: int| 0 <= l < bl implies #[trigger] c[l] != '<' by {
        assert(c[l] == s[l]);
    }
    lemma_scan_skip(c, 0, bl);
    assert(c.subrange(bl, bl + jl) =~= hj) by {
        assert forall|j: int| 0 <= j < jl implies c.subrange(bl, bl + jl)[j] == hj[j] by {
            assert(c[bl + j] == s[bl + j]);
        }
    }
    assert(c[bl + jl] == '\n');
    lemma_scan_pairs(c, bl, hp, true);
    assert(c[bl + jl] != '<');
    lemma_scan_skip(c, bl + jl, c.len() as int);
    assert(spec_scan_from(c, c.len() as int) == Ok::<Seq<SpecToken>, ()>(Seq::empty()));
    assert(pair_tokens(hp) + Seq::<SpecToken>::empty() =~= pair_tokens(hp));
    assert(spec_scan_from(c, 0) == Ok::<Seq<SpecToken>, ()>(pair_tokens(hp)));
    // the records
    lemma_records(s, hpos + 5, rs);
    // assembled, the parse gives back exactly the pairs
    lemma_toks_pairs_id(hp);
    let rss = rs.map_values(|r: Seq<(Seq<char>, SpecValue)>| pair_tokens(r));
    assert forall|i: int| 0 <= i < rs.len() implies toks_pairs(#[trigger] rss[i]) == rs[i] by {
        lemma_toks_pairs_id(rs[i]);
    }
    assert(rss.map_values(|t: Seq<SpecToken>| toks_pairs(t)) =~~= rs);
    assert(spec_parse_file(s) == Ok::<
        (Seq<(Seq<char>, SpecValue)>, Seq<Seq<(Seq<char>, SpecValue)>>),
        (),
    >((hp, rs)));
}

} // verus!
