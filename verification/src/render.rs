//! Output formatting: each record renders either as its original token, or,
//! verbosely, as a one-line JSON object of its fields. Unparsed records emit
//! only the original token, with no version fields.
use vstd::prelude::*;
use crate::ver::{RecordView, VersionInfo};

verus! {

/// The decimal digit character of `d`.
pub open spec fn digit_char(d: nat) -> char {
    if d == 0 {
        '0'
    } else if d == 1 {
        '1'
    } else if d == 2 {
        '2'
    } else if d == 3 {
        '3'
    } else if d == 4 {
        '4'
    } else if d == 5 {
        '5'
    } else if d == 6 {
        '6'
    } else if d == 7 {
        '7'
    } else if d == 8 {
        '8'
    } else {
        '9'
    }
}

/// The decimal rendering of `n`, most significant digit first, with no
/// leading zeros.
pub open spec fn dec_digits(n: nat) -> Seq<char>
    decreases n,
{
    if n < 10 {
        seq![digit_char(n)]
    } else {
        dec_digits(n / 10).push(digit_char(n % 10))
    }
}

/// Law: the decimal rendering of `n` is a canonical numeric identifier (no
/// leading zero) whose numeric value is `n` again.
pub proof fn lemma_dec_digits_value(n: nat)
    ensures
        crate::grammar::valid_num(dec_digits(n)),
        crate::grammar::num_val(dec_digits(n)) == n,
    decreases n,
{
    let ds = dec_digits(n);
    if n < 10 {
        assert(crate::grammar::is_digit(digit_char(n)));
        assert(ds.drop_last() =~= Seq::<char>::empty());
        assert(crate::grammar::num_val(Seq::<char>::empty()) == 0);
        assert(crate::grammar::num_val(ds) == n);
        assert(digit_char(n) == '0' ==> n == 0);
    } else {
        lemma_dec_digits_value(n / 10);
        assert(n == (n / 10) * 10 + n % 10 && n % 10 < 10) by {
            vstd::arithmetic::div_mod::lemma_fundamental_div_mod(n as int, 10);
        }
        let hd = dec_digits(n / 10);
        assert(ds == hd.push(digit_char(n % 10)));
        assert(ds.drop_last() =~= hd);
        assert(ds.last() == digit_char(n % 10));
        assert(crate::grammar::is_digit(digit_char(n % 10)));
        assert((digit_char(n % 10) as int - '0' as int) == n % 10);
        assert(crate::grammar::num_val(ds) == (n / 10) * 10 + n % 10);
        assert(crate::grammar::all_digits(ds)) by {
            assert(forall|i: int| 0 <= i < hd.len() ==> ds[i] == hd[i]);
        }
        assert(ds[0] == hd[0]);
        assert((n / 10) * 10 == n - n % 10);
        assert(n / 10 >= 1);
        if hd[0] == '0' {
            assert(hd.len() == 1);
            assert(hd.drop_last() =~= Seq::<char>::empty());
            assert(crate::grammar::num_val(Seq::<char>::empty()) == 0);
            assert(crate::grammar::num_val(hd) == 0);
            assert(false);
        }
    }
}

/// A character that JSON string serialization writes verbatim: not a
/// quote, not a backslash, not a control character.
pub open spec fn json_plain_char(c: char) -> bool {
    c != '"' && c != '\\' && (c as int) >= 32
}

/// A string that JSON string serialization writes verbatim.
pub open spec fn json_plain(s: Seq<char>) -> bool {
    forall|i: int| 0 <= i < s.len() ==> json_plain_char(#[trigger] s[i])
}

/// The JSON string literal that serde_json writes for a given string.
pub uninterp spec fn json_quote_of(s: Seq<char>) -> Seq<char>;

/// Relies on serde_json's string serialization: the result is the JSON
/// string literal for `s`, a quote, the escaped contents, and a quote,
/// where only `"`, `\` and control characters below space are escaped.
#[verifier::external_body]
fn json_quote(s: &str) -> (r: String)
    ensures
        r@ == json_quote_of(s@),
        json_plain(s@) ==> r@ == seq!['"'] + s@ + seq!['"'],
{
    serde_json::Value::String(s.to_string()).to_string()
}

/// Relies on String::push: appends the one character to the string.
#[verifier::external_body]
fn push_char(s: &mut String, c: char)
    ensures
        final(s)@ == old(s)@.push(c),
{
    s.push(c);
}

/// The decimal digit character of `d`.
fn digit_char_of(d: u64) -> (c: char)
    requires
        d < 10,
    ensures
        c == digit_char(d as nat),
{
    if d == 0 {
        '0'
    } else if d == 1 {
        '1'
    } else if d == 2 {
        '2'
    } else if d == 3 {
        '3'
    } else if d == 4 {
        '4'
    } else if d == 5 {
        '5'
    } else if d == 6 {
        '6'
    } else if d == 7 {
        '7'
    } else if d == 8 {
        '8'
    } else {
        '9'
    }
}

/// Renders `n` in decimal.
pub fn u64_string(n: u64) -> (s: String)
    ensures
        s@ == dec_digits(n as nat),
{
    let mut digits: Vec<char> = Vec::new();
    let mut m: u64 = n;
    while m >= 10
        invariant
            m >= 1 ==> dec_digits(n as nat) =~= dec_digits(m as nat) + digits@.reverse(),
            m == 0 ==> n == 0 && digits@.len() == 0,
        decreases m,
    {
        let d = m % 10;
        let c = digit_char_of(d);
        proof {
            assert(dec_digits(m as nat) == dec_digits((m as nat) / 10).push(
                digit_char((m as nat) % 10),
            ));
            assert(digits@.push(c).reverse() =~= seq![c] + digits@.reverse());
            assert(dec_digits((m as nat) / 10) + (seq![c] + digits@.reverse()) =~= dec_digits(
                (m as nat) / 10,
            ).push(c) + digits@.reverse());
        }
        digits.push(c);
        m = m / 10;
    }
    let c = digit_char_of(m);
    proof {
        assert(dec_digits(m as nat) =~= seq![c]);
        assert(digits@.push(c).reverse() =~= seq![c] + digits@.reverse());
        if m >= 1 {
            assert(dec_digits(n as nat) =~= digits@.push(c).reverse());
        } else {
            assert(dec_digits(n as nat) =~= digits@.push(c).reverse());
        }
    }
    digits.push(c);
    let mut out = String::new();
    let mut i = digits.len();
    proof {
        assert(digits@.skip(i as int).reverse() =~= Seq::<char>::empty());
    }
    while i > 0
        invariant
            i <= digits@.len(),
            out@ == digits@.skip(i as int).reverse(),
        decreases i,
    {
        i = i - 1;
        let c = digits[i];
        proof {
            assert(digits@.skip(i as int) =~= seq![digits@[i as int]] + digits@.skip(i + 1));
            assert(digits@.skip(i as int).reverse() =~= digits@.skip(i + 1).reverse().push(
                digits@[i as int],
            ));
        }
        push_char(&mut out, c);
    }
    proof {
        assert(digits@.skip(0) =~= digits@);
    }
    out
}

/// The one verbose output line of a record: a JSON object holding the
/// original token and, for a parsed record, its version fields; an unparsed
/// record yields an object of the original token alone.
pub open spec fn verbose_line(r: RecordView) -> Seq<char> {
    match r.version {
        None => "{\"original\":"@ + json_quote_of(r.original) + "}"@,
        Some(v) => "{\"build\":"@ + json_quote_of(v.build) + ",\"major\":"@ + dec_digits(
            v.major as nat,
        ) + ",\"minor\":"@ + dec_digits(v.minor as nat) + ",\"original\":"@ + json_quote_of(
            r.original,
        ) + ",\"patch\":"@ + dec_digits(v.patch as nat) + ",\"pre\":"@ + json_quote_of(v.pre)
            + "}"@,
    }
}

/// What one record renders as: its original token, or its verbose line.
pub open spec fn line_of(r: RecordView, verbose: bool) -> Seq<char> {
    if verbose {
        verbose_line(r)
    } else {
        r.original
    }
}

/// Renders one record for output.
pub fn format_record(r: &VersionInfo, verbose: bool) -> (line: String)
    ensures
        line@ == line_of(r@, verbose),
{
    if !verbose {
        return r.original.clone();
    }
    match &r.version {
        None => {
            let mut out: String = "{\"original\":".to_owned();
            let q = json_quote(r.original.as_str());
            out.append(q.as_str());
            out.append("}");
            out
        },
        Some(v) => {
            let mut out: String = "{\"build\":".to_owned();
            let qb = json_quote(v.build.as_str());
            out.append(qb.as_str());
            out.append(",\"major\":");
            let ma = u64_string(v.major);
            out.append(ma.as_str());
            out.append(",\"minor\":");
            let mi = u64_string(v.minor);
            out.append(mi.as_str());
            out.append(",\"original\":");
            let qo = json_quote(r.original.as_str());
            out.append(qo.as_str());
            out.append(",\"patch\":");
            let pa = u64_string(v.patch);
            out.append(pa.as_str());
            out.append(",\"pre\":");
            let qp = json_quote(v.pre.as_str());
            out.append(qp.as_str());
            out.append("}");
            out
        },
    }
}

/// Law: the verbose line of an unparsed record is the JSON object of its
/// original token alone; no version field is rendered into it.
pub proof fn lemma_verbose_unparsed_shape(r: RecordView)
    requires
        r.version is None,
    ensures
        verbose_line(r) == "{\"original\":"@ + json_quote_of(r.original) + "}"@,
{
}

} // verus!
