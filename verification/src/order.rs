//! The total order over version records: structured versions compare by
//! major, minor, patch, then pre-release precedence (build metadata is
//! ignored); a parsed record is greater than any unparsed one; unparsed
//! records compare by their original strings.
use vstd::prelude::*;
use crate::grammar::{all_digits, find_char, lemma_find_char, num_val, valid_num};
use crate::ver::{RecordView, VersionInfo, VersionView};

verus! {

/// Lexicographic order on character sequences, by character value.
pub open spec fn chars_lt(a: Seq<char>, b: Seq<char>) -> bool
    decreases a.len(),
{
    if b.len() == 0 {
        false
    } else if a.len() == 0 {
        true
    } else if a[0] != b[0] {
        (a[0] as int) < (b[0] as int)
    } else {
        chars_lt(a.drop_first(), b.drop_first())
    }
}

/// Order on single pre-release identifiers: identifiers of digits only are
/// numeric and order below alphanumeric ones; two numeric identifiers order
/// by value, which for canonical digit strings (no leading zero) is by
/// length and then lexicographically; alphanumeric identifiers order in
/// ASCII order.
pub open spec fn ident_lt(a: Seq<char>, b: Seq<char>) -> bool {
    if all_digits(a) && all_digits(b) {
        a.len() < b.len() || (a.len() == b.len() && chars_lt(a, b))
    } else if all_digits(a) {
        true
    } else if all_digits(b) {
        false
    } else {
        chars_lt(a, b)
    }
}

/// Ten to the power `k`.
pub open spec fn pow10(k: nat) -> nat
    decreases k,
{
    if k == 0 {
        1
    } else {
        10 * pow10((k - 1) as nat)
    }
}

/// The value of a digit character.
pub open spec fn dval(c: char) -> int {
    c as int - '0' as int
}

proof fn lemma_pow10_pos(k: nat)
    ensures
        pow10(k) >= 1,
    decreases k,
{
    if k > 0 {
        lemma_pow10_pos((k - 1) as nat);
    }
}

proof fn lemma_pow10_monotone(i: nat, j: nat)
    requires
        i <= j,
    ensures
        pow10(i) <= pow10(j),
    decreases j,
{
    if i < j {
        lemma_pow10_monotone(i, (j - 1) as nat);
    }
}

proof fn lemma_num_val_upper(s: Seq<char>)
    requires
        all_digits(s),
    ensures
        num_val(s) < pow10(s.len()),
    decreases s.len(),
{
    if s.len() > 0 {
        let t = s.drop_last();
        assert(all_digits(t)) by {
            assert(forall|i: int| 0 <= i < t.len() ==> t[i] == s[i]);
        }
        lemma_num_val_upper(t);
        assert(dval(s.last()) <= 9);
        assert(num_val(t) * 10 <= (pow10(t.len()) - 1) * 10) by (nonlinear_arith)
            requires
                num_val(t) <= pow10(t.len()) - 1,
        ;
    }
}

proof fn lemma_num_val_head(s: Seq<char>)
    requires
        all_digits(s),
        s.len() > 0,
    ensures
        num_val(s) == dval(s[0]) * pow10((s.len() - 1) as nat) + num_val(s.drop_first()),
    decreases s.len(),
{
    if s.len() == 1 {
        assert(s.drop_first() =~= Seq::<char>::empty());
        assert(s.drop_last() =~= Seq::<char>::empty());
        assert(s.last() == s[0]);
        assert(crate::grammar::is_digit(s[0]));
        assert(num_val(s) == num_val(s.drop_last()) * 10 + (s.last() as int - '0' as int) as nat);
        assert(num_val(s) == dval(s[0]));
        assert(pow10(0) == 1);
    } else {
        let t = s.drop_last();
        assert(all_digits(t) && t[0] == s[0]) by {
            assert(forall|i: int| 0 <= i < t.len() ==> t[i] == s[i]);
        }
        lemma_num_val_head(t);
        let n = s.len();
        let p = pow10((n - 2) as nat);
        let d0 = dval(s[0]);
        let dl = dval(s.last());
        assert(crate::grammar::is_digit(s.last()));
        assert(num_val(s) == num_val(t) * 10 + dl);
        assert(t.drop_first() =~= s.drop_first().drop_last());
        assert(s.drop_first().last() == s.last());
        assert(num_val(s.drop_first()) == num_val(t.drop_first()) * 10 + dl);
        assert(num_val(t) * 10 == d0 * (10 * p) + num_val(t.drop_first()) * 10) by (nonlinear_arith)
            requires
                num_val(t) == d0 * p + num_val(t.drop_first()),
        ;
        assert(pow10((n - 1) as nat) == 10 * p);
        assert(num_val(s) == d0 * pow10((n - 1) as nat) + num_val(s.drop_first()));
    }
}

proof fn lemma_num_val_lower(s: Seq<char>)
    requires
        all_digits(s),
        s.len() > 0,
        s[0] != '0',
    ensures
        num_val(s) >= pow10((s.len() - 1) as nat),
{
    lemma_num_val_head(s);
    let p = pow10((s.len() - 1) as nat);
    assert(dval(s[0]) >= 1);
    assert(dval(s[0]) * p >= 1 * p) by (nonlinear_arith)
        requires
            dval(s[0]) >= 1,
            p >= 0,
    ;
}

proof fn lemma_lex_value_same_len(a: Seq<char>, b: Seq<char>)
    requires
        all_digits(a),
        all_digits(b),
        a.len() == b.len(),
        chars_lt(a, b),
    ensures
        num_val(a) < num_val(b),
    decreases a.len(),
{
    let ra = a.drop_first();
    let rb = b.drop_first();
    assert(all_digits(ra) && all_digits(rb)) by {
        assert(forall|i: int| 0 <= i < ra.len() ==> ra[i] == a[i + 1]);
        assert(forall|i: int| 0 <= i < rb.len() ==> rb[i] == b[i + 1]);
    }
    lemma_num_val_head(a);
    lemma_num_val_head(b);
    let p = pow10((a.len() - 1) as nat);
    if a[0] == b[0] {
        lemma_lex_value_same_len(ra, rb);
    } else {
        assert(dval(a[0]) < dval(b[0]));
        lemma_num_val_upper(ra);
        assert(ra.len() == a.len() - 1);
        assert(dval(a[0]) * p + num_val(ra) < dval(b[0]) * p + num_val(rb)) by (nonlinear_arith)
            requires
                dval(a[0]) < dval(b[0]),
                num_val(ra) < p,
                num_val(rb) >= 0,
                p >= 1,
        {
        }
        lemma_pow10_pos((a.len() - 1) as nat);
    }
}

/// Law: on canonical numeric identifiers (digits only, no leading zero) the
/// identifier order is exactly the numeric order of their values, as the
/// precedence rules ask.
pub proof fn lemma_ident_numeric_order(a: Seq<char>, b: Seq<char>)
    requires
        valid_num(a),
        valid_num(b),
    ensures
        ident_lt(a, b) <==> num_val(a) < num_val(b),
{
    lemma_num_val_upper(a);
    lemma_num_val_upper(b);
    if a.len() < b.len() {
        assert(b[0] != '0');
        lemma_num_val_lower(b);
        lemma_pow10_monotone(a.len(), (b.len() - 1) as nat);
    } else if b.len() < a.len() {
        assert(a[0] != '0');
        lemma_num_val_lower(a);
        lemma_pow10_monotone(b.len(), (a.len() - 1) as nat);
    } else {
        lemma_chars_lt_connected(a, b);
        if chars_lt(a, b) {
            lemma_lex_value_same_len(a, b);
        } else if chars_lt(b, a) {
            lemma_lex_value_same_len(b, a);
        }
    }
}

/// The first identifier of a dot-separated list.
pub open spec fn head_ident(s: Seq<char>) -> Seq<char> {
    match find_char(s, '.') {
        None => s,
        Some(i) => s.take(i),
    }
}

/// What follows the first dot of a dot-separated list, if anything.
pub open spec fn tail_idents(s: Seq<char>) -> Option<Seq<char>> {
    match find_char(s, '.') {
        None => None,
        Some(i) => Some(s.skip(i + 1)),
    }
}

/// Pre-release precedence. The empty sequence stands for no pre-release,
/// which has the highest precedence; otherwise identifiers compare from the
/// left, and when one list is a strict prefix of the other the shorter list
/// is lower.
pub open spec fn pre_lt(a: Seq<char>, b: Seq<char>) -> bool
    decreases a.len(),
    via pre_lt_dec
{
    if a.len() == 0 {
        false
    } else if b.len() == 0 {
        true
    } else if head_ident(a) != head_ident(b) {
        ident_lt(head_ident(a), head_ident(b))
    } else {
        match (tail_idents(a), tail_idents(b)) {
            (None, None) => false,
            (None, Some(rb)) => true,
            (Some(ra), None) => false,
            (Some(ra), Some(rb)) => pre_lt(ra, rb),
        }
    }
}

#[via_fn]
proof fn pre_lt_dec(a: Seq<char>, b: Seq<char>) {
    lemma_find_char(a, '.');
}

/// Strict order on structured versions: major, minor, patch, then
/// pre-release precedence; build metadata is ignored.
pub open spec fn ver_lt(a: VersionView, b: VersionView) -> bool {
    ||| a.major < b.major
    ||| (a.major == b.major && a.minor < b.minor)
    ||| (a.major == b.major && a.minor == b.minor && a.patch < b.patch)
    ||| (a.major == b.major && a.minor == b.minor && a.patch == b.patch && pre_lt(a.pre, b.pre))
}

/// Two structured versions with the same ordering key: equal numeric core
/// and pre-release; build metadata is ignored.
pub open spec fn ver_key_eq(a: VersionView, b: VersionView) -> bool {
    a.major == b.major && a.minor == b.minor && a.patch == b.patch && a.pre == b.pre
}

/// The total order over records: parsed records order by their structured
/// versions and above all unparsed ones; unparsed records order by their
/// original strings.
pub open spec fn rec_le(a: RecordView, b: RecordView) -> bool {
    match (a.version, b.version) {
        (Some(x), Some(y)) => ver_lt(x, y) || ver_key_eq(x, y),
        (Some(x), None) => false,
        (None, Some(y)) => true,
        (None, None) => chars_lt(a.original, b.original) || a.original == b.original,
    }
}

/// The record order in the requested direction.
pub open spec fn rec_le_dir(a: RecordView, b: RecordView, reverse: bool) -> bool {
    if reverse {
        rec_le(b, a)
    } else {
        rec_le(a, b)
    }
}

/// Lexicographic character order is connected: two sequences that each do
/// not precede the other are equal; and it is asymmetric.
pub proof fn lemma_chars_lt_connected(a: Seq<char>, b: Seq<char>)
    ensures
        !chars_lt(a, b) && !chars_lt(b, a) ==> a == b,
        !(chars_lt(a, b) && chars_lt(b, a)),
    decreases a.len(),
{
    if a.len() > 0 && b.len() > 0 && a[0] == b[0] {
        lemma_chars_lt_connected(a.drop_first(), b.drop_first());
        if !chars_lt(a, b) && !chars_lt(b, a) {
            assert(a.drop_first() == b.drop_first());
            assert(a =~= b) by {
                assert(forall|i: int|
                    1 <= i < a.len() ==> a[i] == a.drop_first()[i - 1] && b[i] == b.drop_first()[i
                        - 1]);
            }
        }
    }
}

/// Lexicographic character order is transitive.
pub proof fn lemma_chars_lt_trans(a: Seq<char>, b: Seq<char>, c: Seq<char>)
    requires
        chars_lt(a, b),
        chars_lt(b, c),
    ensures
        chars_lt(a, c),
    decreases a.len(),
{
    if a.len() > 0 && b.len() > 0 && c.len() > 0 && a[0] == b[0] && b[0] == c[0] {
        lemma_chars_lt_trans(a.drop_first(), b.drop_first(), c.drop_first());
    }
}

/// Identifier order is connected and asymmetric.
pub proof fn lemma_ident_lt_connected(a: Seq<char>, b: Seq<char>)
    ensures
        !ident_lt(a, b) && !ident_lt(b, a) ==> a == b,
        !(ident_lt(a, b) && ident_lt(b, a)),
{
    lemma_chars_lt_connected(a, b);
}

/// Identifier order is transitive.
pub proof fn lemma_ident_lt_trans(a: Seq<char>, b: Seq<char>, c: Seq<char>)
    requires
        ident_lt(a, b),
        ident_lt(b, c),
    ensures
        ident_lt(a, c),
{
    if all_digits(a) && all_digits(b) && all_digits(c) {
        if a.len() == b.len() && b.len() == c.len() {
            lemma_chars_lt_trans(a, b, c);
        }
    } else if !all_digits(a) && !all_digits(b) && !all_digits(c) {
        lemma_chars_lt_trans(a, b, c);
    }
}

/// A dot-separated list is its head identifier, a dot, and its tail.
proof fn lemma_list_shape(a: Seq<char>)
    requires
        a.len() > 0,
    ensures
        match tail_idents(a) {
            None => head_ident(a) == a,
            Some(ra) => a == head_ident(a) + seq!['.'] + ra && ra.len() < a.len(),
        },
{
    lemma_find_char(a, '.');
    match find_char(a, '.') {
        None => {},
        Some(i) => {
            assert(a =~= a.take(i) + seq![a[i]] + a.skip(i + 1));
        },
    }
}

/// Pre-release precedence is connected and asymmetric.
pub proof fn lemma_pre_lt_connected(a: Seq<char>, b: Seq<char>)
    ensures
        !pre_lt(a, b) && !pre_lt(b, a) ==> a == b,
        !(pre_lt(a, b) && pre_lt(b, a)),
    decreases a.len(),
{
    if a.len() == 0 && b.len() == 0 {
        assert(a =~= b);
    } else if a.len() > 0 && b.len() > 0 {
        lemma_ident_lt_connected(head_ident(a), head_ident(b));
        if head_ident(a) == head_ident(b) {
            lemma_list_shape(a);
            lemma_list_shape(b);
            match (tail_idents(a), tail_idents(b)) {
                (None, None) => {
                    assert(a == b);
                },
                (Some(ra), Some(rb)) => {
                    lemma_pre_lt_connected(ra, rb);
                    if !pre_lt(a, b) && !pre_lt(b, a) {
                        assert(ra == rb);
                        assert(a == b);
                    }
                },
                _ => {},
            }
        }
    }
}

/// Pre-release precedence is transitive.
pub proof fn lemma_pre_lt_trans(a: Seq<char>, b: Seq<char>, c: Seq<char>)
    requires
        pre_lt(a, b),
        pre_lt(b, c),
    ensures
        pre_lt(a, c),
    decreases a.len(),
{
    lemma_pre_lt_connected(a, b);
    lemma_pre_lt_connected(b, c);
    if c.len() == 0 {
    } else {
        let ha = head_ident(a);
        let hb = head_ident(b);
        let hc = head_ident(c);
        lemma_ident_lt_connected(ha, hb);
        lemma_ident_lt_connected(hb, hc);
        lemma_ident_lt_connected(ha, hc);
        if ha != hb && hb != hc {
            lemma_ident_lt_trans(ha, hb, hc);
        } else if ha == hb && hb != hc {
            assert(ident_lt(hb, hc));
        } else if ha != hb && hb == hc {
            assert(ident_lt(ha, hb));
        } else {
            lemma_list_shape(a);
            lemma_list_shape(b);
            lemma_list_shape(c);
            match (tail_idents(a), tail_idents(b), tail_idents(c)) {
                (None, Some(rb), Some(rc)) => {},
                (Some(ra), Some(rb), Some(rc)) => {
                    lemma_pre_lt_trans(ra, rb, rc);
                },
                _ => {
                    assert(false);
                },
            }
        }
    }
}

/// The record order is total: of any two records, one is less than or equal
/// to the other.
pub proof fn lemma_rec_le_total(a: RecordView, b: RecordView)
    ensures
        rec_le(a, b) || rec_le(b, a),
{
    match (a.version, b.version) {
        (Some(x), Some(y)) => {
            lemma_pre_lt_connected(x.pre, y.pre);
        },
        (None, None) => {
            lemma_chars_lt_connected(a.original, b.original);
        },
        _ => {},
    }
}

/// The record order is transitive.
pub proof fn lemma_rec_le_trans(a: RecordView, b: RecordView, c: RecordView)
    requires
        rec_le(a, b),
        rec_le(b, c),
    ensures
        rec_le(a, c),
{
    match (a.version, b.version, c.version) {
        (Some(x), Some(y), Some(z)) => {
            lemma_pre_lt_connected(x.pre, y.pre);
            lemma_pre_lt_connected(y.pre, z.pre);
            if x.major == z.major && x.minor == z.minor && x.patch == z.patch {
                if pre_lt(x.pre, y.pre) && pre_lt(y.pre, z.pre) {
                    lemma_pre_lt_trans(x.pre, y.pre, z.pre);
                }
            }
        },
        (None, None, None) => {
            lemma_chars_lt_connected(a.original, b.original);
            lemma_chars_lt_connected(b.original, c.original);
            if chars_lt(a.original, b.original) && chars_lt(b.original, c.original) {
                lemma_chars_lt_trans(a.original, b.original, c.original);
            }
        },
        _ => {},
    }
}

/// The record order is reflexive.
pub proof fn lemma_rec_le_refl(a: RecordView)
    ensures
        rec_le(a, a),
{
    match a.version {
        Some(x) => {},
        None => {},
    }
}

/// Whether `av[alo..ahi]` precedes `bv[blo..bhi]` lexicographically.
fn range_less(av: &Vec<char>, alo: usize, ahi: usize, bv: &Vec<char>, blo: usize, bhi: usize) -> (r:
    bool)
    requires
        alo <= ahi <= av@.len(),
        blo <= bhi <= bv@.len(),
    ensures
        r == chars_lt(av@.subrange(alo as int, ahi as int), bv@.subrange(blo as int, bhi as int)),
{
    let ghost sa = av@.subrange(alo as int, ahi as int);
    let ghost sb = bv@.subrange(blo as int, bhi as int);
    let mut i: usize = 0;
    proof {
        assert(sa.skip(0) =~= sa);
        assert(sb.skip(0) =~= sb);
    }
    while alo + i < ahi && blo + i < bhi
        invariant
            alo + i <= ahi <= av@.len(),
            blo + i <= bhi <= bv@.len(),
            sa == av@.subrange(alo as int, ahi as int),
            sb == bv@.subrange(blo as int, bhi as int),
            chars_lt(sa, sb) == chars_lt(sa.skip(i as int), sb.skip(i as int)),
        decreases ahi - (alo + i),
    {
        let ca = av[alo + i];
        let cb = bv[blo + i];
        proof {
            assert(sa.skip(i as int)[0] == ca);
            assert(sb.skip(i as int)[0] == cb);
        }
        if ca != cb {
            return ca < cb;
        }
        proof {
            assert(sa.skip(i as int).drop_first() =~= sa.skip(i + 1));
            assert(sb.skip(i as int).drop_first() =~= sb.skip(i + 1));
        }
        i += 1;
    }
    proof {
        if alo + i == ahi {
            assert(sa.skip(i as int) =~= Seq::<char>::empty());
        }
        if blo + i == bhi {
            assert(sb.skip(i as int) =~= Seq::<char>::empty());
        }
    }
    alo + i == ahi && blo + i < bhi
}

/// Whether every character of `v[lo..hi]` is a digit.
pub(crate) fn range_all_digits(v: &Vec<char>, lo: usize, hi: usize) -> (r: bool)
    requires
        lo <= hi <= v@.len(),
    ensures
        r == all_digits(v@.subrange(lo as int, hi as int)),
{
    let ghost sub = v@.subrange(lo as int, hi as int);
    let mut i = lo;
    while i < hi
        invariant
            lo <= i <= hi <= v@.len(),
            sub == v@.subrange(lo as int, hi as int),
            forall|k: int| 0 <= k < i - lo ==> crate::grammar::is_digit(#[trigger] sub[k]),
        decreases hi - i,
    {
        let c = v[i];
        if !('0' <= c && c <= '9') {
            proof {
                assert(!crate::grammar::is_digit(sub[i - lo]));
            }
            return false;
        }
        i += 1;
    }
    true
}

/// Whether `av[alo..ahi]` equals `bv[blo..bhi]`.
fn range_eq(av: &Vec<char>, alo: usize, ahi: usize, bv: &Vec<char>, blo: usize, bhi: usize) -> (r:
    bool)
    requires
        alo <= ahi <= av@.len(),
        blo <= bhi <= bv@.len(),
    ensures
        r == (av@.subrange(alo as int, ahi as int) == bv@.subrange(blo as int, bhi as int)),
{
    let ghost sa = av@.subrange(alo as int, ahi as int);
    let ghost sb = bv@.subrange(blo as int, bhi as int);
    if ahi - alo != bhi - blo {
        proof {
            assert(sa.len() != sb.len());
        }
        return false;
    }
    let mut i: usize = 0;
    while alo + i < ahi
        invariant
            alo + i <= ahi <= av@.len(),
            blo + i <= bhi <= bv@.len(),
            ahi - alo == bhi - blo,
            sa == av@.subrange(alo as int, ahi as int),
            sb == bv@.subrange(blo as int, bhi as int),
            forall|k: int| 0 <= k < i ==> sa[k] == sb[k],
        decreases ahi - (alo + i),
    {
        if av[alo + i] != bv[blo + i] {
            proof {
                assert(sa[i as int] != sb[i as int]);
            }
            return false;
        }
        i += 1;
    }
    proof {
        assert(sa =~= sb);
    }
    true
}

/// Whether the identifier `av[alo..ahi]` precedes `bv[blo..bhi]`.
fn range_ident_less(
    av: &Vec<char>,
    alo: usize,
    ahi: usize,
    bv: &Vec<char>,
    blo: usize,
    bhi: usize,
) -> (r: bool)
    requires
        alo <= ahi <= av@.len(),
        blo <= bhi <= bv@.len(),
    ensures
        r == ident_lt(av@.subrange(alo as int, ahi as int), bv@.subrange(blo as int, bhi as int)),
{
    let da = range_all_digits(av, alo, ahi);
    let db = range_all_digits(bv, blo, bhi);
    if da && db {
        if ahi - alo != bhi - blo {
            ahi - alo < bhi - blo
        } else {
            range_less(av, alo, ahi, bv, blo, bhi)
        }
    } else if da {
        true
    } else if db {
        false
    } else {
        range_less(av, alo, ahi, bv, blo, bhi)
    }
}

/// Whether the pre-release `a` precedes the pre-release `b`.
pub(crate) fn pre_less(a: &str, b: &str) -> (r: bool)
    ensures
        r == pre_lt(a@, b@),
{
    let av = crate::ver::chars_of(a);
    let bv = crate::ver::chars_of(b);
    let an = av.len();
    let bn = bv.len();
    if an == 0 {
        return false;
    }
    if bn == 0 {
        return true;
    }
    let mut pa: usize = 0;
    let mut pb: usize = 0;
    proof {
        assert(a@.skip(0) =~= a@);
        assert(b@.skip(0) =~= b@);
    }
    loop
        invariant
            pa <= an == av@.len(),
            pb <= bn == bv@.len(),
            av@ == a@,
            bv@ == b@,
            pre_lt(a@, b@) == pre_lt(a@.skip(pa as int), b@.skip(pb as int)),
        decreases an - pa,
    {
        let ghost suba = a@.skip(pa as int);
        let ghost subb = b@.skip(pb as int);
        if pa == an {
            proof {
                assert(suba =~= Seq::<char>::empty());
            }
            return false;
        }
        if pb == bn {
            proof {
                assert(subb =~= Seq::<char>::empty());
            }
            return true;
        }
        let da = crate::ver::find_in(&av, pa, an, '.');
        let db = crate::ver::find_in(&bv, pb, bn, '.');
        proof {
            assert(suba =~= av@.subrange(pa as int, an as int));
            assert(subb =~= bv@.subrange(pb as int, bn as int));
        }
        let ha_end = match da {
            Some(d) => d,
            None => an,
        };
        let hb_end = match db {
            Some(d) => d,
            None => bn,
        };
        proof {
            assert(head_ident(suba) =~= av@.subrange(pa as int, ha_end as int));
            assert(head_ident(subb) =~= bv@.subrange(pb as int, hb_end as int));
        }
        let heads_equal = range_eq(&av, pa, ha_end, &bv, pb, hb_end);
        if !heads_equal {
            return range_ident_less(&av, pa, ha_end, &bv, pb, hb_end);
        }
        match (da, db) {
            (None, None) => {
                return false;
            },
            (None, Some(_)) => {
                return true;
            },
            (Some(_), None) => {
                return false;
            },
            (Some(d1), Some(d2)) => {
                proof {
                    assert(tail_idents(suba) == Some(a@.skip(d1 + 1)));
                    assert(suba.skip(d1 + 1 - pa) =~= a@.skip(d1 + 1));
                    assert(tail_idents(subb) == Some(b@.skip(d2 + 1)));
                    assert(subb.skip(d2 + 1 - pb) =~= b@.skip(d2 + 1));
                }
                pa = d1 + 1;
                pb = d2 + 1;
            },
        }
    }
}

/// Whether the original string of `a` precedes that of `b`.
fn original_less(a: &str, b: &str) -> (r: bool)
    ensures
        r == chars_lt(a@, b@),
{
    let av = crate::ver::chars_of(a);
    let bv = crate::ver::chars_of(b);
    let an = av.len();
    let bn = bv.len();
    proof {
        assert(av@.subrange(0, an as int) =~= a@);
        assert(bv@.subrange(0, bn as int) =~= b@);
    }
    range_less(&av, 0, an, &bv, 0, bn)
}

/// Whether record `a` is less than or equal to record `b` in the total
/// record order.
pub fn info_le(a: &VersionInfo, b: &VersionInfo) -> (r: bool)
    ensures
        r == rec_le(a@, b@),
{
    match (&a.version, &b.version) {
        (Some(x), Some(y)) => {
            if x.major != y.major {
                x.major < y.major
            } else if x.minor != y.minor {
                x.minor < y.minor
            } else if x.patch != y.patch {
                x.patch < y.patch
            } else if pre_less(x.pre.as_str(), y.pre.as_str()) {
                true
            } else {
                x.pre == y.pre
            }
        },
        (Some(_), None) => false,
        (None, Some(_)) => true,
        (None, None) => {
            if original_less(a.original.as_str(), b.original.as_str()) {
                true
            } else {
                a.original == b.original
            }
        },
    }
}

} // verus!
