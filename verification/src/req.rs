//! Version requirements: a conjunction of comparator clauses such as
//! `>=1.2.0, <2.0.0`, with the conventional range grammar (the operators
//! `=`, `>`, `>=`, `<`, `<=`, `~`, `^`, a bare version meaning `^`, and
//! wildcard components) and the conventional matching rule that a
//! pre-release version satisfies a requirement only when some comparator
//! names a pre-release on the same `major.minor.patch`.
use vstd::prelude::*;
use crate::grammar::{all_digits, is_digit, num_val, valid_num_u64};
use crate::order::pre_lt;
use crate::ver::{Version, VersionView};

verus! {

/// A comparator operator.
#[derive(Clone, Copy, PartialEq, Eq, Structural, Debug)]
pub enum ReqOp {
    Exact,
    Greater,
    GreaterEq,
    Less,
    LessEq,
    Tilde,
    Caret,
    Wildcard,
}

/// One comparator clause: an operator and a possibly partial version.
/// `pre` holds the clause's pre-release identifiers verbatim, empty when
/// absent.
#[derive(Debug)]
pub struct Comparator {
    pub op: ReqOp,
    pub major: u64,
    pub minor: Option<u64>,
    pub patch: Option<u64>,
    pub pre: String,
}

/// The mathematical value of a comparator.
pub ghost struct ComparatorView {
    pub op: ReqOp,
    pub major: u64,
    pub minor: Option<u64>,
    pub patch: Option<u64>,
    pub pre: Seq<char>,
}

impl View for Comparator {
    type V = ComparatorView;

    open spec fn view(&self) -> ComparatorView {
        ComparatorView {
            op: self.op,
            major: self.major,
            minor: self.minor,
            patch: self.patch,
            pre: self.pre@,
        }
    }
}

/// A version requirement: the conjunction of its comparator clauses.
#[derive(Debug)]
pub struct VersionReq {
    pub comparators: Vec<Comparator>,
}

impl View for VersionReq {
    type V = Seq<ComparatorView>;

    open spec fn view(&self) -> Seq<ComparatorView> {
        self.comparators@.map_values(|c: Comparator| c@)
    }
}

/// The error of a malformed requirement expression.
#[derive(Debug)]
pub struct ReqParseError {}

/// `a >= b` in pre-release precedence.
pub open spec fn pre_ge(a: Seq<char>, b: Seq<char>) -> bool {
    !pre_lt(a, b)
}

/// Whether `v` matches `c` read as an exact pattern: equal on every
/// component the comparator names, and equal pre-release.
pub open spec fn matches_exact(c: ComparatorView, v: VersionView) -> bool {
    &&& v.major == c.major
    &&& (c.minor matches Some(m) ==> v.minor == m)
    &&& (c.patch matches Some(p) ==> v.patch == p)
    &&& v.pre == c.pre
}

/// Whether `v` is strictly greater than the point `c` names.
pub open spec fn matches_greater(c: ComparatorView, v: VersionView) -> bool {
    if v.major != c.major {
        v.major > c.major
    } else if c.minor is None {
        false
    } else if v.minor != c.minor->0 {
        v.minor > c.minor->0
    } else if c.patch is None {
        false
    } else if v.patch != c.patch->0 {
        v.patch > c.patch->0
    } else {
        pre_lt(c.pre, v.pre)
    }
}

/// Whether `v` is strictly less than the point `c` names.
pub open spec fn matches_less(c: ComparatorView, v: VersionView) -> bool {
    if v.major != c.major {
        v.major < c.major
    } else if c.minor is None {
        false
    } else if v.minor != c.minor->0 {
        v.minor < c.minor->0
    } else if c.patch is None {
        false
    } else if v.patch != c.patch->0 {
        v.patch < c.patch->0
    } else {
        pre_lt(v.pre, c.pre)
    }
}

/// Whether `v` matches `c` as a tilde pattern: equal on the named
/// components except that the patch may grow.
pub open spec fn matches_tilde(c: ComparatorView, v: VersionView) -> bool {
    if v.major != c.major {
        false
    } else if c.minor matches Some(m) && v.minor != m {
        false
    } else if c.patch matches Some(p) && v.patch != p {
        v.patch > c.patch->0
    } else {
        pre_ge(v.pre, c.pre)
    }
}

/// Whether `v` matches `c` as a caret pattern: compatible with the named
/// version, where the leftmost nonzero component is fixed.
pub open spec fn matches_caret(c: ComparatorView, v: VersionView) -> bool {
    if v.major != c.major {
        false
    } else if c.minor is None {
        true
    } else if c.patch is None {
        if c.major > 0 {
            v.minor >= c.minor->0
        } else {
            v.minor == c.minor->0
        }
    } else if c.major > 0 {
        if v.minor != c.minor->0 {
            v.minor > c.minor->0
        } else if v.patch != c.patch->0 {
            v.patch > c.patch->0
        } else {
            pre_ge(v.pre, c.pre)
        }
    } else if c.minor->0 > 0 {
        if v.minor != c.minor->0 {
            false
        } else if v.patch != c.patch->0 {
            v.patch > c.patch->0
        } else {
            pre_ge(v.pre, c.pre)
        }
    } else if v.minor != c.minor->0 || v.patch != c.patch->0 {
        false
    } else {
        pre_ge(v.pre, c.pre)
    }
}

/// Whether `v` satisfies the one comparator `c`, before the pre-release
/// compatibility rule.
pub open spec fn matches_impl(c: ComparatorView, v: VersionView) -> bool {
    match c.op {
        ReqOp::Exact => matches_exact(c, v),
        ReqOp::Wildcard => matches_exact(c, v),
        ReqOp::Greater => matches_greater(c, v),
        ReqOp::GreaterEq => matches_exact(c, v) || matches_greater(c, v),
        ReqOp::Less => matches_less(c, v),
        ReqOp::LessEq => matches_exact(c, v) || matches_less(c, v),
        ReqOp::Tilde => matches_tilde(c, v),
        ReqOp::Caret => matches_caret(c, v),
    }
}

/// Whether `c` names a pre-release on the same `major.minor.patch` as `v`,
/// which lets a pre-release version match the requirement.
pub open spec fn pre_compatible(c: ComparatorView, v: VersionView) -> bool {
    c.major == v.major && c.minor == Some(v.minor) && c.patch == Some(v.patch) && c.pre.len() > 0
}

/// Whether `v` satisfies the requirement: every comparator holds, and a
/// version with a pre-release additionally needs some comparator naming a
/// pre-release on its own `major.minor.patch`.
pub open spec fn req_matches(q: Seq<ComparatorView>, v: VersionView) -> bool {
    &&& forall|i: int| 0 <= i < q.len() ==> matches_impl(#[trigger] q[i], v)
    &&& (v.pre.len() == 0 || exists|i: int| 0 <= i < q.len() && pre_compatible(#[trigger] q[i], v))
}

/// `s` with its leading spaces removed.
pub open spec fn skip_spaces(s: Seq<char>) -> Seq<char>
    decreases s.len(),
{
    if s.len() > 0 && s[0] == ' ' {
        skip_spaces(s.drop_first())
    } else {
        s
    }
}

/// A character that may stand for a wildcard component.
pub open spec fn is_wildcard_char(c: char) -> bool {
    c == '*' || c == 'x' || c == 'X'
}

/// The operator at the head of a comparator, what follows it, and whether
/// it was written out (a bare version means caret).
pub open spec fn sp_op(s: Seq<char>) -> (ReqOp, Seq<char>, bool) {
    if s.len() >= 2 && s[0] == '>' && s[1] == '=' {
        (ReqOp::GreaterEq, s.skip(2), true)
    } else if s.len() >= 2 && s[0] == '<' && s[1] == '=' {
        (ReqOp::LessEq, s.skip(2), true)
    } else if s.len() >= 1 && s[0] == '=' {
        (ReqOp::Exact, s.skip(1), true)
    } else if s.len() >= 1 && s[0] == '>' {
        (ReqOp::Greater, s.skip(1), true)
    } else if s.len() >= 1 && s[0] == '<' {
        (ReqOp::Less, s.skip(1), true)
    } else if s.len() >= 1 && s[0] == '~' {
        (ReqOp::Tilde, s.skip(1), true)
    } else if s.len() >= 1 && s[0] == '^' {
        (ReqOp::Caret, s.skip(1), true)
    } else {
        (ReqOp::Caret, s, false)
    }
}

/// How many digits stand at the head of `s`.
pub open spec fn digit_prefix_len(s: Seq<char>) -> int
    decreases s.len(),
{
    if s.len() > 0 && is_digit(s[0]) {
        1 + digit_prefix_len(s.drop_first())
    } else {
        0
    }
}

proof fn lemma_digit_prefix(s: Seq<char>)
    ensures
        0 <= digit_prefix_len(s) <= s.len(),
    decreases s.len(),
{
    if s.len() > 0 && is_digit(s[0]) {
        lemma_digit_prefix(s.drop_first());
    }
}

/// The numeric component at the head of `s` and what follows it, or nothing
/// when the digits there do not form a numeric identifier within the
/// machine bound.
pub open spec fn sp_num(s: Seq<char>) -> Option<(u64, Seq<char>)> {
    let k = digit_prefix_len(s);
    let ds = s.take(k);
    if valid_num_u64(ds) {
        Some((num_val(ds) as u64, s.skip(k)))
    } else {
        None
    }
}

/// How many identifier characters stand at the head of `s`.
pub open spec fn ident_prefix_len(s: Seq<char>) -> int
    decreases s.len(),
{
    if s.len() > 0 && crate::grammar::is_ident_char(s[0]) {
        1 + ident_prefix_len(s.drop_first())
    } else {
        0
    }
}

proof fn lemma_ident_prefix(s: Seq<char>)
    ensures
        0 <= ident_prefix_len(s) <= s.len(),
    decreases s.len(),
{
    if s.len() > 0 && crate::grammar::is_ident_char(s[0]) {
        lemma_ident_prefix(s.drop_first());
    }
}

/// The dot-separated identifier list at the head of `s` and what follows
/// it, or nothing when a segment is empty or, for a pre-release, a numeric
/// segment has a leading zero.
pub open spec fn sp_idents(s: Seq<char>, pre: bool) -> Option<(Seq<char>, Seq<char>)>
    decreases s.len(),
    via sp_idents_dec
{
    let k = ident_prefix_len(s);
    let seg = s.take(k);
    if k == 0 {
        None
    } else if pre && all_digits(seg) && seg[0] == '0' && k > 1 {
        None
    } else if s.skip(k).len() > 0 && s.skip(k)[0] == '.' {
        match sp_idents(s.skip(k + 1), pre) {
            None => None,
            Some(r) => Some((seg + seq!['.'] + r.0, r.1)),
        }
    } else {
        Some((seg, s.skip(k)))
    }
}

#[via_fn]
proof fn sp_idents_dec(s: Seq<char>, pre: bool) {
    lemma_ident_prefix(s);
}

/// A comparator view from its parts.
pub open spec fn cv(
    op: ReqOp,
    major: u64,
    minor: Option<u64>,
    patch: Option<u64>,
    pre: Seq<char>,
) -> ComparatorView {
    ComparatorView { op, major, minor, patch, pre }
}

/// The rest of a comparator after a wildcard minor component.
pub open spec fn sp_after_wild_minor(op1: ReqOp, major: u64, s5: Seq<char>) -> Option<
    (ComparatorView, Seq<char>),
> {
    if s5.len() > 0 && s5[0] == '.' {
        let s6 = s5.skip(1);
        if s6.len() > 0 && is_wildcard_char(s6[0]) {
            Some((cv(op1, major, None, None, Seq::empty()), skip_spaces(s6.skip(1))))
        } else {
            None
        }
    } else {
        Some((cv(op1, major, None, None, Seq::empty()), skip_spaces(s5)))
    }
}

/// The rest of a comparator after a numeric minor component.
pub open spec fn sp_after_minor(
    op0: ReqOp,
    explicit: bool,
    major: u64,
    minor: u64,
    s5: Seq<char>,
) -> Option<(ComparatorView, Seq<char>)> {
    if s5.len() > 0 && s5[0] == '.' {
        let s6 = s5.skip(1);
        if s6.len() > 0 && is_wildcard_char(s6[0]) {
            let op1 = if explicit {
                op0
            } else {
                ReqOp::Wildcard
            };
            Some((cv(op1, major, Some(minor), None, Seq::empty()), skip_spaces(s6.skip(1))))
        } else {
            match sp_num(s6) {
                None => None,
                Some(pt) => sp_pre_build(op0, major, minor, pt.0, pt.1),
            }
        }
    } else {
        Some((cv(op0, major, Some(minor), None, Seq::empty()), skip_spaces(s5)))
    }
}

/// The rest of a comparator after a full numeric core: an optional
/// pre-release after `-`.
pub open spec fn sp_pre_build(op0: ReqOp, major: u64, minor: u64, patch: u64, s7: Seq<char>) -> Option<
    (ComparatorView, Seq<char>),
> {
    if s7.len() > 0 && s7[0] == '-' {
        match sp_idents(s7.skip(1), true) {
            None => None,
            Some(pr) => sp_build(op0, major, minor, patch, pr.0, pr.1),
        }
    } else {
        sp_build(op0, major, minor, patch, Seq::empty(), s7)
    }
}

/// The end of a comparator: optional build metadata after `+`, which is
/// checked and discarded.
pub open spec fn sp_build(
    op0: ReqOp,
    major: u64,
    minor: u64,
    patch: u64,
    pre: Seq<char>,
    s8: Seq<char>,
) -> Option<(ComparatorView, Seq<char>)> {
    if s8.len() > 0 && s8[0] == '+' {
        match sp_idents(s8.skip(1), false) {
            None => None,
            Some(b) => Some((cv(op0, major, Some(minor), Some(patch), pre), skip_spaces(b.1))),
        }
    } else {
        Some((cv(op0, major, Some(minor), Some(patch), pre), skip_spaces(s8)))
    }
}

/// One comparator at the head of `s` and what follows its trailing spaces,
/// or nothing when it is malformed.
pub open spec fn sp_comparator(s: Seq<char>) -> Option<(ComparatorView, Seq<char>)> {
    let o = sp_op(s);
    let op0 = o.0;
    let s1 = o.1;
    let explicit = o.2;
    let s2 = skip_spaces(s1);
    match sp_num(s2) {
        None => None,
        Some(mj) => {
            let major = mj.0;
            let s3 = mj.1;
            if s3.len() > 0 && s3[0] == '.' {
                let s4 = s3.skip(1);
                if s4.len() > 0 && is_wildcard_char(s4[0]) {
                    let op1 = if explicit {
                        op0
                    } else {
                        ReqOp::Wildcard
                    };
                    sp_after_wild_minor(op1, major, s4.skip(1))
                } else {
                    match sp_num(s4) {
                        None => None,
                        Some(mn) => sp_after_minor(op0, explicit, major, mn.0, mn.1),
                    }
                }
            } else {
                Some((cv(op0, major, None, None, Seq::empty()), skip_spaces(s3)))
            }
        },
    }
}

/// The comma-separated comparators of a requirement; `depth` is how many
/// commas may still follow, since a requirement holds at most a fixed
/// number of comparators.
pub open spec fn sp_req_rec(s: Seq<char>, depth: nat) -> Option<Seq<ComparatorView>>
    decreases depth,
{
    match sp_comparator(s) {
        None => None,
        Some(cr) => {
            let c = cr.0;
            let rest = cr.1;
            if rest.len() == 0 {
                Some(seq![c])
            } else if rest[0] == ',' {
                if depth == 0 {
                    None
                } else {
                    match sp_req_rec(skip_spaces(rest.skip(1)), (depth - 1) as nat) {
                        None => None,
                        Some(cs) => Some(seq![c] + cs),
                    }
                }
            } else {
                None
            }
        },
    }
}

/// What parsing a requirement expression yields: the empty conjunction for
/// a lone wildcard, the comparator list otherwise, or nothing when the
/// expression is malformed.
pub open spec fn sp_req(s: Seq<char>) -> Option<Seq<ComparatorView>> {
    let t = skip_spaces(s);
    if t.len() > 0 && is_wildcard_char(t[0]) {
        if skip_spaces(t.skip(1)).len() == 0 {
            Some(Seq::empty())
        } else {
            None
        }
    } else {
        sp_req_rec(t, 31)
    }
}

/// The position after the spaces that begin at `pos`.
fn skip_spaces_at(cs: &Vec<char>, pos: usize) -> (p: usize)
    requires
        pos <= cs@.len(),
    ensures
        pos <= p <= cs@.len(),
        skip_spaces(cs@.skip(pos as int)) == cs@.skip(p as int),
{
    let n = cs.len();
    let mut p = pos;
    while p < n && cs[p] == ' '
        invariant
            pos <= p <= n == cs@.len(),
            skip_spaces(cs@.skip(pos as int)) == skip_spaces(cs@.skip(p as int)),
        decreases n - p,
    {
        proof {
            assert(cs@.skip(p as int)[0] == ' ');
            assert(cs@.skip(p as int).drop_first() =~= cs@.skip(p + 1));
        }
        p += 1;
    }
    proof {
        if p < n {
            assert(cs@.skip(p as int)[0] != ' ');
        } else {
            assert(cs@.skip(p as int).len() == 0);
        }
    }
    p
}

/// The operator at `pos`, the position after it, and whether it was
/// written out.
fn op_at(cs: &Vec<char>, pos: usize) -> (r: (ReqOp, usize, bool))
    requires
        pos <= cs@.len(),
    ensures
        pos <= r.1 <= cs@.len(),
        sp_op(cs@.skip(pos as int)) == (r.0, cs@.skip(r.1 as int), r.2),
{
    let ghost s = cs@.skip(pos as int);
    let n = cs.len();
    proof {
        if pos < n {
            assert(s[0] == cs@[pos as int]);
            assert(s.skip(1) =~= cs@.skip(pos + 1));
        }
        if pos + 1 < n {
            assert(s[1] == cs@[pos + 1]);
            assert(s.skip(2) =~= cs@.skip(pos + 2));
        }
    }
    if n - pos >= 2 && cs[pos] == '>' && cs[pos + 1] == '=' {
        (ReqOp::GreaterEq, pos + 2, true)
    } else if n - pos >= 2 && cs[pos] == '<' && cs[pos + 1] == '=' {
        (ReqOp::LessEq, pos + 2, true)
    } else if pos < n && cs[pos] == '=' {
        (ReqOp::Exact, pos + 1, true)
    } else if pos < n && cs[pos] == '>' {
        (ReqOp::Greater, pos + 1, true)
    } else if pos < n && cs[pos] == '<' {
        (ReqOp::Less, pos + 1, true)
    } else if pos < n && cs[pos] == '~' {
        (ReqOp::Tilde, pos + 1, true)
    } else if pos < n && cs[pos] == '^' {
        (ReqOp::Caret, pos + 1, true)
    } else {
        (ReqOp::Caret, pos, false)
    }
}

/// The numeric component at `pos` and the position after it, or nothing.
fn num_at(cs: &Vec<char>, pos: usize) -> (r: Option<(u64, usize)>)
    requires
        pos <= cs@.len(),
    ensures
        match r {
            None => sp_num(cs@.skip(pos as int)) is None,
            Some(v) => pos <= v.1 <= cs@.len() && sp_num(cs@.skip(pos as int)) == Some(
                (v.0, cs@.skip(v.1 as int)),
            ),
        },
{
    let ghost s = cs@.skip(pos as int);
    let n = cs.len();
    let mut e = pos;
    while e < n && '0' <= cs[e] && cs[e] <= '9'
        invariant
            pos <= e <= n == cs@.len(),
            s == cs@.skip(pos as int),
            digit_prefix_len(s) == (e - pos) + digit_prefix_len(cs@.skip(e as int)),
        decreases n - e,
    {
        proof {
            assert(cs@.skip(e as int)[0] == cs@[e as int]);
            assert(is_digit(cs@.skip(e as int)[0]));
            assert(cs@.skip(e as int).drop_first() =~= cs@.skip(e + 1));
        }
        e += 1;
    }
    proof {
        if e < n {
            assert(cs@.skip(e as int)[0] == cs@[e as int]);
            assert(!is_digit(cs@.skip(e as int)[0]));
        } else {
            assert(cs@.skip(e as int).len() == 0);
        }
        assert(digit_prefix_len(s) == e - pos);
        assert(s.take(e - pos) =~= cs@.subrange(pos as int, e as int));
        assert(s.skip(e - pos) =~= cs@.skip(e as int));
    }
    match crate::ver::parse_num(cs, pos, e) {
        Some(v) => Some((v, e)),
        None => None,
    }
}

/// Whether `c` may appear in an identifier.
fn ident_char_check(c: char) -> (r: bool)
    ensures
        r == crate::grammar::is_ident_char(c),
{
    ('0' <= c && c <= '9') || ('a' <= c && c <= 'z') || ('A' <= c && c <= 'Z') || c == '-'
}

/// The end of the dot-separated identifier list that begins at `pos`, or
/// nothing when it is malformed.
fn idents_at(cs: &Vec<char>, pos: usize, pre: bool) -> (r: Option<usize>)
    requires
        pos <= cs@.len(),
    ensures
        match r {
            None => sp_idents(cs@.skip(pos as int), pre) is None,
            Some(e) => pos <= e <= cs@.len() && sp_idents(cs@.skip(pos as int), pre) == Some(
                (cs@.subrange(pos as int, e as int), cs@.skip(e as int)),
            ),
        },
    decreases cs@.len() - pos,
{
    let ghost s = cs@.skip(pos as int);
    let n = cs.len();
    let mut e = pos;
    while e < n && ident_char_check(cs[e])
        invariant
            pos <= e <= n == cs@.len(),
            s == cs@.skip(pos as int),
            ident_prefix_len(s) == (e - pos) + ident_prefix_len(cs@.skip(e as int)),
        decreases n - e,
    {
        proof {
            assert(cs@.skip(e as int)[0] == cs@[e as int]);
            assert(crate::grammar::is_ident_char(cs@.skip(e as int)[0]));
            assert(cs@.skip(e as int).drop_first() =~= cs@.skip(e + 1));
        }
        e += 1;
    }
    proof {
        if e < n {
            assert(cs@.skip(e as int)[0] == cs@[e as int]);
            assert(!crate::grammar::is_ident_char(cs@.skip(e as int)[0]));
        } else {
            assert(cs@.skip(e as int).len() == 0);
        }
        assert(ident_prefix_len(s) == e - pos);
        assert(s.take(e - pos) =~= cs@.subrange(pos as int, e as int));
        assert(s.skip(e - pos) =~= cs@.skip(e as int));
    }
    if e == pos {
        return None;
    }
    if pre {
        let dig = crate::order::range_all_digits(cs, pos, e);
        if dig && e - pos > 1 && cs[pos] == '0' {
            proof {
                assert(cs@.subrange(pos as int, e as int)[0] == cs@[pos as int]);
            }
            return None;
        }
        proof {
            let seg = cs@.subrange(pos as int, e as int);
            if all_digits(seg) && seg[0] == '0' && e - pos > 1 {
                assert(seg[0] == cs@[pos as int]);
                assert(false);
            }
        }
    }
    if e < n && cs[e] == '.' {
        proof {
            assert(cs@.skip(e as int)[0] == cs@[e as int]);
            assert(s.skip((e - pos) + 1) =~= cs@.skip(e + 1));
        }
        match idents_at(cs, e + 1, pre) {
            None => None,
            Some(e2) => {
                proof {
                    assert(cs@.subrange(pos as int, e as int) + seq!['.'] + cs@.subrange(
                        e + 1,
                        e2 as int,
                    ) =~= cs@.subrange(pos as int, e2 as int));
                    assert(cs@[e as int] == '.');
                }
                Some(e2)
            },
        }
    } else {
        proof {
            if e < n {
                assert(cs@.skip(e as int)[0] == cs@[e as int]);
            }
        }
        Some(e)
    }
}

/// The comparator that begins at `pos` and the position after its trailing
/// spaces, or nothing when it is malformed.
#[verifier::rlimit(60)]
fn comparator_at(s: &str, cs: &Vec<char>, pos: usize) -> (r: Option<(Comparator, usize)>)
    requires
        cs@ == s@,
        pos <= cs@.len(),
    ensures
        match r {
            None => sp_comparator(cs@.skip(pos as int)) is None,
            Some(v) => pos <= v.1 <= cs@.len() && sp_comparator(cs@.skip(pos as int)) == Some(
                (v.0@, cs@.skip(v.1 as int)),
            ),
        },
{
    let n = cs.len();
    let (op0, p1, explicit) = op_at(cs, pos);
    let p2 = skip_spaces_at(cs, p1);
    let (major, p3) = match num_at(cs, p2) {
        None => {
            return None;
        },
        Some(v) => v,
    };
    if p3 < n && cs[p3] == '.' {
        proof {
            assert(cs@.skip(p3 as int)[0] == cs@[p3 as int]);
            assert(cs@.skip(p3 as int).skip(1) =~= cs@.skip(p3 + 1));
        }
        let p4 = p3 + 1;
        if p4 < n && (cs[p4] == '*' || cs[p4] == 'x' || cs[p4] == 'X') {
            proof {
                assert(cs@.skip(p4 as int)[0] == cs@[p4 as int]);
                assert(cs@.skip(p4 as int).skip(1) =~= cs@.skip(p4 + 1));
            }
            let op1 = if explicit {
                op0
            } else {
                ReqOp::Wildcard
            };
            let p5 = p4 + 1;
            if p5 < n && cs[p5] == '.' {
                proof {
                    assert(cs@.skip(p5 as int)[0] == cs@[p5 as int]);
                    assert(cs@.skip(p5 as int).skip(1) =~= cs@.skip(p5 + 1));
                }
                let p6 = p5 + 1;
                if p6 < n && (cs[p6] == '*' || cs[p6] == 'x' || cs[p6] == 'X') {
                    proof {
                        assert(cs@.skip(p6 as int)[0] == cs@[p6 as int]);
                        assert(cs@.skip(p6 as int).skip(1) =~= cs@.skip(p6 + 1));
                    }
                    let p7 = skip_spaces_at(cs, p6 + 1);
                    let c = Comparator {
                        op: op1,
                        major,
                        minor: None,
                        patch: None,
                        pre: String::new(),
                    };
                    return Some((c, p7));
                } else {
                    proof {
                        if p6 < n {
                            assert(cs@.skip(p6 as int)[0] == cs@[p6 as int]);
                        }
                    }
                    return None;
                }
            } else {
                proof {
                    if p5 < n {
                        assert(cs@.skip(p5 as int)[0] == cs@[p5 as int]);
                    }
                }
                let p7 = skip_spaces_at(cs, p5);
                let c = Comparator { op: op1, major, minor: None, patch: None, pre: String::new() };
                return Some((c, p7));
            }
        }
        let (minor, p5) = match num_at(cs, p4) {
            None => {
                proof {
                    if p4 < n {
                        assert(cs@.skip(p4 as int)[0] == cs@[p4 as int]);
                    }
                }
                return None;
            },
            Some(v) => v,
        };
        if p5 < n && cs[p5] == '.' {
            proof {
                assert(cs@.skip(p5 as int)[0] == cs@[p5 as int]);
                assert(cs@.skip(p5 as int).skip(1) =~= cs@.skip(p5 + 1));
            }
            let p6 = p5 + 1;
            if p6 < n && (cs[p6] == '*' || cs[p6] == 'x' || cs[p6] == 'X') {
                proof {
                    assert(cs@.skip(p6 as int)[0] == cs@[p6 as int]);
                    assert(cs@.skip(p6 as int).skip(1) =~= cs@.skip(p6 + 1));
                }
                let op1 = if explicit {
                    op0
                } else {
                    ReqOp::Wildcard
                };
                let p7 = skip_spaces_at(cs, p6 + 1);
                let c = Comparator {
                    op: op1,
                    major,
                    minor: Some(minor),
                    patch: None,
                    pre: String::new(),
                };
                return Some((c, p7));
            }
            let (patch, p7) = match num_at(cs, p6) {
                None => {
                    proof {
                        if p6 < n {
                            assert(cs@.skip(p6 as int)[0] == cs@[p6 as int]);
                        }
                    }
                    return None;
                },
                Some(v) => v,
            };
            let (pre, p8) = if p7 < n && cs[p7] == '-' {
                proof {
                    assert(cs@.skip(p7 as int)[0] == cs@[p7 as int]);
                    assert(cs@.skip(p7 as int).skip(1) =~= cs@.skip(p7 + 1));
                }
                match idents_at(cs, p7 + 1, true) {
                    None => {
                        return None;
                    },
                    Some(e) => {
                        let pre = s.substring_char(p7 + 1, e).to_owned();
                        (pre, e)
                    },
                }
            } else {
                proof {
                    if p7 < n {
                        assert(cs@.skip(p7 as int)[0] == cs@[p7 as int]);
                    }
                }
                (String::new(), p7)
            };
            let p9 = if p8 < n && cs[p8] == '+' {
                proof {
                    assert(cs@.skip(p8 as int)[0] == cs@[p8 as int]);
                    assert(cs@.skip(p8 as int).skip(1) =~= cs@.skip(p8 + 1));
                }
                match idents_at(cs, p8 + 1, false) {
                    None => {
                        return None;
                    },
                    Some(e) => e,
                }
            } else {
                proof {
                    if p8 < n {
                        assert(cs@.skip(p8 as int)[0] == cs@[p8 as int]);
                    }
                }
                p8
            };
            let p10 = skip_spaces_at(cs, p9);
            let c = Comparator { op: op0, major, minor: Some(minor), patch: Some(patch), pre };
            return Some((c, p10));
        } else {
            proof {
                if p5 < n {
                    assert(cs@.skip(p5 as int)[0] == cs@[p5 as int]);
                }
            }
            let p7 = skip_spaces_at(cs, p5);
            let c = Comparator {
                op: op0,
                major,
                minor: Some(minor),
                patch: None,
                pre: String::new(),
            };
            return Some((c, p7));
        }
    } else {
        proof {
            if p3 < n {
                assert(cs@.skip(p3 as int)[0] == cs@[p3 as int]);
            }
        }
        let p7 = skip_spaces_at(cs, p3);
        let c = Comparator { op: op0, major, minor: None, patch: None, pre: String::new() };
        return Some((c, p7));
    }
}

impl VersionReq {
    /// Parses a requirement expression: comma-separated comparators, or a
    /// lone wildcard. A malformed expression is the error.
    pub fn parse(s: &str) -> (r: Result<VersionReq, ReqParseError>)
        ensures
            match r {
                Ok(q) => sp_req(s@) == Some(q@),
                Err(e) => sp_req(s@) is None,
            },
    {
        let cs = crate::ver::chars_of(s);
        let n = cs.len();
        proof {
            assert(cs@.skip(0) =~= cs@);
        }
        let start = skip_spaces_at(&cs, 0);
        let ghost t = skip_spaces(s@);
        if start < n && (cs[start] == '*' || cs[start] == 'x' || cs[start] == 'X') {
            proof {
                assert(t[0] == cs@[start as int]);
                assert(t.skip(1) =~= cs@.skip(start + 1));
            }
            let p2 = skip_spaces_at(&cs, start + 1);
            if p2 == n {
                let q = VersionReq { comparators: Vec::new() };
                proof {
                    assert(q@ =~= Seq::<ComparatorView>::empty());
                }
                return Ok(q);
            } else {
                return Err(ReqParseError {});
            }
        }
        proof {
            if start < n {
                assert(t[0] == cs@[start as int]);
            }
        }
        let mut comps: Vec<Comparator> = Vec::new();
        let mut pos = start;
        let mut depth: u64 = 31;
        loop
            invariant
                cs@ == s@,
                pos <= n == cs@.len(),
                depth <= 31,
                sp_req(s@) == sp_req_rec(t, 31),
                match sp_req_rec(cs@.skip(pos as int), depth as nat) {
                    None => sp_req_rec(t, 31) is None,
                    Some(tail) => sp_req_rec(t, 31) matches Some(whole) && whole
                        == comps@.map_values(|c: Comparator| c@) + tail,
                },
            decreases depth,
        {
            match comparator_at(s, &cs, pos) {
                None => {
                    return Err(ReqParseError {});
                },
                Some((c, p2)) => {
                    let ghost cview = c@;
                    let ghost old_comps = comps@;
                    comps.push(c);
                    proof {
                        assert(comps@.map_values(|c: Comparator| c@) =~= old_comps.map_values(
                            |c: Comparator| c@,
                        ).push(cview));
                    }
                    if p2 == n {
                        proof {
                            assert(cs@.skip(p2 as int).len() == 0);
                            assert(old_comps.map_values(|c: Comparator| c@) + seq![cview]
                                =~= comps@.map_values(|c: Comparator| c@));
                        }
                        return Ok(VersionReq { comparators: comps });
                    }
                    proof {
                        assert(cs@.skip(p2 as int)[0] == cs@[p2 as int]);
                    }
                    if cs[p2] != ',' {
                        return Err(ReqParseError {});
                    }
                    if depth == 0 {
                        return Err(ReqParseError {});
                    }
                    depth = depth - 1;
                    proof {
                        assert(cs@.skip(p2 as int).skip(1) =~= cs@.skip(p2 + 1));
                    }
                    let new_pos = skip_spaces_at(&cs, p2 + 1);
                    proof {
                        let old_tail = sp_req_rec(cs@.skip(pos as int), (depth + 1) as nat);
                        let new_tail = sp_req_rec(cs@.skip(new_pos as int), depth as nat);
                        match new_tail {
                            None => {
                                assert(old_tail is None);
                            },
                            Some(ts) => {
                                assert(old_tail == Some(seq![cview] + ts));
                                assert(old_comps.map_values(|c: Comparator| c@) + (seq![cview]
                                    + ts) =~= comps@.map_values(|c: Comparator| c@) + ts);
                            },
                        }
                    }
                    pos = new_pos;
                },
            }
        }
    }
}

/// Whether the pre-release `a` is at or above `b` in precedence.
fn pre_ge_exec(a: &str, b: &str) -> (r: bool)
    ensures
        r == pre_ge(a@, b@),
{
    !crate::order::pre_less(a, b)
}

/// Whether `v` satisfies the one comparator, before the pre-release rule.
fn matches_impl_exec(c: &Comparator, v: &Version) -> (r: bool)
    ensures
        r == matches_impl(c@, v@),
{
    match c.op {
        ReqOp::Exact => matches_exact_exec(c, v),
        ReqOp::Wildcard => matches_exact_exec(c, v),
        ReqOp::Greater => matches_greater_exec(c, v),
        ReqOp::GreaterEq => matches_exact_exec(c, v) || matches_greater_exec(c, v),
        ReqOp::Less => matches_less_exec(c, v),
        ReqOp::LessEq => matches_exact_exec(c, v) || matches_less_exec(c, v),
        ReqOp::Tilde => matches_tilde_exec(c, v),
        ReqOp::Caret => matches_caret_exec(c, v),
    }
}

fn matches_exact_exec(c: &Comparator, v: &Version) -> (r: bool)
    ensures
        r == matches_exact(c@, v@),
{
    if v.major != c.major {
        return false;
    }
    if let Some(m) = c.minor {
        if v.minor != m {
            return false;
        }
    }
    if let Some(p) = c.patch {
        if v.patch != p {
            return false;
        }
    }
    v.pre == c.pre
}

fn matches_greater_exec(c: &Comparator, v: &Version) -> (r: bool)
    ensures
        r == matches_greater(c@, v@),
{
    if v.major != c.major {
        return v.major > c.major;
    }
    match c.minor {
        None => false,
        Some(m) => {
            if v.minor != m {
                return v.minor > m;
            }
            match c.patch {
                None => false,
                Some(p) => {
                    if v.patch != p {
                        return v.patch > p;
                    }
                    crate::order::pre_less(c.pre.as_str(), v.pre.as_str())
                },
            }
        },
    }
}

fn matches_less_exec(c: &Comparator, v: &Version) -> (r: bool)
    ensures
        r == matches_less(c@, v@),
{
    if v.major != c.major {
        return v.major < c.major;
    }
    match c.minor {
        None => false,
        Some(m) => {
            if v.minor != m {
                return v.minor < m;
            }
            match c.patch {
                None => false,
                Some(p) => {
                    if v.patch != p {
                        return v.patch < p;
                    }
                    crate::order::pre_less(v.pre.as_str(), c.pre.as_str())
                },
            }
        },
    }
}

fn matches_tilde_exec(c: &Comparator, v: &Version) -> (r: bool)
    ensures
        r == matches_tilde(c@, v@),
{
    if v.major != c.major {
        return false;
    }
    if let Some(m) = c.minor {
        if v.minor != m {
            return false;
        }
    }
    if let Some(p) = c.patch {
        if v.patch != p {
            return v.patch > p;
        }
    }
    pre_ge_exec(v.pre.as_str(), c.pre.as_str())
}

fn matches_caret_exec(c: &Comparator, v: &Version) -> (r: bool)
    ensures
        r == matches_caret(c@, v@),
{
    if v.major != c.major {
        return false;
    }
    let minor = match c.minor {
        None => {
            return true;
        },
        Some(m) => m,
    };
    let patch = match c.patch {
        None => {
            if c.major > 0 {
                return v.minor >= minor;
            } else {
                return v.minor == minor;
            }
        },
        Some(p) => p,
    };
    if c.major > 0 {
        if v.minor != minor {
            return v.minor > minor;
        } else if v.patch != patch {
            return v.patch > patch;
        }
    } else if minor > 0 {
        if v.minor != minor {
            return false;
        } else if v.patch != patch {
            return v.patch > patch;
        }
    } else if v.minor != minor || v.patch != patch {
        return false;
    }
    pre_ge_exec(v.pre.as_str(), c.pre.as_str())
}

fn pre_compatible_exec(c: &Comparator, v: &Version) -> (r: bool)
    ensures
        r == pre_compatible(c@, v@),
{
    if c.major != v.major {
        return false;
    }
    match (c.minor, c.patch) {
        (Some(m), Some(p)) => m == v.minor && p == v.patch && !c.pre.as_str().is_empty(),
        _ => false,
    }
}

impl VersionReq {
    /// Whether the version satisfies this requirement.
    pub fn matches(&self, v: &Version) -> (r: bool)
        ensures
            r == req_matches(self@, v@),
    {
        let n = self.comparators.len();
        let mut i: usize = 0;
        while i < n
            invariant
                i <= n == self.comparators@.len(),
                forall|k: int| 0 <= k < i ==> matches_impl(#[trigger] self@[k], v@),
            decreases n - i,
        {
            if !matches_impl_exec(&self.comparators[i], v) {
                proof {
                    assert(!matches_impl(self@[i as int], v@));
                }
                return false;
            }
            i += 1;
        }
        if v.pre.as_str().is_empty() {
            return true;
        }
        let mut i: usize = 0;
        while i < n
            invariant
                i <= n == self.comparators@.len(),
                forall|k: int| 0 <= k < n ==> matches_impl(#[trigger] self@[k], v@),
                v@.pre.len() != 0,
                forall|k: int| 0 <= k < i ==> !pre_compatible(#[trigger] self@[k], v@),
            decreases n - i,
        {
            if pre_compatible_exec(&self.comparators[i], v) {
                proof {
                    assert(pre_compatible(self@[i as int], v@));
                }
                return true;
            }
            i += 1;
        }
        false
    }
}

} // verus!
