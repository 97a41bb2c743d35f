//! Version records: a raw token paired with its parsed structured version,
//! and the verified parser that classifies tokens, tolerating one leading
//! `v`.
use vstd::prelude::*;
use crate::grammar::{
    is_digit, is_ident_char, all_digits, all_ident_chars, num_val, valid_num_u64,
    valid_pre_ident, valid_build_ident, find_char, lemma_find_char, lemma_find_char_at,
    lemma_find_char_none, valid_dotted_pre, valid_dotted_build, valid_core, core_pre_part,
    build_of, core_of, pre_of, major_str, minor_patch_str, minor_str, patch_str, valid_semver,
};

verus! {

/// A structured semantic version. `pre` and `build` hold the dot-separated
/// identifier lists verbatim, empty when absent.
pub struct Version {
    pub major: u64,
    pub minor: u64,
    pub patch: u64,
    pub pre: String,
    pub build: String,
}

/// The mathematical value of a structured version.
pub ghost struct VersionView {
    pub major: u64,
    pub minor: u64,
    pub patch: u64,
    pub pre: Seq<char>,
    pub build: Seq<char>,
}

impl View for Version {
    type V = VersionView;

    open spec fn view(&self) -> VersionView {
        VersionView {
            major: self.major,
            minor: self.minor,
            patch: self.patch,
            pre: self.pre@,
            build: self.build@,
        }
    }
}

/// One input token: the original string, preserved verbatim, and its parsed
/// version when the token (or the token with one leading `v` removed) is a
/// valid semantic version.
pub struct VersionInfo {
    pub original: String,
    pub version: Option<Version>,
}

/// The mathematical value of a version record.
pub ghost struct RecordView {
    pub original: Seq<char>,
    pub version: Option<VersionView>,
}

impl View for VersionInfo {
    type V = RecordView;

    open spec fn view(&self) -> RecordView {
        RecordView {
            original: self.original@,
            version: match self.version {
                Some(v) => Some(v@),
                None => None,
            },
        }
    }
}

/// The structured value of a valid semantic version string.
pub open spec fn decomp(s: Seq<char>) -> VersionView {
    VersionView {
        major: num_val(major_str(s)) as u64,
        minor: num_val(minor_str(s)) as u64,
        patch: num_val(patch_str(s)) as u64,
        pre: pre_of(s),
        build: build_of(s),
    }
}

/// `s` with one leading `v` removed, when it has one.
pub open spec fn spec_strip_v(s: Seq<char>) -> Seq<char> {
    if s.len() > 0 && s[0] == 'v' {
        s.drop_first()
    } else {
        s
    }
}

/// What parsing a token yields: the structured version of the token itself
/// when it is valid, else of the token with one leading `v` removed when
/// that is valid, else nothing.
pub open spec fn spec_parse(s: Seq<char>) -> Option<VersionView> {
    if valid_semver(s) {
        Some(decomp(s))
    } else if valid_semver(spec_strip_v(s)) {
        Some(decomp(spec_strip_v(s)))
    } else {
        None
    }
}

/// The characters of `s` as a vector.
pub(crate) fn chars_of(s: &str) -> (v: Vec<char>)
    ensures
        v@ == s@,
{
    let n = s.unicode_len();
    let mut v: Vec<char> = Vec::new();
    let mut i: usize = 0;
    while i < n
        invariant
            i <= n,
            n == s@.len(),
            v@ == s@.take(i as int),
        decreases n - i,
    {
        let c = s.get_char(i);
        v.push(c);
        proof {
            assert(s@.take(i as int).push(s@[i as int]) =~= s@.take(i + 1 as int));
        }
        i += 1;
    }
    proof {
        assert(s@.take(n as int) =~= s@);
    }
    v
}

/// The first position in `cs[lo..hi]` that holds `c`, as an absolute index.
pub(crate) fn find_in(cs: &Vec<char>, lo: usize, hi: usize, c: char) -> (r: Option<usize>)
    requires
        lo <= hi <= cs@.len(),
    ensures
        match r {
            None => find_char(cs@.subrange(lo as int, hi as int), c) is None,
            Some(i) => lo <= i < hi && find_char(cs@.subrange(lo as int, hi as int), c) == Some(
                i - lo,
            ),
        },
{
    let ghost sub = cs@.subrange(lo as int, hi as int);
    let mut i = lo;
    while i < hi
        invariant
            lo <= i <= hi <= cs@.len(),
            sub == cs@.subrange(lo as int, hi as int),
            forall|k: int| lo <= k < i ==> cs@[k] != c,
        decreases hi - i,
    {
        if cs[i] == c {
            proof {
                assert(sub[i - lo] == c);
                assert forall|k: int| 0 <= k < i - lo implies sub[k] != c by {
                    assert(sub[k] == cs@[lo + k]);
                }
                lemma_find_char_at(sub, c, i - lo);
            }
            return Some(i);
        }
        i += 1;
    }
    proof {
        assert forall|k: int| 0 <= k < sub.len() implies sub[k] != c by {
            assert(sub[k] == cs@[lo + k]);
        }
        lemma_find_char_none(sub, c);
    }
    None
}

/// Extending a digit string by one digit multiplies its value by ten.
proof fn lemma_num_val_step(s: Seq<char>, i: int)
    requires
        0 <= i < s.len(),
        is_digit(s[i]),
    ensures
        num_val(s.take(i + 1)) == num_val(s.take(i)) * 10 + (s[i] as int - '0' as int),
{
    assert(s.take(i + 1).drop_last() =~= s.take(i));
    assert(s.take(i + 1).last() == s[i]);
}

/// The value of a digit string never drops as the string grows.
proof fn lemma_num_val_mono(s: Seq<char>, i: int, j: int)
    requires
        0 <= i <= j <= s.len(),
    ensures
        num_val(s.take(i)) <= num_val(s.take(j)),
    decreases j - i,
{
    if i < j {
        lemma_num_val_mono(s, i, j - 1);
        assert(s.take(j).drop_last() =~= s.take(j - 1));
        assert(num_val(s.take(j)) == num_val(s.take(j - 1)) * 10 + (s.take(j).last() as int
            - '0' as int) as nat);
    }
}

/// The numeric value of `cs[lo..hi]` when it is a numeric identifier within
/// the machine bound; nothing otherwise.
pub(crate) fn parse_num(cs: &Vec<char>, lo: usize, hi: usize) -> (r: Option<u64>)
    requires
        lo <= hi <= cs@.len(),
    ensures
        ({
            let sub = cs@.subrange(lo as int, hi as int);
            match r {
                Some(v) => valid_num_u64(sub) && v as nat == num_val(sub),
                None => !valid_num_u64(sub),
            }
        }),
{
    let ghost sub = cs@.subrange(lo as int, hi as int);
    if lo == hi {
        return None;
    }
    if cs[lo] == '0' && hi - lo > 1 {
        proof {
            assert(sub[0] == '0');
        }
        return None;
    }
    let mut val: u64 = 0;
    let mut i = lo;
    while i < hi
        invariant
            lo <= i <= hi <= cs@.len(),
            sub == cs@.subrange(lo as int, hi as int),
            val as nat == num_val(sub.take(i - lo)),
            forall|k: int| 0 <= k < i - lo ==> is_digit(#[trigger] sub[k]),
        decreases hi - i,
    {
        let c = cs[i];
        if !('0' <= c && c <= '9') {
            proof {
                assert(!is_digit(sub[i - lo]));
            }
            return None;
        }
        let d: u64 = (c as u32 - '0' as u32) as u64;
        proof {
            lemma_num_val_step(sub, i - lo);
        }
        if val > (u64::MAX - d) / 10 {
            proof {
                let q = ((u64::MAX - d) / 10) as int;
                let m = (u64::MAX - d) as int;
                assert(m == 10 * q + m % 10) by {
                    vstd::arithmetic::div_mod::lemma_fundamental_div_mod(m, 10);
                }
                assert(val * 10 >= (q + 1) * 10) by (nonlinear_arith)
                    requires
                        val as int >= q + 1,
                ;
                assert(num_val(sub.take(i - lo + 1)) > u64::MAX);
                lemma_num_val_mono(sub, i - lo + 1, sub.len() as int);
                assert(sub.take(sub.len() as int) =~= sub);
            }
            return None;
        }
        proof {
            let q = ((u64::MAX - d) / 10) as int;
            let m = (u64::MAX - d) as int;
            assert(m == 10 * q + m % 10) by {
                vstd::arithmetic::div_mod::lemma_fundamental_div_mod(m, 10);
            }
            assert(val * 10 <= q * 10) by (nonlinear_arith)
                requires
                    val as int <= q,
            ;
        }
        val = val * 10 + d;
        i += 1;
    }
    proof {
        assert(sub.take(sub.len() as int) =~= sub);
        assert(all_digits(sub));
        if sub[0] == '0' && sub.len() != 1 {
            assert(false);
        }
    }
    Some(val)
}

/// Whether `cs[lo..hi]` is one valid identifier: a pre-release identifier
/// when `pre` is set, a build identifier otherwise.
fn check_ident(cs: &Vec<char>, lo: usize, hi: usize, pre: bool) -> (r: bool)
    requires
        lo <= hi <= cs@.len(),
    ensures
        ({
            let sub = cs@.subrange(lo as int, hi as int);
            r == if pre {
                valid_pre_ident(sub)
            } else {
                valid_build_ident(sub)
            }
        }),
{
    let ghost sub = cs@.subrange(lo as int, hi as int);
    if lo == hi {
        return false;
    }
    let mut i = lo;
    let mut digits = true;
    while i < hi
        invariant
            lo <= i <= hi <= cs@.len(),
            sub == cs@.subrange(lo as int, hi as int),
            forall|k: int| 0 <= k < i - lo ==> is_ident_char(#[trigger] sub[k]),
            digits ==> forall|k: int| 0 <= k < i - lo ==> is_digit(#[trigger] sub[k]),
            !digits ==> exists|k: int| 0 <= k < i - lo && !is_digit(#[trigger] sub[k]),
        decreases hi - i,
    {
        let c = cs[i];
        let is_dig = '0' <= c && c <= '9';
        if !(is_dig || ('a' <= c && c <= 'z') || ('A' <= c && c <= 'Z') || c == '-') {
            proof {
                assert(!is_ident_char(sub[i - lo]));
            }
            return false;
        }
        if !is_dig {
            proof {
                assert(!is_digit(sub[i - lo]));
            }
            digits = false;
        }
        i += 1;
    }
    proof {
        assert(all_ident_chars(sub));
        if digits {
            assert(all_digits(sub));
        }
    }
    if pre && digits && hi - lo > 1 && cs[lo] == '0' {
        proof {
            assert(sub[0] == '0');
        }
        return false;
    }
    proof {
        if pre && all_digits(sub) && sub[0] == '0' && sub.len() > 1 {
            assert(!digits ==> exists|k: int| 0 <= k < sub.len() && !is_digit(#[trigger] sub[k]));
            assert(digits);
            assert(false);
        }
    }
    true
}

/// Whether `cs[lo..hi]` is a valid dot-separated identifier list.
fn check_dotted(cs: &Vec<char>, lo: usize, hi: usize, pre: bool) -> (r: bool)
    requires
        lo <= hi <= cs@.len(),
    ensures
        ({
            let sub = cs@.subrange(lo as int, hi as int);
            r == if pre {
                valid_dotted_pre(sub)
            } else {
                valid_dotted_build(sub)
            }
        }),
    decreases hi - lo,
{
    let ghost sub = cs@.subrange(lo as int, hi as int);
    match find_in(cs, lo, hi, '.') {
        None => check_ident(cs, lo, hi, pre),
        Some(dp) => {
            let head_ok = check_ident(cs, lo, dp, pre);
            proof {
                assert(sub.take(dp - lo) =~= cs@.subrange(lo as int, dp as int));
                assert(sub.skip(dp - lo + 1) =~= cs@.subrange(dp + 1 as int, hi as int));
            }
            if head_ok {
                let rest_ok = check_dotted(cs, dp + 1, hi, pre);
                head_ok && rest_ok
            } else {
                false
            }
        },
    }
}

/// A valid semantic version begins with a digit of its major component.
pub proof fn lemma_valid_semver_first_digit(s: Seq<char>)
    requires
        valid_semver(s),
    ensures
        s.len() > 0 && is_digit(s[0]),
{
    let core = core_of(s);
    lemma_find_char(core, '.');
    match find_char(core, '.') {
        None => {
            assert(false);
        },
        Some(i) => {
            let m = core.take(i);
            assert(m.len() > 0);
            assert(is_digit(m[0]));
            assert(m[0] == core[0]);
            lemma_find_char(s, '+');
            lemma_find_char(core_pre_part(s), '-');
            assert(core[0] == s[0]);
        },
    }
}

/// The strict parse of a token, without tolerating a leading `v`.
fn semver_parse(s: &str) -> (r: Option<Version>)
    ensures
        r is Some <==> valid_semver(s@),
        r matches Some(v) ==> v@ == decomp(s@),
{
    let cs = chars_of(s);
    let n = cs.len();
    let ghost sv = s@;
    proof {
        assert(cs@.subrange(0, n as int) =~= sv);
    }
    let plus = find_in(&cs, 0, n, '+');
    let cp_end = match plus {
        Some(p) => p,
        None => n,
    };
    proof {
        assert(core_pre_part(sv) =~= cs@.subrange(0, cp_end as int));
    }
    let dash = find_in(&cs, 0, cp_end, '-');
    let core_end = match dash {
        Some(d) => d,
        None => cp_end,
    };
    proof {
        assert(core_of(sv) =~= cs@.subrange(0, core_end as int));
    }
    let ghost core = core_of(sv);
    let d1 = match find_in(&cs, 0, core_end, '.') {
        Some(i) => i,
        None => {
            return None;
        },
    };
    proof {
        assert(major_str(sv) =~= cs@.subrange(0, d1 as int));
    }
    let major = match parse_num(&cs, 0, d1) {
        Some(v) => v,
        None => {
            return None;
        },
    };
    proof {
        assert(minor_patch_str(sv) =~= cs@.subrange(d1 + 1 as int, core_end as int));
    }
    let d2 = match find_in(&cs, d1 + 1, core_end, '.') {
        Some(j) => j,
        None => {
            return None;
        },
    };
    proof {
        assert(minor_str(sv) =~= cs@.subrange(d1 + 1 as int, d2 as int));
        assert(patch_str(sv) =~= cs@.subrange(d2 + 1 as int, core_end as int));
    }
    let minor = match parse_num(&cs, d1 + 1, d2) {
        Some(v) => v,
        None => {
            return None;
        },
    };
    let patch = match parse_num(&cs, d2 + 1, core_end) {
        Some(v) => v,
        None => {
            return None;
        },
    };
    let pre: String = match dash {
        Some(d) => {
            proof {
                assert(pre_of(sv) =~= cs@.subrange(d + 1 as int, cp_end as int));
            }
            if !check_dotted(&cs, d + 1, cp_end, true) {
                return None;
            }
            s.substring_char(d + 1, cp_end).to_owned()
        },
        None => {
            proof {
                assert(pre_of(sv) =~= Seq::<char>::empty());
            }
            String::new()
        },
    };
    let build: String = match plus {
        Some(p) => {
            proof {
                assert(build_of(sv) =~= cs@.subrange(p + 1 as int, n as int));
            }
            if !check_dotted(&cs, p + 1, n, false) {
                return None;
            }
            s.substring_char(p + 1, n).to_owned()
        },
        None => {
            proof {
                assert(build_of(sv) =~= Seq::<char>::empty());
            }
            String::new()
        },
    };
    Some(Version { major, minor, patch, pre, build })
}

/// The token with one leading `v` removed, when it has one; otherwise the
/// token itself.
pub fn trim_prefix_v(s: &str) -> (r: &str)
    ensures
        r@ == spec_strip_v(s@),
{
    let n = s.unicode_len();
    if n > 0 && s.get_char(0) == 'v' {
        let r = s.substring_char(1, n);
        proof {
            assert(s@.subrange(1, n as int) =~= s@.drop_first());
        }
        r
    } else {
        s
    }
}

impl VersionInfo {
    /// Classifies one token: keeps it verbatim as `original`, and fills
    /// `version` exactly when the token, or the token with one leading `v`
    /// removed, is a valid semantic version.
    pub fn parse(s: &str) -> (r: VersionInfo)
        ensures
            r@.original == s@,
            r@.version == spec_parse(s@),
    {
        let original = s.to_owned();
        match semver_parse(s) {
            Some(v) => VersionInfo { original, version: Some(v) },
            None => {
                let t = trim_prefix_v(s);
                match semver_parse(t) {
                    Some(v) => VersionInfo { original, version: Some(v) },
                    None => VersionInfo { original, version: None },
                }
            },
        }
    }
}

/// Law: prepending `v` to a token that does not begin with `v` never
/// changes what parsing yields: the one parse succeeds exactly when the
/// other does, and the structured values agree.
pub proof fn lemma_parse_v_prefix(s: Seq<char>)
    requires
        s.len() == 0 || s[0] != 'v',
    ensures
        spec_parse(seq!['v'] + s) == spec_parse(s),
{
    let vs = seq!['v'] + s;
    if valid_semver(vs) {
        lemma_valid_semver_first_digit(vs);
        assert(false);
    }
    assert(vs.drop_first() =~= s);
    assert(spec_strip_v(s) == s);
}

/// Law: when a token and the token with one leading `v` removed both
/// parse, the structured values agree.
pub proof fn lemma_parse_strip_agree(s: Seq<char>)
    requires
        spec_parse(s) is Some,
        spec_parse(spec_strip_v(s)) is Some,
    ensures
        spec_parse(s) == spec_parse(spec_strip_v(s)),
{
    if s.len() > 0 && s[0] == 'v' {
        if valid_semver(s) {
            lemma_valid_semver_first_digit(s);
            assert(false);
        }
    }
}

} // verus!
