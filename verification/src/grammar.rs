//! The Semantic Versioning 2.0.0 grammar, stated over sequences of
//! characters: the numeric core `X.Y.Z`, the optional dot-separated
//! pre-release identifiers after `-`, and the optional dot-separated build
//! identifiers after `+`.
use vstd::prelude::*;

verus! {

/// A decimal digit.
pub open spec fn is_digit(c: char) -> bool {
    '0' <= c && c <= '9'
}

/// A character allowed in a pre-release or build identifier: an ASCII
/// letter, a digit, or a hyphen.
pub open spec fn is_ident_char(c: char) -> bool {
    is_digit(c) || ('a' <= c && c <= 'z') || ('A' <= c && c <= 'Z') || c == '-'
}

pub open spec fn all_digits(s: Seq<char>) -> bool {
    forall|i: int| 0 <= i < s.len() ==> is_digit(#[trigger] s[i])
}

pub open spec fn all_ident_chars(s: Seq<char>) -> bool {
    forall|i: int| 0 <= i < s.len() ==> is_ident_char(#[trigger] s[i])
}

/// The numeric value of a digit string, most significant digit first.
pub open spec fn num_val(s: Seq<char>) -> nat
    decreases s.len(),
{
    if s.len() == 0 {
        0
    } else {
        num_val(s.drop_last()) * 10 + (s.last() as int - '0' as int) as nat
    }
}

/// A numeric identifier of the version core: digits only, not empty, and no
/// leading zero unless the identifier is exactly `0`.
pub open spec fn valid_num(s: Seq<char>) -> bool {
    s.len() > 0 && all_digits(s) && (s[0] == '0' ==> s.len() == 1)
}

/// A numeric identifier that a version core component can hold: the machine
/// bound on each component.
pub open spec fn valid_num_u64(s: Seq<char>) -> bool {
    valid_num(s) && num_val(s) <= u64::MAX
}

/// A pre-release identifier: not empty, of identifier characters, and if it
/// is all digits it has no leading zero.
pub open spec fn valid_pre_ident(s: Seq<char>) -> bool {
    s.len() > 0 && all_ident_chars(s) && (all_digits(s) && s[0] == '0' ==> s.len() == 1)
}

/// A build identifier: not empty, of identifier characters; leading zeros
/// are allowed here.
pub open spec fn valid_build_ident(s: Seq<char>) -> bool {
    s.len() > 0 && all_ident_chars(s)
}

/// The position of the first occurrence of `c` in `s`, if any.
pub open spec fn find_char(s: Seq<char>, c: char) -> Option<int>
    decreases s.len(),
{
    if s.len() == 0 {
        None
    } else if s[0] == c {
        Some(0)
    } else {
        match find_char(s.drop_first(), c) {
            None => None,
            Some(i) => Some(i + 1),
        }
    }
}

/// What `find_char` returns: the least index holding `c`, or nothing when
/// `c` does not occur.
pub proof fn lemma_find_char(s: Seq<char>, c: char)
    ensures
        match find_char(s, c) {
            None => forall|k: int| 0 <= k < s.len() ==> s[k] != c,
            Some(i) => 0 <= i < s.len() && s[i] == c && forall|k: int| 0 <= k < i ==> s[k] != c,
        },
    decreases s.len(),
{
    if s.len() > 0 && s[0] != c {
        lemma_find_char(s.drop_first(), c);
        assert forall|k: int| 0 <= k < s.len() && find_char(s, c) is None implies s[k] != c by {
            if k > 0 {
                assert(s.drop_first()[k - 1] == s[k]);
            }
        }
        match find_char(s, c) {
            Some(i) => {
                assert(s.drop_first()[i - 1] == s[i]);
                assert forall|k: int| 0 <= k < i implies s[k] != c by {
                    if k > 0 {
                        assert(s.drop_first()[k - 1] == s[k]);
                    }
                }
            },
            None => {},
        }
    }
}

/// The converse: an index that holds `c`, before which `c` does not occur,
/// is what `find_char` returns.
pub proof fn lemma_find_char_at(s: Seq<char>, c: char, i: int)
    requires
        0 <= i < s.len(),
        s[i] == c,
        forall|k: int| 0 <= k < i ==> s[k] != c,
    ensures
        find_char(s, c) == Some(i),
    decreases s.len(),
{
    if i > 0 {
        assert forall|k: int| 0 <= k < i - 1 implies s.drop_first()[k] != c by {
            assert(s.drop_first()[k] == s[k + 1]);
        }
        assert(s.drop_first()[i - 1] == s[i]);
        lemma_find_char_at(s.drop_first(), c, i - 1);
    }
}

/// When `c` does not occur in `s`, `find_char` returns nothing.
pub proof fn lemma_find_char_none(s: Seq<char>, c: char)
    requires
        forall|k: int| 0 <= k < s.len() ==> s[k] != c,
    ensures
        find_char(s, c) is None,
    decreases s.len(),
{
    if s.len() > 0 {
        assert forall|k: int| 0 <= k < s.drop_first().len() implies s.drop_first()[k] != c by {
            assert(s.drop_first()[k] == s[k + 1]);
        }
        lemma_find_char_none(s.drop_first(), c);
    }
}

/// A dot-separated list of pre-release identifiers.
pub open spec fn valid_dotted_pre(s: Seq<char>) -> bool
    decreases s.len(),
    via valid_dotted_pre_dec
{
    match find_char(s, '.') {
        None => valid_pre_ident(s),
        Some(i) => valid_pre_ident(s.take(i)) && valid_dotted_pre(s.skip(i + 1)),
    }
}

#[via_fn]
proof fn valid_dotted_pre_dec(s: Seq<char>) {
    lemma_find_char(s, '.');
}

/// A dot-separated list of build identifiers.
pub open spec fn valid_dotted_build(s: Seq<char>) -> bool
    decreases s.len(),
    via valid_dotted_build_dec
{
    match find_char(s, '.') {
        None => valid_build_ident(s),
        Some(i) => valid_build_ident(s.take(i)) && valid_dotted_build(s.skip(i + 1)),
    }
}

#[via_fn]
proof fn valid_dotted_build_dec(s: Seq<char>) {
    lemma_find_char(s, '.');
}

/// The version core `major.minor.patch`: exactly three numeric identifiers,
/// each within the machine bound.
pub open spec fn valid_core(s: Seq<char>) -> bool {
    match find_char(s, '.') {
        None => false,
        Some(i) => valid_num_u64(s.take(i)) && match find_char(s.skip(i + 1), '.') {
            None => false,
            Some(j) => valid_num_u64(s.skip(i + 1).take(j)) && valid_num_u64(
                s.skip(i + 1).skip(j + 1),
            ),
        },
    }
}

/// The part of `s` before the build separator `+`, if any.
pub open spec fn core_pre_part(s: Seq<char>) -> Seq<char> {
    match find_char(s, '+') {
        None => s,
        Some(p) => s.take(p),
    }
}

/// The build metadata of `s`: what follows the first `+`, or empty.
pub open spec fn build_of(s: Seq<char>) -> Seq<char> {
    match find_char(s, '+') {
        None => Seq::empty(),
        Some(p) => s.skip(p + 1),
    }
}

/// The version core of `s`: the core-and-pre part up to the first `-`.
pub open spec fn core_of(s: Seq<char>) -> Seq<char> {
    match find_char(core_pre_part(s), '-') {
        None => core_pre_part(s),
        Some(d) => core_pre_part(s).take(d),
    }
}

/// The pre-release of `s`: what follows the first `-` of the core-and-pre
/// part, or empty.
pub open spec fn pre_of(s: Seq<char>) -> Seq<char> {
    match find_char(core_pre_part(s), '-') {
        None => Seq::empty(),
        Some(d) => core_pre_part(s).skip(d + 1),
    }
}

/// The digit string of the major component of a valid core.
pub open spec fn major_str(s: Seq<char>) -> Seq<char> {
    match find_char(core_of(s), '.') {
        None => Seq::empty(),
        Some(i) => core_of(s).take(i),
    }
}

/// What follows the major component and its dot in a valid core.
pub open spec fn minor_patch_str(s: Seq<char>) -> Seq<char> {
    match find_char(core_of(s), '.') {
        None => Seq::empty(),
        Some(i) => core_of(s).skip(i + 1),
    }
}

/// The digit string of the minor component of a valid core.
pub open spec fn minor_str(s: Seq<char>) -> Seq<char> {
    match find_char(minor_patch_str(s), '.') {
        None => Seq::empty(),
        Some(j) => minor_patch_str(s).take(j),
    }
}

/// The digit string of the patch component of a valid core.
pub open spec fn patch_str(s: Seq<char>) -> Seq<char> {
    match find_char(minor_patch_str(s), '.') {
        None => Seq::empty(),
        Some(j) => minor_patch_str(s).skip(j + 1),
    }
}

/// A syntactically valid semantic version: a valid core, then an optional
/// pre-release after `-`, then optional build metadata after `+`.
pub open spec fn valid_semver(s: Seq<char>) -> bool {
    &&& valid_core(core_of(s))
    &&& match find_char(core_pre_part(s), '-') {
        None => true,
        Some(d) => valid_dotted_pre(pre_of(s)),
    }
    &&& match find_char(s, '+') {
        None => true,
        Some(p) => valid_dotted_build(build_of(s)),
    }
}

} // verus!
