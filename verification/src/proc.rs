//! The pipeline stages: classify a stream of tokens into version records,
//! filter them by validity or by a version requirement, sort them, and
//! render them for output. Every stage but sorting preserves the relative
//! order of the records it keeps.
use vstd::prelude::*;
use crate::render::{format_record, line_of};
use crate::req::{req_matches, ComparatorView, VersionReq};
use crate::sort::{sort_records, sort_spec};
use crate::ver::{spec_parse, VersionInfo};

verus! {

/// What the validity filter keeps: parsed records, or, inverted, unparsed
/// ones.
pub open spec fn keep_validity(invert: bool) -> spec_fn(VersionInfo) -> bool {
    |r: VersionInfo|
        if invert {
            r@.version is None
        } else {
            r@.version is Some
        }
}

/// What the requirement filter keeps: unparsed records pass through, and a
/// parsed record must satisfy the requirement.
pub open spec fn keep_requirement(q: Seq<ComparatorView>) -> spec_fn(VersionInfo) -> bool {
    |r: VersionInfo| r@.version is None || req_matches(q, r@.version->0)
}

/// Classifies each input token into a version record, in order.
pub fn parse_versions(lines: Vec<String>) -> (r: Vec<VersionInfo>)
    ensures
        r@.len() == lines@.len(),
        forall|i: int|
            0 <= i < lines@.len() ==> (#[trigger] r@[i])@.original == lines@[i]@ && r@[i]@.version
                == spec_parse(lines@[i]@),
{
    let n = lines.len();
    let mut r: Vec<VersionInfo> = Vec::new();
    let mut i: usize = 0;
    while i < n
        invariant
            i <= n == lines@.len(),
            r@.len() == i,
            forall|k: int|
                0 <= k < i ==> (#[trigger] r@[k])@.original == lines@[k]@ && r@[k]@.version
                    == spec_parse(lines@[k]@),
        decreases n - i,
    {
        let rec = VersionInfo::parse(lines[i].as_str());
        r.push(rec);
        i += 1;
    }
    r
}

/// Keeps the records that parsed as semantic versions, or, when `invert`
/// is set, exactly the records that did not; the order of the kept records
/// is unchanged.
pub fn filter_semver(records: Vec<VersionInfo>, invert: bool) -> (r: Vec<VersionInfo>)
    ensures
        r@ == records@.filter(keep_validity(invert)),
{
    broadcast use vstd::seq::Seq::lemma_filter_push;

    let ghost orig = records@;
    let mut input = records;
    let mut out: Vec<VersionInfo> = Vec::new();
    let ghost mut consumed: int = 0;
    proof {
        assert(orig.take(0) =~= Seq::<VersionInfo>::empty());
        reveal(Seq::filter);
    }
    while input.len() > 0
        invariant
            0 <= consumed <= orig.len(),
            input@ == orig.skip(consumed),
            out@ == orig.take(consumed).filter(keep_validity(invert)),
        decreases input@.len(),
    {
        let rec = input.remove(0);
        proof {
            assert(orig.skip(consumed).remove(0) =~= orig.skip(consumed + 1));
            assert(rec == orig[consumed]);
            assert(orig.take(consumed + 1) =~= orig.take(consumed).push(orig[consumed]));
        }
        let keep = if invert {
            rec.version.is_none()
        } else {
            rec.version.is_some()
        };
        proof {
            assert(keep == keep_validity(invert)(rec));
        }
        if keep {
            out.push(rec);
        }
        proof {
            let pred = keep_validity(invert);
            orig.take(consumed).lemma_filter_push(orig[consumed], pred);
            assert(orig.take(consumed + 1).filter(pred) == orig.take(consumed).push(
                orig[consumed],
            ).filter(pred));
            consumed = consumed + 1;
        }
    }
    proof {
        assert(orig.take(consumed) =~= orig);
    }
    out
}

/// Keeps the records that the requirement allows: every unparsed record,
/// and each parsed record whose version satisfies it; the order of the
/// kept records is unchanged.
pub fn filter_by_requirement(records: Vec<VersionInfo>, req: &VersionReq) -> (r: Vec<VersionInfo>)
    ensures
        r@ == records@.filter(keep_requirement(req@)),
{
    broadcast use vstd::seq::Seq::lemma_filter_push;

    let ghost orig = records@;
    let mut input = records;
    let mut out: Vec<VersionInfo> = Vec::new();
    let ghost mut consumed: int = 0;
    proof {
        assert(orig.take(0) =~= Seq::<VersionInfo>::empty());
        reveal(Seq::filter);
    }
    while input.len() > 0
        invariant
            0 <= consumed <= orig.len(),
            input@ == orig.skip(consumed),
            out@ == orig.take(consumed).filter(keep_requirement(req@)),
        decreases input@.len(),
    {
        let rec = input.remove(0);
        proof {
            assert(orig.skip(consumed).remove(0) =~= orig.skip(consumed + 1));
            assert(rec == orig[consumed]);
            assert(orig.take(consumed + 1) =~= orig.take(consumed).push(orig[consumed]));
        }
        let keep = match &rec.version {
            None => true,
            Some(v) => req.matches(v),
        };
        proof {
            assert(keep == keep_requirement(req@)(rec));
        }
        if keep {
            out.push(rec);
        }
        proof {
            let pred = keep_requirement(req@);
            orig.take(consumed).lemma_filter_push(orig[consumed], pred);
            assert(orig.take(consumed + 1).filter(pred) == orig.take(consumed).push(
                orig[consumed],
            ).filter(pred));
            consumed = consumed + 1;
        }
    }
    proof {
        assert(orig.take(consumed) =~= orig);
    }
    out
}

/// Sorts the records: ascending in the record order, or descending when
/// `reverse` is set.
pub fn sort_lines(records: Vec<VersionInfo>, reverse: bool) -> (r: Vec<VersionInfo>)
    ensures
        r@ == sort_spec(records@, reverse),
{
    sort_records(records, reverse)
}

/// Renders each record as one output line, in order: its original token,
/// or, verbosely, its one-line JSON object.
pub fn format_output(records: Vec<VersionInfo>, verbose: bool) -> (r: Vec<String>)
    ensures
        r@.len() == records@.len(),
        forall|i: int|
            0 <= i < records@.len() ==> (#[trigger] r@[i])@ == line_of(records@[i]@, verbose),
{
    let n = records.len();
    let mut r: Vec<String> = Vec::new();
    let mut i: usize = 0;
    while i < n
        invariant
            i <= n == records@.len(),
            r@.len() == i,
            forall|k: int| 0 <= k < i ==> (#[trigger] r@[k])@ == line_of(records@[k]@, verbose),
        decreases n - i,
    {
        let line = format_record(&records[i], verbose);
        r.push(line);
        i += 1;
    }
    r
}

/// Renders each record as its verbose one-line JSON object, in order.
pub fn verbose_output(records: Vec<VersionInfo>) -> (r: Vec<String>)
    ensures
        r@.len() == records@.len(),
        forall|i: int| 0 <= i < records@.len() ==> (#[trigger] r@[i])@ == line_of(records@[i]@, true),
{
    format_output(records, true)
}

/// Law: the two validity filters partition the records. No record that the
/// one keeps satisfies the other's test, and together they keep exactly the
/// records given.
pub proof fn lemma_filter_valid_partition(s: Seq<VersionInfo>)
    ensures
        s.filter(keep_validity(false)).to_multiset().add(s.filter(keep_validity(true)).to_multiset())
            == s.to_multiset(),
        (s.filter(keep_validity(false)) + s.filter(keep_validity(true))).to_multiset()
            == s.to_multiset(),
        forall|i: int, j: int|
            0 <= i < s.filter(keep_validity(false)).len() && 0 <= j < s.filter(
                keep_validity(true),
            ).len() ==> #[trigger] s.filter(keep_validity(false))[i] != #[trigger] s.filter(
                keep_validity(true),
            )[j],
    decreases s.len(),
{
    broadcast use vstd::seq_lib::group_to_multiset_ensures;
    broadcast use vstd::seq::Seq::lemma_filter_push;
    broadcast use vstd::seq_lib::group_filter_ensures;

    let kept = s.filter(keep_validity(false));
    let dropped = s.filter(keep_validity(true));
    assert forall|i: int, j: int|
        0 <= i < kept.len() && 0 <= j < dropped.len() implies #[trigger] kept[i]
        != #[trigger] dropped[j] by {
        assert(keep_validity(false)(kept[i]));
        assert(keep_validity(true)(dropped[j]));
    }
    vstd::seq_lib::lemma_multiset_commutative(kept, dropped);
    if s.len() == 0 {
        reveal(Seq::filter);
        assert(kept.to_multiset().add(dropped.to_multiset()) =~= s.to_multiset());
    } else {
        let init = s.drop_last();
        lemma_filter_valid_partition(init);
        assert(init.push(s.last()) =~= s);
        let x = s.last();
        if keep_validity(false)(x) {
            assert(kept == init.filter(keep_validity(false)).push(x));
            assert(!keep_validity(true)(x));
            assert(dropped == init.filter(keep_validity(true)));
            assert(kept.to_multiset().add(dropped.to_multiset()) =~= s.to_multiset());
        } else {
            assert(keep_validity(true)(x));
            assert(dropped == init.filter(keep_validity(true)).push(x));
            assert(kept == init.filter(keep_validity(false)));
            assert(kept.to_multiset().add(dropped.to_multiset()) =~= s.to_multiset());
        }
    }
}

/// Law: the requirement filter never removes an unparsed record: each one
/// is kept, in place.
pub proof fn lemma_requirement_keeps_unparsed(s: Seq<VersionInfo>, q: Seq<ComparatorView>, i: int)
    requires
        0 <= i < s.len(),
        s[i]@.version is None,
    ensures
        s.filter(keep_requirement(q)).contains(s[i]),
{
    broadcast use vstd::seq_lib::group_filter_ensures;

    assert(keep_requirement(q)(s[i]));
}

} // verus!
