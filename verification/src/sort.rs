//! Sorting of version records: an insertion sort specified as a function,
//! its executable counterpart, and the laws that sorting is idempotent and
//! that descending order mirrors ascending order when no two keys tie.
use vstd::prelude::*;
use vstd::multiset::Multiset;
use crate::order::{
    lemma_rec_le_refl, lemma_rec_le_total, lemma_rec_le_trans, rec_le, rec_le_dir,
};
use crate::ver::VersionInfo;

verus! {

/// The record order lifted to the executable record type, in the requested
/// direction.
pub open spec fn le_dir(a: VersionInfo, b: VersionInfo, reverse: bool) -> bool {
    rec_le_dir(a@, b@, reverse)
}

/// `x` inserted into `s` after every element ordered at or below it.
pub open spec fn insert_sorted(x: VersionInfo, s: Seq<VersionInfo>, reverse: bool) -> Seq<
    VersionInfo,
>
    decreases s.len(),
{
    if s.len() == 0 {
        seq![x]
    } else if le_dir(s[0], x, reverse) {
        seq![s[0]] + insert_sorted(x, s.drop_first(), reverse)
    } else {
        seq![x] + s
    }
}

/// Insertion sort of a record sequence in the requested direction.
pub open spec fn sort_spec(s: Seq<VersionInfo>, reverse: bool) -> Seq<VersionInfo>
    decreases s.len(),
{
    if s.len() == 0 {
        s
    } else {
        insert_sorted(s.last(), sort_spec(s.drop_last(), reverse), reverse)
    }
}

/// Whether `s` is ordered in the requested direction.
pub open spec fn sorted_dir(s: Seq<VersionInfo>, reverse: bool) -> bool {
    forall|i: int, j: int| 0 <= i <= j < s.len() ==> #[trigger] le_dir(s[i], s[j], reverse)
}

/// Whether two records tie in the record order.
pub open spec fn key_tie(a: VersionInfo, b: VersionInfo) -> bool {
    rec_le(a@, b@) && rec_le(b@, a@)
}

/// Whether no two records of `s` tie in the record order.
pub open spec fn distinct_keys(s: Seq<VersionInfo>) -> bool {
    forall|i: int, j: int| 0 <= i < j < s.len() ==> !#[trigger] key_tie(s[i], s[j])
}

proof fn lemma_le_dir_total(a: VersionInfo, b: VersionInfo, reverse: bool)
    ensures
        le_dir(a, b, reverse) || le_dir(b, a, reverse),
{
    lemma_rec_le_total(a@, b@);
}

proof fn lemma_le_dir_trans(a: VersionInfo, b: VersionInfo, c: VersionInfo, reverse: bool)
    requires
        le_dir(a, b, reverse),
        le_dir(b, c, reverse),
    ensures
        le_dir(a, c, reverse),
{
    if reverse {
        lemma_rec_le_trans(c@, b@, a@);
    } else {
        lemma_rec_le_trans(a@, b@, c@);
    }
}

/// Inserting preserves sortedness, adds the element to the contents, and
/// grows the length by one.
proof fn lemma_insert_sorted(x: VersionInfo, s: Seq<VersionInfo>, reverse: bool)
    requires
        sorted_dir(s, reverse),
    ensures
        sorted_dir(insert_sorted(x, s, reverse), reverse),
        insert_sorted(x, s, reverse).to_multiset() == s.to_multiset().insert(x),
        insert_sorted(x, s, reverse).len() == s.len() + 1,
    decreases s.len(),
{
    broadcast use vstd::seq_lib::group_to_multiset_ensures;

    let r = insert_sorted(x, s, reverse);
    if s.len() == 0 {
        lemma_rec_le_refl(x@);
        assert(seq![x] =~= Seq::<VersionInfo>::empty().push(x));
        assert(Seq::<VersionInfo>::empty().to_multiset() =~= Multiset::<VersionInfo>::empty());
        assert(r.to_multiset() =~= s.to_multiset().insert(x));
    } else if le_dir(s[0], x, reverse) {
        let rest = s.drop_first();
        assert(sorted_dir(rest, reverse)) by {
            assert(forall|i: int, j: int|
                0 <= i <= j < rest.len() ==> rest[i] == s[i + 1] && rest[j] == s[j + 1]);
        }
        lemma_insert_sorted(x, rest, reverse);
        let inner = insert_sorted(x, rest, reverse);
        assert(s =~= seq![s[0]] + rest);
        vstd::seq_lib::lemma_multiset_commutative(seq![s[0]], rest);
        vstd::seq_lib::lemma_multiset_commutative(seq![s[0]], inner);
        assert(r.to_multiset() =~= s.to_multiset().insert(x));
        assert forall|i: int, j: int| 0 <= i <= j < r.len() implies #[trigger] le_dir(
            r[i],
            r[j],
            reverse,
        ) by {
            if i == 0 {
                lemma_rec_le_refl(s[0]@);
                if j > 0 {
                    let e = inner[j - 1];
                    assert(inner.contains(e));
                    assert(inner.to_multiset().count(e) > 0);
                    if e == x {
                        assert(le_dir(s[0], x, reverse));
                    } else {
                        assert(rest.to_multiset().count(e) > 0);
                        assert(rest.contains(e));
                        let k = choose|k: int| 0 <= k < rest.len() && rest[k] == e;
                        assert(rest[k] == s[k + 1]);
                        assert(le_dir(s[0], s[k + 1], reverse));
                    }
                }
            } else {
                assert(le_dir(inner[i - 1], inner[j - 1], reverse));
            }
        }
    } else {
        lemma_le_dir_total(s[0], x, reverse);
        assert(s =~= Seq::<VersionInfo>::empty().push(s[0]) + s.drop_first());
        assert(r.to_multiset() =~= s.to_multiset().insert(x)) by {
            assert(r =~= seq![x] + s);
            vstd::seq_lib::lemma_multiset_commutative(seq![x], s);
            assert(seq![x] =~= Seq::<VersionInfo>::empty().push(x));
        }
        assert forall|i: int, j: int| 0 <= i <= j < r.len() implies #[trigger] le_dir(
            r[i],
            r[j],
            reverse,
        ) by {
            lemma_rec_le_refl(x@);
            if i == 0 && j > 0 {
                assert(le_dir(s[0], s[j - 1], reverse));
                lemma_le_dir_trans(x, s[0], s[j - 1], reverse);
            }
        }
    }
}

/// What sorting yields: a sorted sequence with the same contents and
/// length.
pub proof fn lemma_sort_spec(s: Seq<VersionInfo>, reverse: bool)
    ensures
        sorted_dir(sort_spec(s, reverse), reverse),
        sort_spec(s, reverse).to_multiset() == s.to_multiset(),
        sort_spec(s, reverse).len() == s.len(),
    decreases s.len(),
{
    broadcast use vstd::seq_lib::group_to_multiset_ensures;

    if s.len() > 0 {
        lemma_sort_spec(s.drop_last(), reverse);
        lemma_insert_sorted(s.last(), sort_spec(s.drop_last(), reverse), reverse);
        assert(s =~= s.drop_last().push(s.last()));
    }
}

/// Inserting an element at or above everything in `s` appends it.
proof fn lemma_insert_at_end(x: VersionInfo, s: Seq<VersionInfo>, reverse: bool)
    requires
        forall|k: int| 0 <= k < s.len() ==> le_dir(#[trigger] s[k], x, reverse),
    ensures
        insert_sorted(x, s, reverse) == s.push(x),
    decreases s.len(),
{
    if s.len() == 0 {
        assert(insert_sorted(x, s, reverse) =~= s.push(x));
    } else {
        let rest = s.drop_first();
        assert(forall|k: int| 0 <= k < rest.len() ==> rest[k] == s[k + 1]);
        lemma_insert_at_end(x, rest, reverse);
        assert(seq![s[0]] + rest.push(x) =~= s.push(x));
    }
}

/// Sorting an already sorted sequence returns it unchanged.
pub proof fn lemma_sort_of_sorted(s: Seq<VersionInfo>, reverse: bool)
    requires
        sorted_dir(s, reverse),
    ensures
        sort_spec(s, reverse) == s,
    decreases s.len(),
{
    if s.len() > 0 {
        let init = s.drop_last();
        assert(sorted_dir(init, reverse)) by {
            assert(forall|i: int, j: int|
                0 <= i <= j < init.len() ==> init[i] == s[i] && init[j] == s[j]);
        }
        lemma_sort_of_sorted(init, reverse);
        assert(forall|k: int| 0 <= k < init.len() ==> le_dir(#[trigger] init[k], s.last(), reverse));
        lemma_insert_at_end(s.last(), init, reverse);
        assert(init.push(s.last()) =~= s);
    }
}

/// Law: sorting is idempotent.
pub proof fn lemma_sort_idempotent(s: Seq<VersionInfo>, reverse: bool)
    ensures
        sort_spec(sort_spec(s, reverse), reverse) == sort_spec(s, reverse),
{
    lemma_sort_spec(s, reverse);
    lemma_sort_of_sorted(sort_spec(s, reverse), reverse);
}

/// Two sequences sorted the same way, with the same contents, none of whose
/// records tie, are equal.
proof fn lemma_sorted_unique(a: Seq<VersionInfo>, b: Seq<VersionInfo>, reverse: bool)
    requires
        sorted_dir(a, reverse),
        sorted_dir(b, reverse),
        a.to_multiset() == b.to_multiset(),
        distinct_keys(a),
    ensures
        a == b,
    decreases a.len(),
{
    broadcast use vstd::seq_lib::group_to_multiset_ensures;

    if a.len() == 0 {
        assert(b.to_multiset().len() == 0);
        assert(a =~= b);
    } else {
        assert(a.len() == a.to_multiset().len());
        assert(b.len() == b.to_multiset().len());
        assert(b.len() == a.len());
        assert(a.contains(a[0]));
        assert(b.to_multiset().count(a[0]) > 0);
        assert(b.contains(a[0]));
        let j = choose|j: int| 0 <= j < b.len() && b[j] == a[0];
        assert(a.to_multiset().count(b[0]) > 0);
        assert(a.contains(b[0]));
        let i = choose|i: int| 0 <= i < a.len() && a[i] == b[0];
        assert(le_dir(b[0], b[j], reverse));
        assert(le_dir(a[0], a[i], reverse));
        if a[0] != b[0] {
            assert(i != 0);
            assert(key_tie(a[0], a[i])) by {
                if reverse {
                    assert(rec_le(a[i]@, a[0]@) && rec_le(a[0]@, a[i]@));
                } else {
                    assert(rec_le(a[0]@, a[i]@) && rec_le(a[i]@, a[0]@));
                }
            }
            assert(false);
        }
        let ra = a.remove(0);
        let rb = b.remove(0);
        assert(ra.to_multiset() =~= a.to_multiset().remove(a[0]));
        assert(rb.to_multiset() =~= b.to_multiset().remove(b[0]));
        a.remove_ensures(0);
        b.remove_ensures(0);
        assert(sorted_dir(ra, reverse)) by {
            assert(forall|p: int, q: int|
                0 <= p <= q < ra.len() ==> ra[p] == a[p + 1] && ra[q] == a[q + 1]);
        }
        assert(sorted_dir(rb, reverse)) by {
            assert(forall|p: int, q: int|
                0 <= p <= q < rb.len() ==> rb[p] == b[p + 1] && rb[q] == b[q + 1]);
        }
        assert(distinct_keys(ra)) by {
            assert(forall|p: int, q: int|
                0 <= p < q < ra.len() ==> ra[p] == a[p + 1] && ra[q] == a[q + 1]);
        }
        lemma_sorted_unique(ra, rb, reverse);
        assert(a =~= b) by {
            assert(forall|k: int| 1 <= k < a.len() ==> a[k] == ra[k - 1] && b[k] == rb[k - 1]);
        }
    }
}

/// Ties are a property of the contents alone, so any reordering of a
/// tie-free sequence is tie-free.
proof fn lemma_distinct_keys_permutation(a: Seq<VersionInfo>, b: Seq<VersionInfo>)
    requires
        distinct_keys(a),
        a.to_multiset() == b.to_multiset(),
    ensures
        distinct_keys(b),
{
    broadcast use vstd::seq_lib::group_to_multiset_ensures;

    assert forall|i: int, j: int| 0 <= i < j < b.len() implies !#[trigger] key_tie(b[i], b[j]) by {
        if b[i] == b[j] {
            let witness = b[i];
            assert(b.remove(j).to_multiset() =~= b.to_multiset().remove(witness));
            b.remove_ensures(j);
            assert(b.remove(j)[i] == witness);
            assert(b.remove(j).contains(witness));
            assert(b.to_multiset().remove(witness).count(witness) > 0);
            assert(a.to_multiset().count(witness) >= 2);
            assert(a.contains(witness));
            let p = choose|p: int| 0 <= p < a.len() && a[p] == witness;
            assert(a.remove(p).to_multiset() =~= a.to_multiset().remove(witness));
            assert(a.remove(p).to_multiset().count(witness) > 0);
            assert(a.remove(p).contains(witness));
            let q = choose|q: int| 0 <= q < a.remove(p).len() && a.remove(p)[q] == witness;
            a.remove_ensures(p);
            let q2 = if q < p {
                q
            } else {
                q + 1
            };
            assert(a[q2] == witness && q2 != p);
            lemma_rec_le_refl(witness@);
            if p < q2 {
                assert(key_tie(a[p], a[q2]));
            } else {
                assert(key_tie(a[q2], a[p]));
            }
            assert(false);
        } else {
            assert(b.contains(b[i]) && b.contains(b[j]));
            assert(a.to_multiset().count(b[i]) > 0 && a.to_multiset().count(b[j]) > 0);
            assert(a.contains(b[i]) && a.contains(b[j]));
            let p = choose|p: int| 0 <= p < a.len() && a[p] == b[i];
            let q = choose|q: int| 0 <= q < a.len() && a[q] == b[j];
            if key_tie(b[i], b[j]) {
                if p < q {
                    assert(key_tie(a[p], a[q]));
                } else if q < p {
                    assert(key_tie(a[q], a[p]));
                }
                assert(false);
            }
        }
    }
}

/// A sequence sorted one way is, reversed, sorted the other way.
proof fn lemma_reverse_sorted(s: Seq<VersionInfo>, reverse: bool)
    requires
        sorted_dir(s, reverse),
    ensures
        sorted_dir(s.reverse(), !reverse),
{
    let r = s.reverse();
    let nrev = !reverse;
    assert forall|i: int, j: int| 0 <= i <= j < r.len() implies #[trigger] le_dir(
        r[i],
        r[j],
        nrev,
    ) by {
        assert(r[i] == s[s.len() - 1 - i] && r[j] == s[s.len() - 1 - j]);
        assert(le_dir(s[s.len() - 1 - j], s[s.len() - 1 - i], reverse));
    }
}

/// Law: when no two records tie, sorting descending yields exactly the
/// reversal of sorting ascending.
pub proof fn lemma_sort_mirror(s: Seq<VersionInfo>)
    requires
        distinct_keys(s),
    ensures
        sort_spec(s, true) == sort_spec(s, false).reverse(),
{
    let asc = sort_spec(s, false);
    let desc = sort_spec(s, true);
    lemma_sort_spec(s, false);
    lemma_sort_spec(s, true);
    lemma_reverse_sorted(asc, false);
    asc.lemma_reverse_to_multiset();
    lemma_distinct_keys_permutation(s, desc);
    lemma_sorted_unique(desc, asc.reverse(), true);
}

/// Whether `a` is at or below `b` in the requested direction.
fn info_le_dir(a: &VersionInfo, b: &VersionInfo, reverse: bool) -> (r: bool)
    ensures
        r == le_dir(*a, *b, reverse),
{
    if reverse {
        crate::order::info_le(b, a)
    } else {
        crate::order::info_le(a, b)
    }
}

/// Sorts the records: ascending in the record order, or descending when
/// `reverse` is set.
pub fn sort_records(records: Vec<VersionInfo>, reverse: bool) -> (r: Vec<VersionInfo>)
    ensures
        r@ == sort_spec(records@, reverse),
{
    let ghost orig = records@;
    let mut input = records;
    let mut out: Vec<VersionInfo> = Vec::new();
    let ghost mut consumed: int = 0;
    proof {
        assert(orig.take(0) =~= Seq::<VersionInfo>::empty());
    }
    while input.len() > 0
        invariant
            0 <= consumed <= orig.len(),
            input@ == orig.skip(consumed),
            out@ == sort_spec(orig.take(consumed), reverse),
        decreases input@.len(),
    {
        let x = input.remove(0);
        proof {
            assert(orig.skip(consumed).remove(0) =~= orig.skip(consumed + 1));
            assert(x == orig[consumed]);
        }
        let mut j: usize = 0;
        let ghost sorted_out = out@;
        proof {
            lemma_sort_spec(orig.take(consumed), reverse);
        }
        while j < out.len() && info_le_dir(&out[j], &x, reverse)
            invariant
                0 <= j <= out@.len(),
                out@ == sorted_out,
                forall|k: int| 0 <= k < j ==> le_dir(#[trigger] out@[k], x, reverse),
            decreases out@.len() - j,
        {
            j += 1;
        }
        proof {
            if j < out@.len() {
                assert(!le_dir(out@[j as int], x, reverse));
            }
        }
        out.insert(j, x);
        proof {
            lemma_insert_exec_matches(x, sorted_out, reverse, j as int);
            assert(orig.take(consumed + 1).drop_last() =~= orig.take(consumed));
            assert(orig.take(consumed + 1).last() == orig[consumed]);
            consumed = consumed + 1;
        }
    }
    proof {
        assert(orig.take(consumed) =~= orig);
    }
    out
}

/// Inserting at the first position whose element is not at or below `x`
/// is what `insert_sorted` does.
proof fn lemma_insert_exec_matches(x: VersionInfo, s: Seq<VersionInfo>, reverse: bool, j: int)
    requires
        0 <= j <= s.len(),
        forall|k: int| 0 <= k < j ==> le_dir(#[trigger] s[k], x, reverse),
        j < s.len() ==> !le_dir(s[j], x, reverse),
    ensures
        insert_sorted(x, s, reverse) == s.insert(j, x),
    decreases s.len(),
{
    if s.len() == 0 {
        assert(insert_sorted(x, s, reverse) =~= s.insert(0, x));
    } else if j == 0 {
        assert(insert_sorted(x, s, reverse) =~= s.insert(0, x));
    } else {
        let rest = s.drop_first();
        assert(forall|k: int| 0 <= k < rest.len() ==> rest[k] == s[k + 1]);
        lemma_insert_exec_matches(x, rest, reverse, j - 1);
        assert(le_dir(s[0], x, reverse));
        assert(seq![s[0]] + rest.insert(j - 1, x) =~= s.insert(j, x));
    }
}

} // verus!
