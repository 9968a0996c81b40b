//! Canonical ordering of the triples: stable sort by (row, column).
//!
//! The value field is carried along, never compared, and triples with equal
//! coordinates keep their encounter order: a new triple is inserted after
//! every triple whose key is less than or equal to its own.

use vstd::prelude::*;
use vstd::seq_lib::lemma_multiset_commutative;
use vstd::multiset::Multiset;
use vstd::seq_lib::group_to_multiset_ensures;
use crate::entry::RawEntry;
use crate::entry::SpecEntry;

verus! {

/// Row-major key order: by row, then column.
pub open spec fn key_le(a: SpecEntry, b: SpecEntry) -> bool {
    a.row < b.row || (a.row == b.row && a.col <= b.col)
}

/// Sorted by (row, column), duplicates allowed.
pub open spec fn sorted_by_key(s: Seq<SpecEntry>) -> bool {
    forall|i: int, j: int| 0 <= i < j < s.len() ==> #[trigger] key_le(s[i], s[j])
}

/// Insertion after every entry whose key is not greater.
pub open spec fn spec_insert(s: Seq<SpecEntry>, x: SpecEntry) -> Seq<SpecEntry>
    decreases s.len(),
{
    if s.len() == 0 {
        seq![x]
    } else if key_le(s[0], x) {
        seq![s[0]] + spec_insert(s.drop_first(), x)
    } else {
        seq![x] + s
    }
}

/// Stable sort by (row, column): triples are inserted in encounter order.
pub open spec fn spec_sort(s: Seq<SpecEntry>) -> Seq<SpecEntry>
    decreases s.len(),
{
    if s.len() == 0 {
        Seq::<SpecEntry>::empty()
    } else {
        spec_insert(spec_sort(s.drop_last()), s.last())
    }
}

/// `spec_insert` puts the new entry right after the longest prefix of keys
/// that are less than or equal to it.
pub proof fn lemma_insert_shape(s: Seq<SpecEntry>, x: SpecEntry, k: int)
    requires
        0 <= k <= s.len(),
        forall|j: int| 0 <= j < k ==> key_le(#[trigger] s[j], x),
        k < s.len() ==> !key_le(s[k], x),
    ensures
        spec_insert(s, x) == s.take(k) + seq![x] + s.skip(k),
    decreases s.len(),
{
    if s.len() == 0 {
        assert(s.take(k) =~~= Seq::<SpecEntry>::empty());
        assert(s.skip(k) =~~= Seq::<SpecEntry>::empty());
        assert(spec_insert(s, x) =~~= s.take(k) + seq![x] + s.skip(k));
    } else if key_le(s[0], x) {
        assert(k > 0);
        let t = s.drop_first();
        assert(forall|j: int| 0 <= j < k - 1 ==> key_le(#[trigger] t[j], x));
        assert(k - 1 < t.len() ==> !key_le(t[k - 1], x));
        lemma_insert_shape(t, x, k - 1);
        assert(s.take(k) =~~= seq![s[0]] + t.take(k - 1));
        assert(s.skip(k) =~~= t.skip(k - 1));
        assert(spec_insert(s, x) =~~= s.take(k) + seq![x] + s.skip(k));
    } else {
        assert(k == 0);
        assert(s.take(0) =~~= Seq::<SpecEntry>::empty());
        assert(s.skip(0) =~~= s);
        assert(spec_insert(s, x) =~~= s.take(k) + seq![x] + s.skip(k));
    }
}

/// Inserting into a sorted sequence keeps it sorted.
pub proof fn lemma_insert_sorted(s: Seq<SpecEntry>, x: SpecEntry, k: int)
    requires
        sorted_by_key(s),
        0 <= k <= s.len(),
        forall|j: int| 0 <= j < k ==> key_le(#[trigger] s[j], x),
        k < s.len() ==> !key_le(s[k], x),
    ensures
        sorted_by_key(spec_insert(s, x)),
{
    lemma_insert_shape(s, x, k);
    let r = spec_insert(s, x);
    assert forall|i: int, j: int| 0 <= i < j < r.len() implies #[trigger] key_le(r[i], r[j]) by {
        assert(r[i] == if i < k {
            s[i]
        } else if i == k {
            x
        } else {
            s[i - 1]
        });
        assert(r[j] == if j < k {
            s[j]
        } else if j == k {
            x
        } else {
            s[j - 1]
        });
        if i < k && j == k {
            assert(key_le(s[i], x));
        } else if i == k && j > k {
            assert(!key_le(s[k], x));
            assert(key_le(x, s[k]));
            assert(k < j - 1 ==> key_le(s[k], s[j - 1]));
        } else if i < k && j > k {
            assert(i < j - 1 ==> key_le(s[i], s[j - 1]));
        }
    }
}

/// Insertion preserves the triples as a multiset.
pub proof fn lemma_insert_multiset(s: Seq<SpecEntry>, x: SpecEntry)
    ensures
        spec_insert(s, x).to_multiset() == s.to_multiset().insert(x),
    decreases s.len(),
{
    broadcast use group_to_multiset_ensures;
    broadcast use vstd::multiset::group_multiset_axioms;

    if s.len() == 0 {
        assert(seq![x] =~~= Seq::<SpecEntry>::empty().push(x));
        assert(spec_insert(s, x).to_multiset() =~= s.to_multiset().insert(x));
    } else if key_le(s[0], x) {
        let t = s.drop_first();
        lemma_insert_multiset(t, x);
        lemma_multiset_commutative(seq![s[0]], spec_insert(t, x));
        lemma_multiset_commutative(seq![s[0]], t);
        assert(s =~~= seq![s[0]] + t);
        assert(seq![s[0]].to_multiset().add(t.to_multiset().insert(x)) =~= (
        seq![s[0]].to_multiset().add(t.to_multiset())).insert(x));
        assert(spec_insert(s, x).to_multiset() =~= s.to_multiset().insert(x));
    } else {
        lemma_multiset_commutative(seq![x], s);
        assert(seq![x] =~~= Seq::<SpecEntry>::empty().push(x));
        assert(seq![x].to_multiset() =~= Multiset::<SpecEntry>::empty().insert(x));
        assert(Multiset::<SpecEntry>::empty().insert(x).add(s.to_multiset())
            =~= s.to_multiset().insert(x));
        assert(spec_insert(s, x).to_multiset() =~= s.to_multiset().insert(x));
    }
}

/// Sorting preserves the triples as a multiset: re-expanding the sorted
/// arrays yields exactly the parsed triples, duplicates included.
pub proof fn lemma_sort_multiset(s: Seq<SpecEntry>)
    ensures
        spec_sort(s).to_multiset() == s.to_multiset(),
    decreases s.len(),
{
    broadcast use group_to_multiset_ensures;

    if s.len() > 0 {
        let d = s.drop_last();
        lemma_sort_multiset(d);
        lemma_insert_multiset(spec_sort(d), s.last());
        assert(s =~~= d.push(s.last()));
    }
}

/// The sort's result is sorted by (row, column).
pub proof fn lemma_sort_sorted(s: Seq<SpecEntry>)
    ensures
        sorted_by_key(spec_sort(s)),
    decreases s.len(),
{
    if s.len() > 0 {
        let d = s.drop_last();
        lemma_sort_sorted(d);
        let t = spec_sort(d);
        let x = s.last();
        let k = first_gt(t, x, 0);
        lemma_insert_sorted(t, x, k);
    }
}

/// The first position whose key exceeds `x`, or the length if none does.
proof fn first_gt(t: Seq<SpecEntry>, x: SpecEntry, from: int) -> (k: int)
    requires
        0 <= from <= t.len(),
        forall|j: int| 0 <= j < from ==> key_le(#[trigger] t[j], x),
    ensures
        0 <= k <= t.len(),
        forall|j: int| 0 <= j < k ==> key_le(#[trigger] t[j], x),
        k < t.len() ==> !key_le(t[k], x),
    decreases t.len() - from,
{
    if from == t.len() {
        from
    } else if !key_le(t[from], x) {
        from
    } else {
        first_gt(t, x, from + 1)
    }
}

/// Key comparison on stored triples.
fn key_le_exec(a: &RawEntry, b: &RawEntry) -> (r: bool)
    ensures
        r == key_le(a@, b@),
{
    a.row < b.row || (a.row == b.row && a.col <= b.col)
}

/// Inserts one triple into a sorted vector, as `spec_insert` describes.
fn insert_entry(out: &mut Vec<RawEntry>, e: RawEntry)
    ensures
        final(out).deep_view() == spec_insert(old(out).deep_view(), e@),
{
    let ghost s = out.deep_view();
    let mut idx: usize = 0;
    while idx < out.len() && key_le_exec(&out[idx], &e)
        invariant
            s == out.deep_view(),
            idx <= out@.len(),
            out@.len() == s.len(),
            forall|j: int| 0 <= j < idx ==> key_le(#[trigger] s[j], e@),
        decreases out@.len() - idx,
    {
        proof {
            assert(out@[idx as int].deep_view() == s[idx as int]);
        }
        idx = idx + 1;
    }
    proof {
        if idx < out@.len() {
            assert(out@[idx as int].deep_view() == s[idx as int]);
        }
        lemma_insert_shape(s, e@, idx as int);
    }
    out.insert(idx, e);
    proof {
        assert(out.deep_view() =~~= s.take(idx as int) + seq![e@] + s.skip(idx as int));
    }
}

/// Sorts the triples in place by (row, column), keeping equal coordinates
/// in encounter order, as `spec_sort` describes.
pub fn sort_entries(v: &mut Vec<RawEntry>)
    ensures
        final(v).deep_view() == spec_sort(old(v).deep_view()),
{
    let ghost orig = v.deep_view();
    let mut out: Vec<RawEntry> = Vec::new();
    let mut k: usize = 0;
    let total = v.len();
    proof {
        assert(orig.take(0) =~~= Seq::<SpecEntry>::empty());
    }
    while v.len() > 0
        invariant
            orig.len() == total,
            k + v@.len() == orig.len(),
            forall|j: int| 0 <= j < v@.len() ==> v@[j].deep_view() == orig[k + j],
            out.deep_view() == spec_sort(orig.take(k as int)),
        decreases v@.len(),
    {
        let e = v.remove(0);
        proof {
            assert(e.deep_view() == orig[k as int]);
            assert(orig.take(k + 1).drop_last() =~~= orig.take(k as int));
            assert(orig.take(k + 1).last() == orig[k as int]);
        }
        insert_entry(&mut out, e);
        k = k + 1;
    }
    proof {
        assert(orig.take(orig.len() as int) =~~= orig);
    }
    *v = out;
}

/// Insertion keeps every triple within the declared shape.
pub proof fn lemma_insert_within(s: Seq<SpecEntry>, x: SpecEntry, m: int, n: int)
    requires
        crate::entry::entries_within(s, m, n),
        crate::entry::entry_bounds(x, m, n),
    ensures
        crate::entry::entries_within(spec_insert(s, x), m, n),
{
    let k = first_gt(s, x, 0);
    lemma_insert_shape(s, x, k);
    let r = spec_insert(s, x);
    assert forall|i: int| 0 <= i < r.len() implies crate::entry::entry_bounds(
        #[trigger] r[i],
        m,
        n,
    ) by {
        assert(r[i] == if i < k {
            s[i]
        } else if i == k {
            x
        } else {
            s[i - 1]
        });
    }
}

/// Sorting keeps every triple within the declared shape.
pub proof fn lemma_sort_within(s: Seq<SpecEntry>, m: int, n: int)
    requires
        crate::entry::entries_within(s, m, n),
    ensures
        crate::entry::entries_within(spec_sort(s), m, n),
    decreases s.len(),
{
    if s.len() > 0 {
        let d = s.drop_last();
        assert(forall|i: int| 0 <= i < d.len() ==> crate::entry::entry_bounds(#[trigger] d[i], m, n));
        lemma_sort_within(d, m, n);
        lemma_insert_within(spec_sort(d), s.last(), m, n);
    }
}

/// Sorting keeps the length.
pub proof fn lemma_sort_len(s: Seq<SpecEntry>)
    ensures
        spec_sort(s).len() == s.len(),
    decreases s.len(),
{
    if s.len() > 0 {
        let d = s.drop_last();
        lemma_sort_len(d);
        let t = spec_sort(d);
        let x = s.last();
        let k = first_gt(t, x, 0);
        lemma_insert_shape(t, x, k);
    }
}

/// The subsequence of triples at one coordinate pair, in order.
pub open spec fn entries_at(s: Seq<SpecEntry>, r0: int, c0: int) -> Seq<SpecEntry>
    decreases s.len(),
{
    if s.len() == 0 {
        Seq::<SpecEntry>::empty()
    } else {
        let pre = entries_at(s.drop_last(), r0, c0);
        if s.last().row == r0 && s.last().col == c0 {
            pre.push(s.last())
        } else {
            pre
        }
    }
}

pub proof fn lemma_entries_at_add(a: Seq<SpecEntry>, b: Seq<SpecEntry>, r0: int, c0: int)
    ensures
        entries_at(a + b, r0, c0) == entries_at(a, r0, c0) + entries_at(b, r0, c0),
    decreases b.len(),
{
    if b.len() == 0 {
        assert(a + b =~~= a);
        assert(entries_at(a, r0, c0) + entries_at(b, r0, c0) =~~= entries_at(a, r0, c0));
    } else {
        assert((a + b).drop_last() =~~= a + b.drop_last());
        assert((a + b).last() == b.last());
        lemma_entries_at_add(a, b.drop_last(), r0, c0);
        assert(entries_at(a + b, r0, c0) =~~= entries_at(a, r0, c0) + entries_at(b, r0, c0));
    }
}

proof fn lemma_entries_at_none(s: Seq<SpecEntry>, r0: int, c0: int)
    requires
        forall|i: int| 0 <= i < s.len() ==> !((#[trigger] s[i].row) == r0 && s[i].col == c0),
    ensures
        entries_at(s, r0, c0) == Seq::<SpecEntry>::empty(),
    decreases s.len(),
{
    if s.len() > 0 {
        assert(forall|i: int|
            0 <= i < s.drop_last().len() ==> !((#[trigger] s.drop_last()[i].row) == r0
                && s.drop_last()[i].col == c0));
        lemma_entries_at_none(s.drop_last(), r0, c0);
    }
}

/// Inserting a triple appends it to its coordinate pair's subsequence and
/// leaves every other pair's subsequence unchanged.
proof fn lemma_insert_stable(s: Seq<SpecEntry>, x: SpecEntry, r0: int, c0: int)
    requires
        sorted_by_key(s),
    ensures
        entries_at(spec_insert(s, x), r0, c0) == entries_at(s.push(x), r0, c0),
{
    let k = first_gt(s, x, 0);
    lemma_insert_shape(s, x, k);
    let a = s.take(k);
    let b = s.skip(k);
    lemma_entries_at_add(a + seq![x], b, r0, c0);
    lemma_entries_at_add(a, seq![x], r0, c0);
    lemma_entries_at_add(a + b, seq![x], r0, c0);
    lemma_entries_at_add(a, b, r0, c0);
    assert(spec_insert(s, x) =~~= (a + seq![x]) + b);
    assert(s.push(x) =~~= (a + b) + seq![x]);
    assert(s =~~= a + b);
    if x.row == r0 && x.col == c0 {
        assert(entries_at(b, r0, c0) == Seq::<SpecEntry>::empty()) by {
            assert forall|i: int| 0 <= i < b.len() implies !((#[trigger] b[i].row) == r0
                && b[i].col == c0) by {
                if b[i].row == r0 && b[i].col == c0 {
                    assert(b[i] == s[k + i]);
                    assert(k < s.len());
                    assert(!key_le(s[k], x));
                    if k + i > k {
                        assert(key_le(s[k], s[k + i]));
                    }
                    assert(key_le(s[k + i], x));
                    assert(false);
                }
            }
            lemma_entries_at_none(b, r0, c0);
        }
        assert(entries_at(spec_insert(s, x), r0, c0) =~~= entries_at(s.push(x), r0, c0));
    } else {
        assert(entries_at(seq![x], r0, c0) == Seq::<SpecEntry>::empty()) by {
            assert(seq![x].drop_last() =~~= Seq::<SpecEntry>::empty());
            assert(entries_at(Seq::<SpecEntry>::empty(), r0, c0) == Seq::<SpecEntry>::empty());
            assert(seq![x].last() == x);
        }
        assert(entries_at(spec_insert(s, x), r0, c0) =~~= entries_at(s.push(x), r0, c0));
    }
}

/// Stability: for every coordinate pair, the sorted sequence lists that
/// pair's triples in their encounter order — duplicates are neither merged
/// nor reordered.
pub proof fn lemma_sort_stable(s: Seq<SpecEntry>, r0: int, c0: int)
    ensures
        entries_at(spec_sort(s), r0, c0) == entries_at(s, r0, c0),
    decreases s.len(),
{
    if s.len() > 0 {
        let d = s.drop_last();
        let x = s.last();
        lemma_sort_stable(d, r0, c0);
        lemma_sort_sorted(d);
        lemma_insert_stable(spec_sort(d), x, r0, c0);
        lemma_entries_at_add(spec_sort(d), seq![x], r0, c0);
        lemma_entries_at_add(d, seq![x], r0, c0);
        assert(spec_sort(d).push(x) =~~= spec_sort(d) + seq![x]);
        assert(s =~~= d + seq![x]);
        assert(entries_at(spec_sort(s), r0, c0) =~~= entries_at(s, r0, c0));
    }
}

} // verus!
