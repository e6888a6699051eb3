//! Builds the annotated difference of two line sequences from their alignment.

use crate::alignment::{
    identity_alignment, is_common_subsequence, lcs, lemma_backtrack_same,
    lemma_spec_lcs_disjoint, lemma_spec_lcs_is_longest, pairs, share_nothing, spec_lcs, LcsItem,
};
use crate::delta::{DeltaLine, EditType};
use vstd::prelude::*;

verus! {

/// The annotated lines held by a sequence of `DeltaLine`s.
pub open spec fn annotated(lines: Seq<DeltaLine>) -> Seq<(EditType, Seq<char>)> {
    Seq::new(lines.len(), |k: int| lines[k]@)
}

/// Every element of `items`, in order, tagged with `kind`.
pub open spec fn tagged<T>(kind: EditType, items: Seq<T>) -> Seq<(EditType, T)> {
    Seq::new(items.len(), |k: int| (kind, items[k]))
}

/// The entries for one stretch without a match: the elements `a[from_a..to_a]`
/// as deleted, then the elements `b[from_b..to_b]` as inserted.
pub open spec fn gap<T>(a: Seq<T>, b: Seq<T>, from_a: int, to_a: int, from_b: int, to_b: int) -> Seq<
    (EditType, T),
> {
    tagged(EditType::DELETE, a.subrange(from_a, to_a)) + tagged(
        EditType::INSERT,
        b.subrange(from_b, to_b),
    )
}

/// The position in `a` that follows the first `k` matches of `al`.
pub open spec fn resume_a(al: Seq<(int, int)>, k: int) -> int {
    if k <= 0 {
        0
    } else {
        al[k - 1].0 + 1
    }
}

/// The position in `b` that follows the first `k` matches of `al`.
pub open spec fn resume_b(al: Seq<(int, int)>, k: int) -> int {
    if k <= 0 {
        0
    } else {
        al[k - 1].1 + 1
    }
}

/// The entries up to and including the `k`-th match of `al`: for each match
/// in turn, the gap before it, then the matched element as unchanged.
pub open spec fn diff_prefix<T>(a: Seq<T>, b: Seq<T>, al: Seq<(int, int)>, k: int) -> Seq<
    (EditType, T),
>
    decreases k,
{
    if k <= 0 {
        Seq::empty()
    } else {
        diff_prefix(a, b, al, k - 1) + gap(
            a,
            b,
            resume_a(al, k - 1),
            al[k - 1].0,
            resume_b(al, k - 1),
            al[k - 1].1,
        ).push((EditType::NIL, a[al[k - 1].0]))
    }
}

/// The difference of `a` and `b` along the alignment `al`: the entries up to
/// the last match, then the gap that runs to the ends of both sequences.
pub open spec fn diff_along<T>(a: Seq<T>, b: Seq<T>, al: Seq<(int, int)>) -> Seq<(EditType, T)> {
    let k = al.len() as int;
    diff_prefix(a, b, al, k) + gap(
        a,
        b,
        resume_a(al, k),
        a.len() as int,
        resume_b(al, k),
        b.len() as int,
    )
}

/// The difference that `diff` returns for `a` and `b`.
pub open spec fn spec_diff<T>(a: Seq<T>, b: Seq<T>) -> Seq<(EditType, T)> {
    diff_along(a, b, spec_lcs(a, b))
}

/// Holds of the entries whose kind is not `absent`.
pub open spec fn is_not<T>(absent: EditType) -> spec_fn((EditType, T)) -> bool {
    |entry: (EditType, T)| entry.0 != absent
}

/// Holds of the entries whose kind is `kind`.
pub open spec fn is_kind<T>(kind: EditType) -> spec_fn((EditType, T)) -> bool {
    |entry: (EditType, T)| entry.0 == kind
}

/// The elements that the entries carry, without their kinds.
pub open spec fn elements<T>(d: Seq<(EditType, T)>) -> Seq<T> {
    Seq::new(d.len(), |k: int| d[k].1)
}

/// What the difference `d` says the first sequence was: the elements of its
/// deleted and unchanged entries, in order.
pub open spec fn first_side<T>(d: Seq<(EditType, T)>) -> Seq<T> {
    elements(d.filter(is_not(EditType::INSERT)))
}

/// What the difference `d` says the second sequence is: the elements of its
/// inserted and unchanged entries, in order.
pub open spec fn second_side<T>(d: Seq<(EditType, T)>) -> Seq<T> {
    elements(d.filter(is_not(EditType::DELETE)))
}

/// The number of entries of `d` that are of kind `kind`.
pub open spec fn count_of<T>(d: Seq<(EditType, T)>, kind: EditType) -> nat {
    d.filter(is_kind(kind)).len()
}

/// A filter that accepts every entry of one kind keeps a run of that kind.
proof fn lemma_filter_keeps_run<T>(
    kind: EditType,
    items: Seq<T>,
    pred: spec_fn((EditType, T)) -> bool,
)
    requires
        forall|x: T| #[trigger] pred((kind, x)),
    ensures
        tagged(kind, items).filter(pred) == tagged(kind, items),
    decreases items.len(),
{
    reveal(Seq::filter);
    if items.len() > 0 {
        lemma_filter_keeps_run(kind, items.drop_last(), pred);
        assert(tagged(kind, items).drop_last() =~= tagged(kind, items.drop_last()));
        assert(tagged(kind, items).last() == (kind, items.last()));
        assert(tagged(kind, items) =~= tagged(kind, items.drop_last()).push(
            (kind, items.last()),
        ));
    }
}

/// A filter that rejects every entry of one kind drops a run of that kind.
proof fn lemma_filter_drops_run<T>(
    kind: EditType,
    items: Seq<T>,
    pred: spec_fn((EditType, T)) -> bool,
)
    requires
        forall|x: T| !#[trigger] pred((kind, x)),
    ensures
        tagged(kind, items).filter(pred) == Seq::<(EditType, T)>::empty(),
    decreases items.len(),
{
    reveal(Seq::filter);
    if items.len() > 0 {
        lemma_filter_drops_run(kind, items.drop_last(), pred);
        assert(tagged(kind, items).drop_last() =~= tagged(kind, items.drop_last()));
        assert(tagged(kind, items).last() == (kind, items.last()));
    }
}

/// What a gap holds of each side and of each kind.
proof fn lemma_gap_sides<T>(a: Seq<T>, b: Seq<T>, from_a: int, to_a: int, from_b: int, to_b: int)
    requires
        0 <= from_a <= to_a <= a.len(),
        0 <= from_b <= to_b <= b.len(),
    ensures
        first_side(gap(a, b, from_a, to_a, from_b, to_b)) == a.subrange(from_a, to_a),
        second_side(gap(a, b, from_a, to_a, from_b, to_b)) == b.subrange(from_b, to_b),
        count_of(gap(a, b, from_a, to_a, from_b, to_b), EditType::DELETE) == to_a - from_a,
        count_of(gap(a, b, from_a, to_a, from_b, to_b), EditType::INSERT) == to_b - from_b,
        count_of(gap(a, b, from_a, to_a, from_b, to_b), EditType::NIL) == 0,
{
    let del = tagged(EditType::DELETE, a.subrange(from_a, to_a));
    let ins = tagged(EditType::INSERT, b.subrange(from_b, to_b));
    let ra = a.subrange(from_a, to_a);
    let rb = b.subrange(from_b, to_b);
    Seq::filter_distributes_over_add(del, ins, is_not::<T>(EditType::INSERT));
    Seq::filter_distributes_over_add(del, ins, is_not::<T>(EditType::DELETE));
    Seq::filter_distributes_over_add(del, ins, is_kind::<T>(EditType::DELETE));
    Seq::filter_distributes_over_add(del, ins, is_kind::<T>(EditType::INSERT));
    Seq::filter_distributes_over_add(del, ins, is_kind::<T>(EditType::NIL));
    lemma_filter_keeps_run(EditType::DELETE, ra, is_not::<T>(EditType::INSERT));
    lemma_filter_drops_run(EditType::INSERT, rb, is_not::<T>(EditType::INSERT));
    lemma_filter_drops_run(EditType::DELETE, ra, is_not::<T>(EditType::DELETE));
    lemma_filter_keeps_run(EditType::INSERT, rb, is_not::<T>(EditType::DELETE));
    lemma_filter_keeps_run(EditType::DELETE, ra, is_kind::<T>(EditType::DELETE));
    lemma_filter_drops_run(EditType::INSERT, rb, is_kind::<T>(EditType::DELETE));
    lemma_filter_drops_run(EditType::DELETE, ra, is_kind::<T>(EditType::INSERT));
    lemma_filter_keeps_run(EditType::INSERT, rb, is_kind::<T>(EditType::INSERT));
    lemma_filter_drops_run(EditType::DELETE, ra, is_kind::<T>(EditType::NIL));
    lemma_filter_drops_run(EditType::INSERT, rb, is_kind::<T>(EditType::NIL));
    assert(first_side(gap(a, b, from_a, to_a, from_b, to_b)) =~= ra);
    assert(second_side(gap(a, b, from_a, to_a, from_b, to_b)) =~= rb);
}

/// The sides and counts of a difference with one more entry at its end.
proof fn lemma_push_sides<T>(d: Seq<(EditType, T)>, entry: (EditType, T))
    ensures
        first_side(d.push(entry)) == if entry.0 != EditType::INSERT {
            first_side(d).push(entry.1)
        } else {
            first_side(d)
        },
        second_side(d.push(entry)) == if entry.0 != EditType::DELETE {
            second_side(d).push(entry.1)
        } else {
            second_side(d)
        },
        forall|kind: EditType|
            #[trigger] count_of(d.push(entry), kind) == count_of(d, kind) + if entry.0 == kind {
                1nat
            } else {
                0nat
            },
{
    d.lemma_filter_push(entry, is_not::<T>(EditType::INSERT));
    d.lemma_filter_push(entry, is_not::<T>(EditType::DELETE));
    assert(first_side(d.push(entry)) =~= if entry.0 != EditType::INSERT {
        first_side(d).push(entry.1)
    } else {
        first_side(d)
    });
    assert(second_side(d.push(entry)) =~= if entry.0 != EditType::DELETE {
        second_side(d).push(entry.1)
    } else {
        second_side(d)
    });
    assert forall|kind: EditType|
        #[trigger] count_of(d.push(entry), kind) == count_of(d, kind) + if entry.0 == kind {
            1nat
        } else {
            0nat
        } by {
        d.lemma_filter_push(entry, is_kind::<T>(kind));
    }
}

/// The sides and counts of two differences, one after the other.
proof fn lemma_add_sides<T>(d: Seq<(EditType, T)>, e: Seq<(EditType, T)>)
    ensures
        first_side(d + e) == first_side(d) + first_side(e),
        second_side(d + e) == second_side(d) + second_side(e),
        forall|kind: EditType|
            #[trigger] count_of(d + e, kind) == count_of(d, kind) + count_of(e, kind),
{
    Seq::filter_distributes_over_add(d, e, is_not::<T>(EditType::INSERT));
    Seq::filter_distributes_over_add(d, e, is_not::<T>(EditType::DELETE));
    assert(first_side(d + e) =~= first_side(d) + first_side(e));
    assert(second_side(d + e) =~= second_side(d) + second_side(e));
    assert forall|kind: EditType|
        #[trigger] count_of(d + e, kind) == count_of(d, kind) + count_of(e, kind) by {
        Seq::filter_distributes_over_add(d, e, is_kind::<T>(kind));
    }
}

/// Every entry is of exactly one of the three kinds.
proof fn lemma_kinds_partition<T>(d: Seq<(EditType, T)>)
    ensures
        d.len() == count_of(d, EditType::DELETE) + count_of(d, EditType::INSERT) + count_of(
            d,
            EditType::NIL,
        ),
    decreases d.len(),
{
    reveal(Seq::filter);
    if d.len() > 0 {
        lemma_kinds_partition(d.drop_last());
    }
}

/// The entries up to the `k`-th match account for both sequences up to that
/// match: each element once, in order.
proof fn lemma_prefix_sides<T>(a: Seq<T>, b: Seq<T>, al: Seq<(int, int)>, k: int)
    requires
        is_common_subsequence(a, b, al),
        0 <= k <= al.len(),
    ensures
        0 <= resume_a(al, k) <= a.len(),
        0 <= resume_b(al, k) <= b.len(),
        first_side(diff_prefix(a, b, al, k)) == a.take(resume_a(al, k)),
        second_side(diff_prefix(a, b, al, k)) == b.take(resume_b(al, k)),
        count_of(diff_prefix(a, b, al, k), EditType::DELETE) == resume_a(al, k) - k,
        count_of(diff_prefix(a, b, al, k), EditType::INSERT) == resume_b(al, k) - k,
        count_of(diff_prefix(a, b, al, k), EditType::NIL) == k,
    decreases k,
{
    reveal(Seq::filter);
    if k > 0 {
        lemma_prefix_sides(a, b, al, k - 1);
        let (ia, ib) = al[k - 1];
        let from_a = resume_a(al, k - 1);
        let from_b = resume_b(al, k - 1);
        if k > 1 {
            assert(al[k - 2].0 < al[k - 1].0 && al[k - 2].1 < al[k - 1].1);
        }
        let before = diff_prefix(a, b, al, k - 1);
        let between = gap(a, b, from_a, ia, from_b, ib);
        let same = (EditType::NIL, a[ia]);
        assert(a[ia] == b[ib]);
        lemma_gap_sides(a, b, from_a, ia, from_b, ib);
        lemma_push_sides(between, same);
        lemma_add_sides(before, between.push(same));
        assert(first_side(diff_prefix(a, b, al, k)) =~= a.take(ia + 1));
        assert(second_side(diff_prefix(a, b, al, k)) =~= b.take(ib + 1));
    } else {
        assert(first_side(diff_prefix(a, b, al, k)) =~= a.take(0));
        assert(second_side(diff_prefix(a, b, al, k)) =~= b.take(0));
    }
}

/// A difference along any common subsequence accounts for both sequences:
/// without its inserted entries it reads as `a`, without its deleted entries
/// as `b`, and it has one unchanged entry for each match.
pub proof fn lemma_diff_along_covers<T>(a: Seq<T>, b: Seq<T>, al: Seq<(int, int)>)
    requires
        is_common_subsequence(a, b, al),
    ensures
        first_side(diff_along(a, b, al)) == a,
        second_side(diff_along(a, b, al)) == b,
        count_of(diff_along(a, b, al), EditType::DELETE) == a.len() - al.len(),
        count_of(diff_along(a, b, al), EditType::INSERT) == b.len() - al.len(),
        count_of(diff_along(a, b, al), EditType::NIL) == al.len(),
        diff_along(a, b, al).len() == a.len() + b.len() - al.len(),
{
    let k = al.len() as int;
    let d = diff_along(a, b, al);
    lemma_prefix_sides(a, b, al, k);
    lemma_gap_sides(a, b, resume_a(al, k), a.len() as int, resume_b(al, k), b.len() as int);
    lemma_add_sides(
        diff_prefix(a, b, al, k),
        gap(a, b, resume_a(al, k), a.len() as int, resume_b(al, k), b.len() as int),
    );
    assert(first_side(d) =~= a);
    assert(second_side(d) =~= b);
    lemma_kinds_partition(d);
}

/// The difference of two sequences covers both: with `k` the length of their
/// longest common subsequence, it holds `k` unchanged entries, `a.len() - k`
/// deleted ones and `b.len() - k` inserted ones; the deleted and unchanged
/// entries are the elements of `a` in order, the inserted and unchanged ones
/// those of `b`.
pub proof fn lemma_diff_covers<T>(a: Seq<T>, b: Seq<T>)
    ensures
        first_side(spec_diff(a, b)) == a,
        second_side(spec_diff(a, b)) == b,
        count_of(spec_diff(a, b), EditType::DELETE) == a.len() - spec_lcs(a, b).len(),
        count_of(spec_diff(a, b), EditType::INSERT) == b.len() - spec_lcs(a, b).len(),
        count_of(spec_diff(a, b), EditType::NIL) == spec_lcs(a, b).len(),
        spec_diff(a, b).len() == a.len() + b.len() - spec_lcs(a, b).len(),
{
    lemma_spec_lcs_is_longest(a, b);
    lemma_diff_along_covers(a, b, spec_lcs(a, b));
}

/// Along the alignment of every position with itself, the entries up to the
/// `k`-th match are the first `k` elements, unchanged.
proof fn lemma_prefix_same<T>(a: Seq<T>, k: int)
    requires
        0 <= k <= a.len(),
    ensures
        diff_prefix(a, a, identity_alignment(a.len() as int), k) == tagged(
            EditType::NIL,
            a.take(k),
        ),
    decreases k,
{
    let al = identity_alignment(a.len() as int);
    if k > 0 {
        lemma_prefix_same(a, k - 1);
        let before = tagged(EditType::NIL, a.take(k - 1));
        let between = gap(a, a, resume_a(al, k - 1), k - 1, resume_b(al, k - 1), k - 1);
        assert(al[k - 1] == (k - 1, k - 1));
        if k > 1 {
            assert(al[k - 2] == (k - 2, k - 2));
        }
        assert(between =~= Seq::<(EditType, T)>::empty());
        assert(before + between.push((EditType::NIL, a[k - 1])) =~= tagged(
            EditType::NIL,
            a.take(k),
        ));
    } else {
        assert(diff_prefix(a, a, al, k) =~= tagged(EditType::NIL, a.take(k)));
    }
}

/// The difference of a sequence with itself is that sequence, every element
/// unchanged.
pub proof fn lemma_diff_same<T>(a: Seq<T>)
    ensures
        spec_diff(a, a) == tagged(EditType::NIL, a),
{
    let n = a.len() as int;
    let al = identity_alignment(n);
    lemma_backtrack_same(a, n);
    lemma_prefix_same(a, n);
    assert(a.take(n) =~= a);
    assert(gap(a, a, resume_a(al, n), n, resume_b(al, n), n) =~= Seq::<(EditType, T)>::empty());
    assert(diff_along(a, a, al) =~= tagged(EditType::NIL, a));
}

/// Along the empty alignment the difference is one gap: every element of
/// `a` deleted, then every element of `b` inserted.
proof fn lemma_diff_along_empty<T>(a: Seq<T>, b: Seq<T>)
    ensures
        diff_along(a, b, Seq::<(int, int)>::empty()) == tagged(EditType::DELETE, a) + tagged(
            EditType::INSERT,
            b,
        ),
{
    let al = Seq::<(int, int)>::empty();
    assert(a.subrange(0, a.len() as int) =~= a);
    assert(b.subrange(0, b.len() as int) =~= b);
    assert(diff_prefix(a, b, al, 0) =~= Seq::<(EditType, T)>::empty());
    assert(diff_along(a, b, al) =~= gap(a, b, 0, a.len() as int, 0, b.len() as int));
}

/// The difference of two sequences without a common element is one gap:
/// every element of `a` deleted, then every element of `b` inserted.
pub proof fn lemma_diff_disjoint<T>(a: Seq<T>, b: Seq<T>)
    requires
        share_nothing(a, b),
    ensures
        spec_diff(a, b) == tagged(EditType::DELETE, a) + tagged(EditType::INSERT, b),
{
    lemma_spec_lcs_disjoint(a, b);
    lemma_diff_along_empty(a, b);
}

/// Appends the lines `seq[from..to]`, each tagged with `kind`.
fn push_run(res: &mut Vec<DeltaLine>, seq: &Vec<String>, from: usize, to: usize, kind: EditType)
    requires
        from <= to <= seq.len(),
    ensures
        annotated(final(res)@) == annotated(old(res)@) + tagged(
            kind,
            seq.deep_view().subrange(from as int, to as int),
        ),
{
    let ghost before = annotated(res@);
    let ghost lines = seq.deep_view();
    let mut at: usize = from;
    while at < to
        invariant
            from <= at <= to <= seq.len(),
            lines == seq.deep_view(),
            annotated(res@) =~= before + tagged(kind, lines.subrange(from as int, at as int)),
        decreases to - at,
    {
        let line = seq[at].clone();
        let ghost so_far = annotated(res@);
        res.push(DeltaLine { edit_type: kind, line });
        proof {
            assert(line@ == lines[at as int]);
            assert(annotated(res@) =~= so_far.push((kind, lines[at as int])));
            assert(tagged(kind, lines.subrange(from as int, at + 1)) =~= tagged(
                kind,
                lines.subrange(from as int, at as int),
            ).push((kind, lines[at as int])));
        }
        at += 1;
    }
}

/// Creates the difference of two line sequences.
///
/// The lines are walked along their longest common subsequence. Before each
/// match, and after the last one, the lines of `seq_a` that were passed over
/// come first, as deleted, then those of `seq_b`, as inserted; each matched
/// line follows once, as unchanged.
pub fn diff(seq_a: &Vec<String>, seq_b: &Vec<String>) -> (res: Vec<DeltaLine>)
    ensures
        annotated(res@) == spec_diff(seq_a.deep_view(), seq_b.deep_view()),
        first_side(annotated(res@)) == seq_a.deep_view(),
        second_side(annotated(res@)) == seq_b.deep_view(),
        count_of(annotated(res@), EditType::NIL) == spec_lcs(
            seq_a.deep_view(),
            seq_b.deep_view(),
        ).len(),
        count_of(annotated(res@), EditType::DELETE) == seq_a.len() - spec_lcs(
            seq_a.deep_view(),
            seq_b.deep_view(),
        ).len(),
        count_of(annotated(res@), EditType::INSERT) == seq_b.len() - spec_lcs(
            seq_a.deep_view(),
            seq_b.deep_view(),
        ).len(),
        seq_a.deep_view() == seq_b.deep_view() ==> annotated(res@) == tagged(
            EditType::NIL,
            seq_a.deep_view(),
        ),
        share_nothing(seq_a.deep_view(), seq_b.deep_view()) ==> annotated(res@) == tagged(
            EditType::DELETE,
            seq_a.deep_view(),
        ) + tagged(EditType::INSERT, seq_b.deep_view()),
{
    let ghost a = seq_a.deep_view();
    let ghost b = seq_b.deep_view();
    let matches: Vec<LcsItem> = lcs(seq_a, seq_b);
    let ghost al = pairs(matches@);
    let mut res: Vec<DeltaLine> = Vec::new();

    let mut next_a: usize = 0;
    let mut next_b: usize = 0;
    let mut i: usize = 0;
    while i < matches.len()
        invariant
            i <= matches.len(),
            a == seq_a.deep_view(),
            b == seq_b.deep_view(),
            al == pairs(matches@),
            is_common_subsequence(a, b, al),
            next_a == resume_a(al, i as int),
            next_b == resume_b(al, i as int),
            next_a <= seq_a.len(),
            next_b <= seq_b.len(),
            annotated(res@) == diff_prefix(a, b, al, i as int),
        decreases matches.len() - i,
    {
        let item: LcsItem = matches[i];
        proof {
            assert(al[i as int] == item@);
            if i > 0 {
                assert(al[i - 1].0 < al[i as int].0);
            }
        }
        let ghost done = annotated(res@);
        push_run(&mut res, seq_a, next_a, item.index_a, EditType::DELETE);
        push_run(&mut res, seq_b, next_b, item.index_b, EditType::INSERT);
        let line = seq_a[item.index_a].clone();
        let ghost with_gap = annotated(res@);
        res.push(DeltaLine { edit_type: EditType::NIL, line });
        proof {
            let between = gap(a, b, next_a as int, al[i as int].0, next_b as int, al[i as int].1);
            let same = (EditType::NIL, a[item.index_a as int]);
            assert(line@ == a[item.index_a as int]);
            assert(with_gap =~= done + between);
            assert(annotated(res@) =~= with_gap.push(same));
            assert((done + between).push(same) =~= done + between.push(same));
        }
        next_a = item.index_a + 1;
        next_b = item.index_b + 1;
        i += 1;
    }
    let ghost done = annotated(res@);
    push_run(&mut res, seq_a, next_a, seq_a.len(), EditType::DELETE);
    push_run(&mut res, seq_b, next_b, seq_b.len(), EditType::INSERT);
    proof {
        let k = al.len() as int;
        assert(annotated(res@) =~= done + gap(
            a,
            b,
            resume_a(al, k),
            a.len() as int,
            resume_b(al, k),
            b.len() as int,
        ));
        lemma_diff_covers(a, b);
        if a == b {
            lemma_diff_same(a);
        }
        if share_nothing(a, b) {
            lemma_diff_disjoint(a, b);
        }
    }
    res
}

} // verus!
