//! Longest common subsequence of two line sequences, as index pairs.

use vstd::prelude::*;

verus! {

/// One matched position: the lines at `index_a` in the first sequence and at
/// `index_b` in the second are equal.
#[derive(Debug, Clone, Copy, PartialEq, Eq, Structural)]
pub struct LcsItem {
    pub index_a: usize,
    pub index_b: usize,
}

impl View for LcsItem {
    type V = (int, int);

    open spec fn view(&self) -> (int, int) {
        (self.index_a as int, self.index_b as int)
    }
}

/// The index pairs held by a sequence of items.
pub open spec fn pairs(items: Seq<LcsItem>) -> Seq<(int, int)> {
    Seq::new(items.len(), |k: int| items[k]@)
}

/// `s` matches equal elements of `a[..i]` and `b[..j]`, and its indices rise
/// strictly on both sides.
pub open spec fn aligns_within<T>(a: Seq<T>, b: Seq<T>, s: Seq<(int, int)>, i: int, j: int) -> bool {
    &&& forall|k: int|
        0 <= k < s.len() ==> 0 <= (#[trigger] s[k]).0 < i && 0 <= s[k].1 < j && a[s[k].0]
            == b[s[k].1]
    &&& forall|k: int, l: int|
        0 <= k < l < s.len() ==> (#[trigger] s[k]).0 < (#[trigger] s[l]).0 && s[k].1 < s[l].1
}

/// `s` is a common subsequence of `a` and `b`, given by its positions.
pub open spec fn is_common_subsequence<T>(a: Seq<T>, b: Seq<T>, s: Seq<(int, int)>) -> bool {
    aligns_within(a, b, s, a.len() as int, b.len() as int)
}

/// Length of a longest common subsequence of `a[..i]` and `b[..j]`.
pub open spec fn lcs_len<T>(a: Seq<T>, b: Seq<T>, i: int, j: int) -> nat
    decreases i + j,
{
    if i <= 0 || j <= 0 {
        0
    } else if a[i - 1] == b[j - 1] {
        lcs_len(a, b, i - 1, j - 1) + 1
    } else if lcs_len(a, b, i - 1, j) >= lcs_len(a, b, i, j - 1) {
        lcs_len(a, b, i - 1, j)
    } else {
        lcs_len(a, b, i, j - 1)
    }
}

/// The alignment of `a[..i]` and `b[..j]` that is read off the table of
/// `lcs_len` from the corner `(i, j)` back to the origin: a match is taken
/// whenever the two last elements are equal; otherwise the walk drops the last
/// element of `a` if that loses nothing, and the last element of `b` if not.
pub open spec fn backtrack<T>(a: Seq<T>, b: Seq<T>, i: int, j: int) -> Seq<(int, int)>
    decreases i + j,
{
    if i <= 0 || j <= 0 {
        Seq::empty()
    } else if a[i - 1] == b[j - 1] {
        backtrack(a, b, i - 1, j - 1).push((i - 1, j - 1))
    } else if lcs_len(a, b, i, j) == lcs_len(a, b, i - 1, j) {
        backtrack(a, b, i - 1, j)
    } else {
        backtrack(a, b, i, j - 1)
    }
}

/// The alignment that `lcs` returns for `a` and `b`.
pub open spec fn spec_lcs<T>(a: Seq<T>, b: Seq<T>) -> Seq<(int, int)> {
    backtrack(a, b, a.len() as int, b.len() as int)
}

/// No common subsequence of two prefixes is longer than either prefix.
pub proof fn lemma_lcs_len_bound<T>(a: Seq<T>, b: Seq<T>, i: int, j: int)
    requires
        0 <= i,
        0 <= j,
    ensures
        lcs_len(a, b, i, j) <= i,
        lcs_len(a, b, i, j) <= j,
    decreases i + j,
{
    if i > 0 && j > 0 {
        lemma_lcs_len_bound(a, b, i - 1, j - 1);
        lemma_lcs_len_bound(a, b, i - 1, j);
        lemma_lcs_len_bound(a, b, i, j - 1);
    }
}

/// The walk back through the table yields a common subsequence of the two
/// prefixes, and its length is the table's entry.
pub proof fn lemma_backtrack_aligns<T>(a: Seq<T>, b: Seq<T>, i: int, j: int)
    requires
        0 <= i <= a.len(),
        0 <= j <= b.len(),
    ensures
        aligns_within(a, b, backtrack(a, b, i, j), i, j),
        backtrack(a, b, i, j).len() == lcs_len(a, b, i, j),
    decreases i + j,
{
    if i > 0 && j > 0 {
        if a[i - 1] == b[j - 1] {
            lemma_backtrack_aligns(a, b, i - 1, j - 1);
        } else if lcs_len(a, b, i, j) == lcs_len(a, b, i - 1, j) {
            lemma_backtrack_aligns(a, b, i - 1, j);
        } else {
            lemma_backtrack_aligns(a, b, i, j - 1);
        }
    }
}

/// Every common subsequence of two prefixes is at most as long as the
/// table's entry for them.
pub proof fn lemma_lcs_len_is_max<T>(a: Seq<T>, b: Seq<T>, s: Seq<(int, int)>, i: int, j: int)
    requires
        0 <= i <= a.len(),
        0 <= j <= b.len(),
        aligns_within(a, b, s, i, j),
    ensures
        s.len() <= lcs_len(a, b, i, j),
    decreases i + j,
{
    if s.len() > 0 {
        let last = s.last();
        let init = s.drop_last();
        assert(last == s[s.len() - 1]);
        assert forall|k: int| 0 <= k < init.len() implies (#[trigger] init[k]).0 < last.0
            && init[k].1 < last.1 by {
            assert(init[k] == s[k]);
        }
        if a[i - 1] == b[j - 1] {
            assert(aligns_within(a, b, init, i - 1, j - 1));
            lemma_lcs_len_is_max(a, b, init, i - 1, j - 1);
        } else if last.0 < i - 1 {
            assert(aligns_within(a, b, s, i - 1, j)) by {
                assert forall|k: int| 0 <= k < s.len() implies (#[trigger] s[k]).0 < i - 1 by {
                    if k < s.len() - 1 {
                        assert(init[k] == s[k]);
                    }
                }
            }
            lemma_lcs_len_is_max(a, b, s, i - 1, j);
        } else {
            assert(aligns_within(a, b, s, i, j - 1)) by {
                assert forall|k: int| 0 <= k < s.len() implies (#[trigger] s[k]).1 < j - 1 by {
                    if k < s.len() - 1 {
                        assert(init[k] == s[k]);
                    }
                }
            }
            lemma_lcs_len_is_max(a, b, s, i, j - 1);
        }
    }
}

/// The alignment that `lcs` returns is a longest common subsequence: it is a
/// common subsequence, and no common subsequence is longer.
pub proof fn lemma_spec_lcs_is_longest<T>(a: Seq<T>, b: Seq<T>)
    ensures
        is_common_subsequence(a, b, spec_lcs(a, b)),
        forall|s: Seq<(int, int)>| #[trigger]
            is_common_subsequence(a, b, s) ==> s.len() <= spec_lcs(a, b).len(),
        spec_lcs(a, b).len() <= a.len(),
        spec_lcs(a, b).len() <= b.len(),
{
    let n = a.len() as int;
    let m = b.len() as int;
    lemma_backtrack_aligns(a, b, n, m);
    lemma_lcs_len_bound(a, b, n, m);
    assert forall|s: Seq<(int, int)>| #[trigger] is_common_subsequence(a, b, s) implies s.len()
        <= spec_lcs(a, b).len() by {
        lemma_lcs_len_is_max(a, b, s, n, m);
    }
}

/// The alignment that matches each of the first `n` positions with itself.
pub open spec fn identity_alignment(n: int) -> Seq<(int, int)> {
    Seq::new(n as nat, |k: int| (k, k))
}

/// Aligning a sequence with itself matches every position with itself.
pub proof fn lemma_backtrack_same<T>(a: Seq<T>, i: int)
    requires
        0 <= i <= a.len(),
    ensures
        backtrack(a, a, i, i) == identity_alignment(i),
    decreases i,
{
    if i > 0 {
        lemma_backtrack_same(a, i - 1);
        assert(identity_alignment(i - 1).push((i - 1, i - 1)) =~= identity_alignment(i));
    } else {
        assert(backtrack(a, a, i, i) =~= identity_alignment(i));
    }
}

/// No element of `a` is equal to an element of `b`.
pub open spec fn share_nothing<T>(a: Seq<T>, b: Seq<T>) -> bool {
    forall|i: int, j: int|
        0 <= i < a.len() && 0 <= j < b.len() ==> #[trigger] a[i] != #[trigger] b[j]
}

/// Two sequences without a common element have the empty alignment.
pub proof fn lemma_spec_lcs_disjoint<T>(a: Seq<T>, b: Seq<T>)
    requires
        share_nothing(a, b),
    ensures
        spec_lcs(a, b) == Seq::<(int, int)>::empty(),
{
    lemma_spec_lcs_is_longest(a, b);
    let s = spec_lcs(a, b);
    if s.len() > 0 {
        assert(a[s[0].0] == b[s[0].1]);
    }
    assert(s =~= Seq::<(int, int)>::empty());
}

/// The first `rows` rows of the table for `a` and `b`, each of `cols` entries.
/// The row and the column of zeros are left out: the entry at `[r][c]` is the
/// length for `a[..r + 1]` and `b[..c + 1]`.
spec fn table_holds(
    dp: Seq<Vec<usize>>,
    a: Seq<Seq<char>>,
    b: Seq<Seq<char>>,
    rows: int,
    cols: int,
) -> bool {
    &&& dp.len() == rows
    &&& forall|r: int| 0 <= r < rows ==> (#[trigger] dp[r]).len() == cols
    &&& forall|r: int, c: int|
        0 <= r < rows && 0 <= c < cols ==> #[trigger] dp[r][c] == lcs_len(a, b, r + 1, c + 1)
}

/// Fills the table of `lcs_len`, row by row.
fn lcs_table(seq_a: &Vec<String>, seq_b: &Vec<String>) -> (dp: Vec<Vec<usize>>)
    ensures
        table_holds(
            dp@,
            seq_a.deep_view(),
            seq_b.deep_view(),
            seq_a.len() as int,
            seq_b.len() as int,
        ),
{
    let ghost a = seq_a.deep_view();
    let ghost b = seq_b.deep_view();
    let len_a: usize = seq_a.len();
    let len_b: usize = seq_b.len();
    let mut dp: Vec<Vec<usize>> = Vec::new();
    let mut i: usize = 0;
    while i < len_a
        invariant
            i <= len_a,
            len_a == seq_a.len(),
            len_b == seq_b.len(),
            a == seq_a.deep_view(),
            b == seq_b.deep_view(),
            table_holds(dp@, a, b, i as int, len_b as int),
        decreases len_a - i,
    {
        let mut row: Vec<usize> = Vec::new();
        let mut j: usize = 0;
        while j < len_b
            invariant
                i < len_a,
                j <= len_b,
                len_a == seq_a.len(),
                len_b == seq_b.len(),
                a == seq_a.deep_view(),
                b == seq_b.deep_view(),
                table_holds(dp@, a, b, i as int, len_b as int),
                row.len() == j,
                forall|c: int| 0 <= c < j ==> #[trigger] row[c] == lcs_len(a, b, i + 1, c + 1),
            decreases len_b - j,
        {
            let v: usize = if seq_a[i] == seq_b[j] {
                let diagonal: usize = if i == 0 || j == 0 {
                    0
                } else {
                    dp[i - 1][j - 1]
                };
                proof {
                    lemma_lcs_len_bound(a, b, i as int, j as int);
                    assert(diagonal == lcs_len(a, b, i as int, j as int));
                }
                diagonal + 1
            } else {
                let up: usize = if i == 0 {
                    0
                } else {
                    dp[i - 1][j]
                };
                let left: usize = if j == 0 {
                    0
                } else {
                    row[j - 1]
                };
                proof {
                    assert(up == lcs_len(a, b, i as int, j + 1));
                    assert(left == lcs_len(a, b, i + 1, j as int));
                }
                if up >= left {
                    up
                } else {
                    left
                }
            };
            row.push(v);
            j += 1;
        }
        dp.push(row);
        i += 1;
    }
    dp
}

/// Reads the table's entry for `a[..i]` and `b[..j]`.
fn table_entry(
    dp: &Vec<Vec<usize>>,
    i: usize,
    j: usize,
    Ghost(a): Ghost<Seq<Seq<char>>>,
    Ghost(b): Ghost<Seq<Seq<char>>>,
) -> (v: usize)
    requires
        i <= a.len(),
        j <= b.len(),
        table_holds(dp@, a, b, a.len() as int, b.len() as int),
    ensures
        v == lcs_len(a, b, i as int, j as int),
{
    if i == 0 || j == 0 {
        0
    } else {
        dp[i - 1][j - 1]
    }
}

/// The items of `items`, last first.
fn reversed(items: &Vec<LcsItem>) -> (res: Vec<LcsItem>)
    ensures
        res.len() == items.len(),
        forall|k: int| 0 <= k < res.len() ==> #[trigger] res[k] == items[items.len() - 1 - k],
{
    let mut res: Vec<LcsItem> = Vec::new();
    let mut left: usize = items.len();
    while left > 0
        invariant
            left <= items.len(),
            res.len() == items.len() - left,
            forall|k: int| 0 <= k < res.len() ==> #[trigger] res[k] == items[items.len() - 1 - k],
        decreases left,
    {
        left -= 1;
        res.push(items[left]);
    }
    res
}

/// Computes a longest common subsequence of two line sequences.
///
/// The result lists the matched positions in rising order. Among several
/// longest common subsequences it is the one that `spec_lcs` fixes.
pub fn lcs(seq_a: &Vec<String>, seq_b: &Vec<String>) -> (res: Vec<LcsItem>)
    ensures
        pairs(res@) == spec_lcs(seq_a.deep_view(), seq_b.deep_view()),
        is_common_subsequence(seq_a.deep_view(), seq_b.deep_view(), pairs(res@)),
        forall|s: Seq<(int, int)>| #[trigger]
            is_common_subsequence(seq_a.deep_view(), seq_b.deep_view(), s) ==> s.len()
                <= res.len(),
        res.len() <= seq_a.len(),
        res.len() <= seq_b.len(),
{
    let ghost a = seq_a.deep_view();
    let ghost b = seq_b.deep_view();
    let ghost full = spec_lcs(a, b);
    let len_a: usize = seq_a.len();
    let len_b: usize = seq_b.len();
    let dp = lcs_table(seq_a, seq_b);

    let mut r: usize = len_a;
    let mut c: usize = len_b;
    let mut found: Vec<LcsItem> = Vec::new();
    while r > 0 && c > 0
        invariant
            r <= len_a,
            c <= len_b,
            len_a == seq_a.len(),
            len_b == seq_b.len(),
            a == seq_a.deep_view(),
            b == seq_b.deep_view(),
            table_holds(dp@, a, b, len_a as int, len_b as int),
            found.len() <= full.len(),
            backtrack(a, b, r as int, c as int) =~= full.take(full.len() - found.len()),
            forall|k: int|
                0 <= k < found.len() ==> (#[trigger] found[k])@ == full[full.len() - 1 - k],
        decreases r + c,
    {
        if seq_a[r - 1] == seq_b[c - 1] {
            proof {
                let rest = backtrack(a, b, r - 1, c - 1);
                let cut = full.len() - found.len();
                assert(rest.push((r - 1, c - 1)) == full.take(cut));
                assert(full.take(cut)[cut - 1] == full[cut - 1]);
                assert(rest =~= full.take(cut - 1)) by {
                    assert(rest == rest.push((r - 1, c - 1)).drop_last());
                }
            }
            found.push(LcsItem { index_a: r - 1, index_b: c - 1 });
            r -= 1;
            c -= 1;
        } else if table_entry(&dp, r, c, Ghost(a), Ghost(b)) == table_entry(
            &dp,
            r - 1,
            c,
            Ghost(a),
            Ghost(b),
        ) {
            r -= 1;
        } else {
            c -= 1;
        }
    }
    let res = reversed(&found);
    proof {
        lemma_spec_lcs_is_longest(a, b);
        assert(pairs(res@) =~= full);
    }
    res
}

} // verus!
