//! A stable sort of indices by text keys: merge sort, ordered by the keys
//! (compared character by character, as `String`'s `Ord` compares them) and
//! then by index.

use vstd::prelude::*;

verus! {

broadcast use vstd::seq_lib::group_to_multiset_ensures, vstd::multiset::group_multiset_axioms;

/// Whether `a` comes before `b` comparing from position `i` on: the first
/// differing character decides, and a proper prefix comes first.
pub open spec fn lt_from(a: Seq<char>, b: Seq<char>, i: int) -> bool
    decreases a.len() - i,
{
    if i >= a.len() {
        i < b.len()
    } else if i >= b.len() {
        false
    } else if a[i] != b[i] {
        (a[i] as int) < (b[i] as int)
    } else {
        lt_from(a, b, i + 1)
    }
}

/// The lexicographic order of character sequences.
pub open spec fn chars_lt(a: Seq<char>, b: Seq<char>) -> bool {
    lt_from(a, b, 0)
}

/// Whether index `x` goes before index `y`: by key, then by index.
pub open spec fn before(keys: Seq<Seq<char>>, x: usize, y: usize) -> bool {
    chars_lt(keys[x as int], keys[y as int]) || (keys[x as int] == keys[y as int] && x <= y)
}

/// Whether the indices `v` are in order.
pub open spec fn sorted_by(keys: Seq<Seq<char>>, v: Seq<usize>) -> bool {
    forall|i: int, j: int| 0 <= i < j < v.len() ==> before(keys, #[trigger] v[i], #[trigger] v[j])
}

/// Whether every index of `v` points into `keys`.
pub open spec fn in_range(keys: Seq<Seq<char>>, v: Seq<usize>) -> bool {
    forall|i: int| 0 <= i < v.len() ==> #[trigger] v[i] < keys.len()
}

/// The key views of a list of keys.
pub open spec fn key_views(keys: Seq<Vec<char>>) -> Seq<Seq<char>> {
    keys.map_values(|k: Vec<char>| k@)
}

proof fn lemma_lt_from_trans(a: Seq<char>, b: Seq<char>, c: Seq<char>, i: int)
    requires
        0 <= i,
        lt_from(a, b, i),
        lt_from(b, c, i),
    ensures
        lt_from(a, c, i),
    decreases a.len() - i,
{
    if i < a.len() && i < b.len() && i < c.len() && a[i] == b[i] && b[i] == c[i] {
        lemma_lt_from_trans(a, b, c, i + 1);
    }
}

proof fn lemma_lt_from_total(a: Seq<char>, b: Seq<char>, i: int)
    requires
        0 <= i <= a.len(),
        i <= b.len(),
    ensures
        lt_from(a, b, i) || lt_from(b, a, i) || a.skip(i) =~= b.skip(i),
    decreases a.len() - i,
{
    if i < a.len() && i < b.len() && a[i] == b[i] {
        lemma_lt_from_total(a, b, i + 1);
        if a.skip(i + 1) =~= b.skip(i + 1) {
            assert(a.skip(i) =~= seq![a[i]] + a.skip(i + 1));
            assert(b.skip(i) =~= seq![b[i]] + b.skip(i + 1));
        }
    } else if i < a.len() && i < b.len() {
        assert((a[i] as int) != (b[i] as int));
    }
}

/// `before` is transitive and total: a total order on indices.
pub proof fn lemma_before_order(keys: Seq<Seq<char>>, x: usize, y: usize, z: usize)
    ensures
        before(keys, x, y) && before(keys, y, z) ==> before(keys, x, z),
        before(keys, x, y) || before(keys, y, x),
{
    if before(keys, x, y) && before(keys, y, z) {
        if chars_lt(keys[x as int], keys[y as int]) && chars_lt(keys[y as int], keys[z as int]) {
            lemma_lt_from_trans(keys[x as int], keys[y as int], keys[z as int], 0);
        }
    }
    if keys[x as int].len() <= keys[y as int].len() {
        lemma_lt_from_total(keys[x as int], keys[y as int], 0);
    } else {
        lemma_lt_from_total(keys[y as int], keys[x as int], 0);
    }
    assert(keys[x as int].skip(0) =~= keys[x as int]);
    assert(keys[y as int].skip(0) =~= keys[y as int]);
}

/// Whether `a` comes before `b` in the lexicographic order.
pub fn chars_less(a: &[char], b: &[char]) -> (r: bool)
    ensures
        r == chars_lt(a@, b@),
{
    let mut i: usize = 0;
    while i < a.len() && i < b.len() && a[i] == b[i]
        invariant
            i <= a@.len(),
            i <= b@.len(),
            chars_lt(a@, b@) == lt_from(a@, b@, i as int),
        decreases a@.len() - i,
    {
        i = i + 1;
    }
    if i >= a.len() {
        i < b.len()
    } else if i >= b.len() {
        false
    } else {
        a[i] < b[i]
    }
}

fn merge(keys: &Vec<Vec<char>>, a: &Vec<usize>, b: &Vec<usize>) -> (r: Vec<usize>)
    requires
        in_range(key_views(keys@), a@),
        in_range(key_views(keys@), b@),
        sorted_by(key_views(keys@), a@),
        sorted_by(key_views(keys@), b@),
    ensures
        in_range(key_views(keys@), r@),
        sorted_by(key_views(keys@), r@),
        r@.to_multiset() == a@.to_multiset().add(b@.to_multiset()),
{
    let ghost ks = key_views(keys@);
    let mut r: Vec<usize> = Vec::new();
    let mut i: usize = 0;
    let mut j: usize = 0;
    while i < a.len() || j < b.len()
        invariant
            ks == key_views(keys@),
            i <= a@.len(),
            j <= b@.len(),
            in_range(ks, a@),
            in_range(ks, b@),
            sorted_by(ks, a@),
            sorted_by(ks, b@),
            in_range(ks, r@),
            sorted_by(ks, r@),
            forall|p: int, q: int| 0 <= p < r@.len() && i <= q < a@.len() ==> before(ks, #[trigger] r@[p], #[trigger] a@[q]),
            forall|p: int, q: int| 0 <= p < r@.len() && j <= q < b@.len() ==> before(ks, #[trigger] r@[p], #[trigger] b@[q]),
            r@.to_multiset() == a@.take(i as int).to_multiset().add(b@.take(j as int).to_multiset()),
        decreases a@.len() + b@.len() - i - j,
    {
        let take_a = if i >= a.len() {
            false
        } else if j >= b.len() {
            true
        } else {
            let x = a[i];
            let y = b[j];
            let kx = &keys[x];
            let ky = &keys[y];
            chars_less(kx.as_slice(), ky.as_slice()) || (!chars_less(ky.as_slice(), kx.as_slice()) && x <= y)
        };
        let ghost old_r = r@;
        if take_a {
            let x = a[i];
            proof {
                assert(ks[x as int] == keys@[x as int]@);
                if j < b@.len() {
                    let y = b@[j as int];
                    assert(ks[y as int] == keys@[y as int]@);
                    if !chars_lt(ks[x as int], ks[y as int]) && ks[x as int] != ks[y as int] {
                        lemma_before_order(ks, y, x, y);
                    }
                    assert(before(ks, x, y));
                }
                assert forall|q: int| j <= q < b@.len() implies before(ks, x, #[trigger] b@[q]) by {
                    lemma_before_order(ks, x, b@[j as int], b@[q]);
                }
                assert(a@.take(i + 1) =~= a@.take(i as int).push(x));
            }
            r.push(x);
            i = i + 1;
            proof {
                assert forall|p: int, q: int| 0 <= p < r@.len() && i <= q < a@.len() implies before(ks, #[trigger] r@[p], #[trigger] a@[q]) by {
                    if p < old_r.len() {
                        assert(r@[p] == old_r[p]);
                    }
                }
                assert forall|p: int, q: int| 0 <= p < r@.len() && j <= q < b@.len() implies before(ks, #[trigger] r@[p], #[trigger] b@[q]) by {
                    if p < old_r.len() {
                        assert(r@[p] == old_r[p]);
                    }
                }
                assert forall|p: int, q: int| 0 <= p < q < r@.len() implies before(ks, #[trigger] r@[p], #[trigger] r@[q]) by {
                    if q == old_r.len() {
                        assert(r@[p] == old_r[p]);
                        assert(before(ks, old_r[p], a@[i - 1]));
                    } else {
                        assert(r@[p] == old_r[p]);
                        assert(r@[q] == old_r[q]);
                    }
                }
            }
        } else {
            let y = b[j];
            proof {
                assert(ks[y as int] == keys@[y as int]@);
                if i < a@.len() {
                    let x = a@[i as int];
                    assert(ks[x as int] == keys@[x as int]@);
                    lemma_before_order(ks, x, y, x);
                    assert(before(ks, y, x));
                }
                assert forall|q: int| i <= q < a@.len() implies before(ks, y, #[trigger] a@[q]) by {
                    lemma_before_order(ks, y, a@[i as int], a@[q]);
                }
                assert(b@.take(j + 1) =~= b@.take(j as int).push(y));
            }
            r.push(y);
            j = j + 1;
            proof {
                assert forall|p: int, q: int| 0 <= p < r@.len() && i <= q < a@.len() implies before(ks, #[trigger] r@[p], #[trigger] a@[q]) by {
                    if p < old_r.len() {
                        assert(r@[p] == old_r[p]);
                    }
                }
                assert forall|p: int, q: int| 0 <= p < r@.len() && j <= q < b@.len() implies before(ks, #[trigger] r@[p], #[trigger] b@[q]) by {
                    if p < old_r.len() {
                        assert(r@[p] == old_r[p]);
                    }
                }
                assert forall|p: int, q: int| 0 <= p < q < r@.len() implies before(ks, #[trigger] r@[p], #[trigger] r@[q]) by {
                    if q == old_r.len() {
                        assert(r@[p] == old_r[p]);
                        assert(before(ks, old_r[p], b@[j - 1]));
                    } else {
                        assert(r@[p] == old_r[p]);
                        assert(r@[q] == old_r[q]);
                    }
                }
            }
        }
    }
    assert(a@.take(a@.len() as int) =~= a@);
    assert(b@.take(b@.len() as int) =~= b@);
    r
}

/// Sorts the indices `v` by their keys, stably: the result holds the same
/// indices, ordered by key and, between equal keys, by index.
pub fn sort_indices(keys: &Vec<Vec<char>>, v: Vec<usize>) -> (r: Vec<usize>)
    requires
        in_range(key_views(keys@), v@),
    ensures
        in_range(key_views(keys@), r@),
        sorted_by(key_views(keys@), r@),
        r@.to_multiset() == v@.to_multiset(),
    decreases v@.len(),
{
    let n = v.len();
    if n <= 1 {
        return v;
    }
    let mid = n / 2;
    let mut left: Vec<usize> = Vec::new();
    let mut right: Vec<usize> = Vec::new();
    for i in 0..mid
        invariant
            mid <= n == v@.len(),
            left@ == v@.take(i as int),
    {
        left.push(v[i]);
        assert(left@ =~= v@.take(i + 1));
    }
    for i in mid..n
        invariant
            mid <= n == v@.len(),
            right@ == v@.subrange(mid as int, i as int),
    {
        right.push(v[i]);
        assert(right@ =~= v@.subrange(mid as int, i + 1));
    }
    proof {
        assert(v@ =~= left@ + right@);
        vstd::seq_lib::lemma_multiset_commutative(left@, right@);
    }
    let sl = sort_indices(keys, left);
    let sr = sort_indices(keys, right);
    merge(keys, &sl, &sr)
}

/// The indices `0..n`.
pub open spec fn identity(n: nat) -> Seq<usize> {
    Seq::new(n, |i: int| i as usize)
}

/// The indices of `keys`, stably sorted by key.
pub fn sorted_order(keys: &Vec<Vec<char>>) -> (r: Vec<usize>)
    ensures
        in_range(key_views(keys@), r@),
        sorted_by(key_views(keys@), r@),
        r@.to_multiset() == identity(keys@.len()).to_multiset(),
{
    let n = keys.len();
    let mut v: Vec<usize> = Vec::new();
    for i in 0..n
        invariant
            n == keys@.len(),
            v@ == identity(i as nat),
    {
        v.push(i);
        assert(v@ =~= identity((i + 1) as nat));
    }
    sort_indices(keys, v)
}

} // verus!
