use vstd::prelude::*;
use vstd::multiset::Multiset;
use vstd::relations::{sorted_by, strongly_connected, transitive};

verus! {

broadcast use {
    vstd::seq_lib::group_to_multiset_ensures,
    vstd::multiset::group_multiset_axioms,
    vstd::seq_lib::lemma_multiset_commutative,
};

/// Stable merge of two sequences: on ties (`le(a[0], b[0])`) the element of `a` comes first.
pub open spec fn merge_by<A>(a: Seq<A>, b: Seq<A>, le: spec_fn(A, A) -> bool) -> Seq<A>
    decreases a.len() + b.len(),
{
    if a.len() == 0 {
        b
    } else if b.len() == 0 {
        a
    } else if le(a[0], b[0]) {
        seq![a[0]] + merge_by(a.drop_first(), b, le)
    } else {
        seq![b[0]] + merge_by(a, b.drop_first(), le)
    }
}

/// Stable merge-sort of a sequence with respect to `le`.
pub open spec fn sort_by_le<A>(s: Seq<A>, le: spec_fn(A, A) -> bool) -> Seq<A>
    decreases s.len(),
{
    if s.len() <= 1 {
        s
    } else {
        let m = s.len() / 2;
        merge_by(sort_by_le(s.take(m as int), le), sort_by_le(s.skip(m as int), le), le)
    }
}

/// Merging keeps every element: the merge is a permutation of the two inputs put together.
pub proof fn lemma_merge_by_multiset<A>(a: Seq<A>, b: Seq<A>, le: spec_fn(A, A) -> bool)
    ensures
        merge_by(a, b, le).len() == a.len() + b.len(),
        merge_by(a, b, le).to_multiset() =~= a.to_multiset().add(b.to_multiset()),
    decreases a.len() + b.len(),
{
    if a.len() == 0 {
        assert(a.to_multiset() =~= Multiset::empty());
    } else if b.len() == 0 {
        assert(b.to_multiset() =~= Multiset::empty());
    } else if le(a[0], b[0]) {
        lemma_merge_by_multiset(a.drop_first(), b, le);
        assert(a =~= seq![a[0]] + a.drop_first());
        let rest = merge_by(a.drop_first(), b, le);
        assert((seq![a[0]] + rest).to_multiset() =~= seq![a[0]].to_multiset().add(rest.to_multiset()));
        assert((seq![a[0]] + a.drop_first()).to_multiset() =~= seq![a[0]].to_multiset().add(
            a.drop_first().to_multiset(),
        ));
    } else {
        lemma_merge_by_multiset(a, b.drop_first(), le);
        assert(b =~= seq![b[0]] + b.drop_first());
        let rest = merge_by(a, b.drop_first(), le);
        assert((seq![b[0]] + rest).to_multiset() =~= seq![b[0]].to_multiset().add(rest.to_multiset()));
        assert((seq![b[0]] + b.drop_first()).to_multiset() =~= seq![b[0]].to_multiset().add(
            b.drop_first().to_multiset(),
        ));
    }
}

/// Sorting is a permutation: it keeps every element, as often as it occurs.
pub proof fn lemma_sort_by_le_multiset<A>(s: Seq<A>, le: spec_fn(A, A) -> bool)
    ensures
        sort_by_le(s, le).len() == s.len(),
        sort_by_le(s, le).to_multiset() =~= s.to_multiset(),
    decreases s.len(),
{
    if s.len() > 1 {
        let m = s.len() / 2;
        lemma_sort_by_le_multiset(s.take(m as int), le);
        lemma_sort_by_le_multiset(s.skip(m as int), le);
        lemma_merge_by_multiset(sort_by_le(s.take(m as int), le), sort_by_le(s.skip(m as int), le), le);
        assert(s =~= s.take(m as int) + s.skip(m as int));
    }
}

proof fn lemma_in_multiset_add<A>(x: A, a: Seq<A>, b: Seq<A>, r: Seq<A>)
    requires
        r.to_multiset() =~= a.to_multiset().add(b.to_multiset()),
        r.contains(x),
    ensures
        a.contains(x) || b.contains(x),
{
    assert(r.to_multiset().count(x) > 0);
}

/// Merging two sorted sequences gives a sorted sequence.
pub proof fn lemma_merge_by_sorted<A>(a: Seq<A>, b: Seq<A>, le: spec_fn(A, A) -> bool)
    requires
        transitive(le),
        strongly_connected(le),
        sorted_by(a, le),
        sorted_by(b, le),
    ensures
        sorted_by(merge_by(a, b, le), le),
    decreases a.len() + b.len(),
{
    if a.len() == 0 || b.len() == 0 {
    } else {
        let (h, rest, ra, rb) = if le(a[0], b[0]) {
            (a[0], merge_by(a.drop_first(), b, le), a.drop_first(), b)
        } else {
            (b[0], merge_by(a, b.drop_first(), le), a, b.drop_first())
        };
        if le(a[0], b[0]) {
            lemma_merge_by_sorted(a.drop_first(), b, le);
        } else {
            lemma_merge_by_sorted(a, b.drop_first(), le);
        }
        lemma_merge_by_multiset(ra, rb, le);
        assert forall|j: int| 0 <= j < rest.len() implies #[trigger] le(h, rest[j]) by {
            let x = rest[j];
            assert(rest.contains(x));
            lemma_in_multiset_add(x, ra, rb, rest);
            assert(le(a[0], a[0]) || le(a[0], a[0]));
            assert(le(b[0], b[0]) || le(b[0], b[0]));
            assert(le(a[0], b[0]) || le(b[0], a[0]));
            if a.contains(x) {
                let k = choose|k: int| 0 <= k < a.len() && a[k] == x;
                if k > 0 {
                    assert(le(a[0], a[k]));
                }
            }
            if b.contains(x) {
                let k = choose|k: int| 0 <= k < b.len() && b[k] == x;
                if k > 0 {
                    assert(le(b[0], b[k]));
                }
            }
            if ra.contains(x) && ra != a {
                let k = choose|k: int| 0 <= k < ra.len() && ra[k] == x;
                assert(a[k + 1] == x);
            }
            if rb.contains(x) && rb != b {
                let k = choose|k: int| 0 <= k < rb.len() && rb[k] == x;
                assert(b[k + 1] == x);
            }
        }
        let r = merge_by(a, b, le);
        assert(r =~= seq![h] + rest);
        assert forall|i: int, j: int| 0 <= i < j < r.len() implies #[trigger] le(r[i], r[j]) by {
            if i == 0 {
                assert(r[j] == rest[j - 1]);
            } else {
                assert(r[i] == rest[i - 1]);
                assert(r[j] == rest[j - 1]);
            }
        }
    }
}

/// Sorting yields a sorted sequence.
pub proof fn lemma_sort_by_le_sorted<A>(s: Seq<A>, le: spec_fn(A, A) -> bool)
    requires
        transitive(le),
        strongly_connected(le),
    ensures
        sorted_by(sort_by_le(s, le), le),
    decreases s.len(),
{
    if s.len() > 1 {
        let m = s.len() / 2;
        lemma_sort_by_le_sorted(s.take(m as int), le);
        lemma_sort_by_le_sorted(s.skip(m as int), le);
        lemma_merge_by_sorted(sort_by_le(s.take(m as int), le), sort_by_le(s.skip(m as int), le), le);
    }
}

proof fn lemma_merge_step_left<A>(a: Seq<A>, b: Seq<A>, i: int, j: int, le: spec_fn(A, A) -> bool)
    requires
        0 <= i < a.len(),
        0 <= j < b.len(),
        le(a[i], b[j]),
    ensures
        merge_by(a.skip(i), b.skip(j), le) == seq![a[i]] + merge_by(a.skip(i + 1), b.skip(j), le),
{
    assert(a.skip(i).drop_first() =~= a.skip(i + 1));
}

proof fn lemma_merge_step_right<A>(a: Seq<A>, b: Seq<A>, i: int, j: int, le: spec_fn(A, A) -> bool)
    requires
        0 <= i < a.len(),
        0 <= j < b.len(),
        !le(a[i], b[j]),
    ensures
        merge_by(a.skip(i), b.skip(j), le) == seq![b[j]] + merge_by(a.skip(i), b.skip(j + 1), le),
{
    assert(b.skip(j).drop_first() =~= b.skip(j + 1));
}

fn merge_vecs<T: Copy, F: Fn(T, T) -> bool>(
    a: &Vec<T>,
    b: &Vec<T>,
    le: &F,
    Ghost(sle): Ghost<spec_fn(T, T) -> bool>,
) -> (r: Vec<T>)
    requires
        forall|x: T, y: T| #[trigger] le.requires((x, y)),
        forall|x: T, y: T, o: bool| le.ensures((x, y), o) ==> o == sle(x, y),
    ensures
        r@ == merge_by(a@, b@, sle),
{
    let mut r: Vec<T> = Vec::new();
    let mut i: usize = 0;
    let mut j: usize = 0;
    assert(a@.skip(0) =~= a@);
    assert(b@.skip(0) =~= b@);
    while i < a.len() && j < b.len()
        invariant
            i <= a.len(),
            j <= b.len(),
            forall|x: T, y: T| #[trigger] le.requires((x, y)),
            forall|x: T, y: T, o: bool| le.ensures((x, y), o) ==> o == sle(x, y),
            r@ + merge_by(a@.skip(i as int), b@.skip(j as int), sle) == merge_by(a@, b@, sle),
        decreases a.len() + b.len() - i - j,
    {
        let x = a[i];
        let y = b[j];
        if le(x, y) {
            proof {
                lemma_merge_step_left(a@, b@, i as int, j as int, sle);
            }
            r.push(x);
            i = i + 1;
        } else {
            proof {
                lemma_merge_step_right(a@, b@, i as int, j as int, sle);
            }
            r.push(y);
            j = j + 1;
        }
        assert(r@ + merge_by(a@.skip(i as int), b@.skip(j as int), sle) =~= merge_by(a@, b@, sle));
    }
    if i < a.len() {
        assert(b@.skip(j as int).len() == 0);
        assert(merge_by(a@.skip(i as int), b@.skip(j as int), sle) == a@.skip(i as int));
        while i < a.len()
            invariant
                i <= a.len(),
                r@ + a@.skip(i as int) == merge_by(a@, b@, sle),
            decreases a.len() - i,
        {
            r.push(a[i]);
            i = i + 1;
            assert(r@ + a@.skip(i as int) =~= merge_by(a@, b@, sle));
        }
        assert(a@.skip(i as int).len() == 0);
        assert(r@ =~= merge_by(a@, b@, sle));
    } else {
        assert(a@.skip(i as int).len() == 0);
        assert(merge_by(a@.skip(i as int), b@.skip(j as int), sle) == b@.skip(j as int));
        while j < b.len()
            invariant
                j <= b.len(),
                r@ + b@.skip(j as int) == merge_by(a@, b@, sle),
            decreases b.len() - j,
        {
            r.push(b[j]);
            j = j + 1;
            assert(r@ + b@.skip(j as int) =~= merge_by(a@, b@, sle));
        }
        assert(b@.skip(j as int).len() == 0);
        assert(r@ =~= merge_by(a@, b@, sle));
    }
    r
}

/// Stable merge-sort of `v` by the comparison `le`, whose results `sle` states.
pub(crate) fn merge_sort<T: Copy, F: Fn(T, T) -> bool>(
    v: &Vec<T>,
    le: &F,
    Ghost(sle): Ghost<spec_fn(T, T) -> bool>,
) -> (r: Vec<T>)
    requires
        forall|x: T, y: T| #[trigger] le.requires((x, y)),
        forall|x: T, y: T, o: bool| le.ensures((x, y), o) ==> o == sle(x, y),
    ensures
        r@ == sort_by_le(v@, sle),
    decreases v.len(),
{
    let n = v.len();
    if n <= 1 {
        let mut r: Vec<T> = Vec::new();
        if n == 1 {
            r.push(v[0]);
        }
        assert(r@ =~= v@);
        return r;
    }
    let m = n / 2;
    let mut left: Vec<T> = Vec::new();
    let mut right: Vec<T> = Vec::new();
    let mut k: usize = 0;
    while k < n
        invariant
            n == v.len(),
            m <= n,
            k <= n,
            k <= m ==> left@ == v@.take(k as int) && right@.len() == 0,
            k > m ==> left@ == v@.take(m as int) && right@ == v@.subrange(m as int, k as int),
        decreases n - k,
    {
        if k < m {
            left.push(v[k]);
            assert(left@ =~= v@.take(k + 1));
        } else {
            right.push(v[k]);
            assert(right@ =~= v@.subrange(m as int, k + 1));
        }
        k = k + 1;
    }
    assert(right@ =~= v@.skip(m as int));
    let sl = merge_sort(&left, le, Ghost(sle));
    let sr = merge_sort(&right, le, Ghost(sle));
    merge_vecs(&sl, &sr, le, Ghost(sle))
}

/// Sequences with the same multiset have the same elements.
/// Sequences with the same elements keep having the same elements when every element is mapped.
pub proof fn lemma_map_same_elements<A, B>(a: Seq<A>, b: Seq<A>, f: spec_fn(A) -> B)
    requires
        a.to_multiset() == b.to_multiset(),
    ensures
        a.map_values(f).to_multiset() == b.map_values(f).to_multiset(),
    decreases a.len(),
{
    broadcast use {vstd::seq_lib::group_to_multiset_ensures, vstd::multiset::group_multiset_axioms};

    assert(a.len() == a.to_multiset().len());
    assert(b.len() == b.to_multiset().len());
    if a.len() == 0 {
        assert(a.map_values(f) =~= Seq::<B>::empty());
        assert(b.map_values(f) =~= Seq::<B>::empty());
    } else {
        let x = a.last();
        let a1 = a.drop_last();
        assert(a.contains(x)) by {
            assert(a[a.len() - 1] == x);
        }
        assert(a.to_multiset().count(x) > 0);
        assert(b.contains(x));
        let i = choose|i: int| 0 <= i < b.len() && b[i] == x;
        let b1 = b.remove(i);
        assert(a1 =~= a.remove(a.len() - 1));
        assert(a1.to_multiset() == a.to_multiset().remove(x));
        assert(b1.to_multiset() == b.to_multiset().remove(x));
        lemma_map_same_elements(a1, b1, f);
        assert(a.map_values(f) =~= a1.map_values(f).push(f(x)));
        assert(b1.map_values(f) =~= b.map_values(f).remove(i));
        assert(b.map_values(f)[i] == f(x));
        assert(b1.map_values(f).to_multiset() == b.map_values(f).to_multiset().remove(f(x)));
        assert(b.map_values(f).contains(f(x)));
        assert(b.map_values(f).to_multiset().count(f(x)) > 0);
        assert(a.map_values(f).to_multiset() =~= b.map_values(f).to_multiset());
    }
}

pub proof fn lemma_same_elements<A>(s: Seq<A>, t: Seq<A>, x: A)
    requires
        s.to_multiset() == t.to_multiset(),
        s.contains(x),
    ensures
        t.contains(x),
{
    assert(s.to_multiset().count(x) > 0);
    assert(t.to_multiset().count(x) > 0);
}

/// An element at two positions is counted at least twice.
pub proof fn lemma_twice_counted<A>(s: Seq<A>, i: int, j: int)
    requires
        0 <= i < s.len(),
        0 <= j < s.len(),
        i != j,
        s[i] == s[j],
    ensures
        s.to_multiset().count(s[i]) >= 2,
{
    let x = s[i];
    let r = s.remove(i);
    assert(r.to_multiset() =~= s.to_multiset().remove(x));
    let j2 = if j < i { j } else { j - 1 };
    assert(r[j2] == x);
    assert(r.contains(x));
    assert(r.to_multiset().count(x) > 0);
}

/// An element counted at least twice occurs at two positions.
pub proof fn lemma_counted_twice<A>(s: Seq<A>, x: A) -> (r: (int, int))
    requires
        s.to_multiset().count(x) >= 2,
    ensures
        0 <= r.0 < r.1 < s.len(),
        s[r.0] == x,
        s[r.1] == x,
{
    assert(s.contains(x));
    let p = choose|p: int| 0 <= p < s.len() && s[p] == x;
    let t = s.remove(p);
    assert(t.to_multiset() =~= s.to_multiset().remove(x));
    assert(t.to_multiset().count(x) > 0);
    assert(t.contains(x));
    let q = choose|q: int| 0 <= q < t.len() && t[q] == x;
    let q2 = if q < p { q } else { q + 1 };
    assert(s[q2] == x);
    if p < q2 {
        (p, q2)
    } else {
        (q2, p)
    }
}

} // verus!
