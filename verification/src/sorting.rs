//! A stable sort, specified as repeated sorted insertion. Stability is
//! captured exactly: for every key, the subsequence of elements carrying
//! that key is preserved, so elements with equal keys keep their original
//! relative order.

use vstd::prelude::*;

verus! {

/// Inserts `x` into `s` behind every element whose key is at most
/// `key(x)`: on a sorted sequence this keeps it sorted and places `x`
/// after existing elements with an equal key.
pub open spec fn sorted_insert<T>(s: Seq<T>, x: T, key: spec_fn(T) -> int) -> Seq<T>
    decreases s.len(),
{
    if s.len() == 0 {
        seq![x]
    } else if key(s.last()) > key(x) {
        sorted_insert(s.drop_last(), x, key).push(s.last())
    } else {
        s.push(x)
    }
}

/// The stable sort of `s` by `key`: each element inserted in turn.
pub open spec fn stable_sorted<T>(s: Seq<T>, key: spec_fn(T) -> int) -> Seq<T>
    decreases s.len(),
{
    if s.len() == 0 {
        Seq::empty()
    } else {
        sorted_insert(stable_sorted(s.drop_last(), key), s.last(), key)
    }
}

/// Whether `s` is sorted, non-strictly, by `key`.
pub open spec fn sorted_by_key<T>(s: Seq<T>, key: spec_fn(T) -> int) -> bool {
    forall|i: int, j: int| 0 <= i <= j < s.len() ==> key(s[i]) <= key(s[j])
}

/// Sorted insertion grows the sequence by exactly the inserted element.
pub proof fn lemma_sorted_insert_len<T>(s: Seq<T>, x: T, key: spec_fn(T) -> int)
    ensures
        sorted_insert(s, x, key).len() == s.len() + 1,
    decreases s.len(),
{
    if s.len() > 0 && key(s.last()) > key(x) {
        lemma_sorted_insert_len(s.drop_last(), x, key);
    }
}

/// The stable sort keeps the length of the sequence.
pub proof fn lemma_stable_sorted_len<T>(s: Seq<T>, key: spec_fn(T) -> int)
    ensures
        stable_sorted(s, key).len() == s.len(),
    decreases s.len(),
{
    if s.len() > 0 {
        lemma_stable_sorted_len(s.drop_last(), key);
        lemma_sorted_insert_len(stable_sorted(s.drop_last(), key), s.last(), key);
    }
}

/// Inserting into a sorted sequence yields a sorted sequence.
pub proof fn lemma_sorted_insert_sorted<T>(s: Seq<T>, x: T, key: spec_fn(T) -> int)
    requires
        sorted_by_key(s, key),
    ensures
        sorted_by_key(sorted_insert(s, x, key), key),
    decreases s.len(),
{
    if s.len() == 0 {
    } else if key(s.last()) > key(x) {
        assert(sorted_by_key(s.drop_last(), key));
        lemma_sorted_insert_sorted(s.drop_last(), x, key);
        lemma_sorted_insert_len(s.drop_last(), x, key);
        let r = sorted_insert(s.drop_last(), x, key);
        lemma_sorted_insert_elems(s.drop_last(), x, key);
        assert forall|i: int, j: int|
            0 <= i <= j < r.push(s.last()).len() implies key(r.push(s.last())[i]) <= key(
            r.push(s.last())[j],
        ) by {
            if j < r.len() {
            } else {
                if i < r.len() {
                    assert(r.contains(r[i]));
                }
            }
        }
    } else {
    }
}

/// Every element of a sorted insertion is the inserted element or one of
/// the originals.
proof fn lemma_sorted_insert_elems<T>(s: Seq<T>, x: T, key: spec_fn(T) -> int)
    ensures
        forall|e: T|
            #[trigger] sorted_insert(s, x, key).contains(e) ==> e == x || s.contains(e),
        forall|e: T|
            #[trigger] sorted_insert(s, x, key).contains(e) && e != x ==> key(e) <= key(x)
                || exists|m: int|
                0 <= m < s.len() && s[m] == e && key(s[m]) > key(x),
    decreases s.len(),
{
    lemma_sorted_insert_len(s, x, key);
    if s.len() == 0 {
        assert forall|e: T| #[trigger] sorted_insert(s, x, key).contains(e) implies e
            == x by {
            let r = sorted_insert(s, x, key);
            let m = choose|m: int| 0 <= m < r.len() && r[m] == e;
            assert(m == 0);
        }
    } else if key(s.last()) > key(x) {
        lemma_sorted_insert_elems(s.drop_last(), x, key);
        let r0 = sorted_insert(s.drop_last(), x, key);
        let r = r0.push(s.last());
        lemma_sorted_insert_len(s.drop_last(), x, key);
        assert forall|e: T| #[trigger] r.contains(e) implies e == x || s.contains(e) by {
            let m = choose|m: int| 0 <= m < r.len() && r[m] == e;
            if m < r0.len() {
                assert(r0.contains(e));
                if e != x {
                    let m2 = choose|m2: int|
                        0 <= m2 < s.drop_last().len() && s.drop_last()[m2] == e;
                    assert(s[m2] == e);
                }
            } else {
                assert(e == s.last());
                assert(s[s.len() - 1] == e);
            }
        }
        assert forall|e: T| #[trigger] r.contains(e) && e != x implies key(e) <= key(x)
            || exists|m: int| 0 <= m < s.len() && s[m] == e && key(s[m]) > key(x) by {
            let m = choose|m: int| 0 <= m < r.len() && r[m] == e;
            if m < r0.len() {
                assert(r0.contains(e));
                if key(e) > key(x) {
                    let m2 = choose|m2: int|
                        0 <= m2 < s.drop_last().len() && s.drop_last()[m2] == e && key(
                            s.drop_last()[m2],
                        ) > key(x);
                    assert(s[m2] == e && key(s[m2]) > key(x));
                }
            } else {
                assert(e == s.last());
                assert(s[s.len() - 1] == e && key(s[s.len() - 1]) > key(x));
            }
        }
    } else {
        assert forall|e: T| #[trigger] s.push(x).contains(e) implies e == x || s.contains(
            e,
        ) by {
            let m = choose|m: int| 0 <= m < s.push(x).len() && s.push(x)[m] == e;
            if m < s.len() {
                assert(s[m] == e);
            }
        }
        assert forall|e: T| #[trigger] s.push(x).contains(e) && e != x implies key(e)
            <= key(x) || exists|m: int| 0 <= m < s.len() && s[m] == e && key(s[m]) > key(
            x,
        ) by {
            let m = choose|m: int| 0 <= m < s.push(x).len() && s.push(x)[m] == e;
            if m < s.len() {
                if key(e) > key(x) {
                    assert(0 <= m < s.len() && s[m] == e && key(s[m]) > key(x));
                }
            }
        }
    }
}

/// The stable sort of a sequence is sorted.
pub proof fn lemma_stable_sorted_sorted<T>(s: Seq<T>, key: spec_fn(T) -> int)
    ensures
        sorted_by_key(stable_sorted(s, key), key),
    decreases s.len(),
{
    if s.len() > 0 {
        lemma_stable_sorted_sorted(s.drop_last(), key);
        lemma_sorted_insert_sorted(stable_sorted(s.drop_last(), key), s.last(), key);
    }
}

/// Sorted insertion and filtering by key commute: for the inserted
/// element's own key the element is appended behind its equals, and for
/// every other key the filtered subsequence is untouched.
pub proof fn lemma_sorted_insert_filter<T>(s: Seq<T>, x: T, key: spec_fn(T) -> int, k: int)
    ensures
        key(x) == k ==> sorted_insert(s, x, key).filter(|t: T| key(t) == k) == s.filter(
            |t: T| key(t) == k,
        ).push(x),
        key(x) != k ==> sorted_insert(s, x, key).filter(|t: T| key(t) == k) == s.filter(
            |t: T| key(t) == k,
        ),
    decreases s.len(),
{
    reveal(Seq::filter);
    let pk = |t: T| key(t) == k;
    if s.len() == 0 {
        assert(seq![x].drop_last() =~= Seq::<T>::empty());
        assert(seq![x].last() == x);
        assert(Seq::<T>::empty().filter(pk) =~= Seq::<T>::empty());
    } else if key(s.last()) > key(x) {
        lemma_sorted_insert_filter(s.drop_last(), x, key, k);
        let r0 = sorted_insert(s.drop_last(), x, key);
        let r = r0.push(s.last());
        assert(r.drop_last() =~= r0);
        assert(r.last() == s.last());
    } else {
        assert(s.push(x).drop_last() =~= s);
        assert(s.push(x).last() == x);
    }
}

/// Stability of the sort: for every key, the subsequence of elements
/// carrying that key is exactly the input's subsequence with that key, in
/// the original order.
pub proof fn lemma_stable_sorted_filter<T>(s: Seq<T>, key: spec_fn(T) -> int, k: int)
    ensures
        stable_sorted(s, key).filter(|t: T| key(t) == k) == s.filter(|t: T| key(t) == k),
    decreases s.len(),
{
    reveal(Seq::filter);
    let pk = |t: T| key(t) == k;
    if s.len() == 0 {
        assert(stable_sorted(s, key).filter(pk) =~= s.filter(pk));
    } else {
        lemma_stable_sorted_filter(s.drop_last(), key, k);
        lemma_sorted_insert_filter(stable_sorted(s.drop_last(), key), s.last(), key, k);
    }
}

/// Every element of the stable sort is an element of the input.
pub proof fn lemma_stable_sorted_membership<T>(s: Seq<T>, key: spec_fn(T) -> int)
    ensures
        forall|e: T| #[trigger] stable_sorted(s, key).contains(e) ==> s.contains(e),
    decreases s.len(),
{
    if s.len() > 0 {
        lemma_stable_sorted_membership(s.drop_last(), key);
        lemma_sorted_insert_elems(stable_sorted(s.drop_last(), key), s.last(), key);
        assert forall|e: T| #[trigger] stable_sorted(s, key).contains(e) implies s.contains(
            e,
        ) by {
            if e == s.last() {
                assert(s[s.len() - 1] == e);
            } else {
                assert(stable_sorted(s.drop_last(), key).contains(e));
                let m = choose|m: int|
                    0 <= m < s.drop_last().len() && s.drop_last()[m] == e;
                assert(s[m] == e);
            }
        }
    }
}

/// Where the elements behind position `j` all have keys above `key(x)`
/// and the one just before does not, sorted insertion is insertion at `j`.
/// This pins the position that the executable sorts compute.
pub proof fn lemma_sorted_insert_at<T>(s: Seq<T>, x: T, key: spec_fn(T) -> int, j: int)
    requires
        0 <= j <= s.len(),
        forall|m: int| j <= m < s.len() ==> key(s[m]) > key(x),
        j > 0 ==> key(s[j - 1]) <= key(x),
    ensures
        sorted_insert(s, x, key) == s.insert(j, x),
    decreases s.len() - j,
{
    if j == s.len() {
        if s.len() == 0 {
            assert(sorted_insert(s, x, key) =~= s.insert(j, x));
        } else {
            assert(key(s.last()) <= key(x));
            assert(s.push(x) =~= s.insert(j, x));
        }
    } else {
        assert(key(s.last()) > key(x));
        lemma_sorted_insert_at(s.drop_last(), x, key, j);
        assert(sorted_insert(s, x, key) == sorted_insert(s.drop_last(), x, key).push(
            s.last(),
        ));
        assert(s.drop_last().insert(j, x).push(s.last()) =~= s.insert(j, x));
    }
}

} // verus!
