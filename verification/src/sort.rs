use vstd::prelude::*;

verus! {

/// Whether the keys of `s` never decrease.
pub open spec fn sorted<T>(s: Seq<T>, key: spec_fn(T) -> int) -> bool {
    forall|i: int, j: int| 0 <= i < j < s.len() ==> key(s[i]) <= key(s[j])
}

/// The place in `s` behind the last element whose key is not above that of
/// `x`.
pub open spec fn upper<T>(s: Seq<T>, x: T, key: spec_fn(T) -> int) -> int
    decreases s.len(),
{
    if s.len() == 0 {
        0
    } else if key(s.last()) <= key(x) {
        s.len() as int
    } else {
        upper(s.drop_last(), x, key)
    }
}

/// `s` with `x` put in behind the elements whose keys are not above its own.
pub open spec fn insert_sorted<T>(s: Seq<T>, x: T, key: spec_fn(T) -> int) -> Seq<T> {
    s.insert(upper(s, x, key), x)
}

/// `s` in the order of its keys; elements with equal keys keep the order
/// they had in `s`.
pub open spec fn stable_sort<T>(s: Seq<T>, key: spec_fn(T) -> int) -> Seq<T>
    decreases s.len(),
{
    if s.len() == 0 {
        s
    } else {
        insert_sorted(stable_sort(s.drop_last(), key), s.last(), key)
    }
}

pub proof fn lemma_upper<T>(s: Seq<T>, x: T, key: spec_fn(T) -> int)
    ensures
        0 <= upper(s, x, key) <= s.len(),
        forall|j: int| upper(s, x, key) <= j < s.len() ==> key(s[j]) > key(x),
        upper(s, x, key) > 0 ==> key(s[upper(s, x, key) - 1]) <= key(x),
    decreases s.len(),
{
    if s.len() > 0 && key(s.last()) > key(x) {
        let front = s.drop_last();
        lemma_upper(front, x, key);
        assert forall|j: int| upper(s, x, key) <= j < s.len() implies key(s[j]) > key(x) by {
            if j < front.len() {
                assert(front[j] == s[j]);
            }
        }
        if upper(s, x, key) > 0 {
            assert(front[upper(s, x, key) - 1] == s[upper(s, x, key) - 1]);
        }
    }
}

/// Putting an element into a sorted sequence leaves it sorted, and adds
/// that element and nothing else.
pub proof fn lemma_insert_sorted<T>(s: Seq<T>, x: T, key: spec_fn(T) -> int)
    ensures
        sorted(s, key) ==> sorted(insert_sorted(s, x, key), key),
        insert_sorted(s, x, key).len() == s.len() + 1,
        insert_sorted(s, x, key).to_multiset() == s.to_multiset().insert(x),
        forall|y: T| insert_sorted(s, x, key).contains(y) <==> (y == x || s.contains(y)),
{
    lemma_upper(s, x, key);
    let p = upper(s, x, key);
    let out = insert_sorted(s, x, key);
    vstd::seq_lib::to_multiset_insert(s, p, x);
    assert forall|y: T| out.contains(y) <==> (y == x || s.contains(y)) by {
        if out.contains(y) {
            let w = choose|w: int| 0 <= w < out.len() && out[w] == y;
            if w < p {
                assert(s[w] == y);
            } else if w > p {
                assert(s[w - 1] == y);
            }
        }
        if s.contains(y) {
            let w = choose|w: int| 0 <= w < s.len() && s[w] == y;
            if w < p {
                assert(out[w] == y);
            } else {
                assert(out[w + 1] == y);
            }
        }
        assert(out[p] == x);
    }
    if sorted(s, key) {
        assert forall|i: int, j: int| 0 <= i < j < out.len() implies key(out[i]) <= key(out[j]) by {
            let si = if i < p { i } else { i - 1 };
            let sj = if j < p { j } else { j - 1 };
            if i != p {
                assert(out[i] == s[si]);
            }
            if j != p {
                assert(out[j] == s[sj]);
            }
            if i < p && p > 0 {
                assert(key(s[si]) <= key(s[p - 1]) || si == p - 1);
            }
        }
    }
}

/// Sorting gives a sorted sequence of the same elements.
pub proof fn lemma_stable_sort<T>(s: Seq<T>, key: spec_fn(T) -> int)
    ensures
        sorted(stable_sort(s, key), key),
        stable_sort(s, key).len() == s.len(),
        stable_sort(s, key).to_multiset() == s.to_multiset(),
        forall|y: T| stable_sort(s, key).contains(y) <==> s.contains(y),
    decreases s.len(),
{
    if s.len() > 0 {
        let front = s.drop_last();
        lemma_stable_sort(front, key);
        lemma_insert_sorted(stable_sort(front, key), s.last(), key);
        assert(s =~= front.push(s.last()));
        vstd::seq_lib::to_multiset_build(front, s.last());
        assert forall|y: T| stable_sort(s, key).contains(y) <==> s.contains(y) by {
            if s.contains(y) {
                let w = choose|w: int| 0 <= w < s.len() && s[w] == y;
                if w < front.len() {
                    assert(front[w] == y);
                }
            }
            if front.contains(y) {
                let w = choose|w: int| 0 <= w < front.len() && front[w] == y;
                assert(s[w] == y);
            }
            assert(s[s.len() - 1] == s.last());
        }
    }
}

/// Sorts `v` by `key`, which `leq` compares; elements with equal keys keep
/// their order.
pub fn sort_by_key<T, F: Fn(&T, &T) -> bool>(v: Vec<T>, leq: F, Ghost(key): Ghost<spec_fn(T) -> int>) -> (r:
    Vec<T>)
    requires
        forall|a: &T, b: &T| leq.requires((a, b)),
        forall|a: &T, b: &T, le: bool| leq.ensures((a, b), le) ==> le == (key(*a) <= key(*b)),
    ensures
        r@ == stable_sort(v@, key),
{
    let n: usize = v.len();
    let ghost whole = v@;
    let mut rest = v;
    let mut out: Vec<T> = Vec::new();
    let mut done: usize = 0;
    proof {
        assert(whole.skip(0) =~= whole);
        assert(whole.take(0) =~= Seq::<T>::empty());
    }
    while rest.len() > 0
        invariant
            done + rest@.len() == n,
            rest@ == whole.skip(done as int),
            out@ == stable_sort(whole.take(done as int), key),
            n == whole.len(),
            forall|a: &T, b: &T| leq.requires((a, b)),
            forall|a: &T, b: &T, le: bool| leq.ensures((a, b), le) ==> le == (key(*a) <= key(*b)),
        decreases rest@.len(),
    {
        let x = rest.remove(0);
        let mut j: usize = out.len();
        proof {
            lemma_stable_sort(whole.take(done as int), key);
            assert(out@.take(j as int) =~= out@);
        }
        while j > 0 && !leq(&out[j - 1], &x)
            invariant
                j <= out@.len(),
                upper(out@, x, key) == upper(out@.take(j as int), x, key),
                forall|a: &T, b: &T| leq.requires((a, b)),
                forall|a: &T, b: &T, le: bool| leq.ensures((a, b), le) ==> le == (key(*a) <= key(*b)),
            decreases j,
        {
            proof {
                assert(out@.take(j as int).drop_last() =~= out@.take(j - 1));
            }
            j -= 1;
        }
        proof {
            assert(out@.take(out@.len() as int) =~= out@);
            if j > 0 {
                assert(out@.take(j as int).last() == out@[j - 1]);
            }
            assert(upper(out@, x, key) == j);
            let next = whole.take(done + 1);
            assert(next.drop_last() =~= whole.take(done as int));
            assert(next.last() == x);
        }
        out.insert(j, x);
        done += 1;
        proof {
            assert(rest@ =~= whole.skip(done as int));
        }
    }
    proof {
        assert(whole.take(done as int) =~= whole);
    }
    out
}

} // verus!
