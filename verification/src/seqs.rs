use vstd::prelude::*;

verus! {

/// The elements of `s` that satisfy `f`, in their order.
pub open spec fn keep<T>(s: Seq<T>, f: spec_fn(T) -> bool) -> Seq<T>
    decreases s.len(),
{
    if s.len() == 0 {
        s
    } else if f(s.last()) {
        keep(s.drop_last(), f).push(s.last())
    } else {
        keep(s.drop_last(), f)
    }
}

/// What `keep` keeps: elements of `s` that satisfy `f`, all of them, and no
/// more of them than `s` has.
pub proof fn lemma_keep<T>(s: Seq<T>, f: spec_fn(T) -> bool)
    ensures
        keep(s, f).len() <= s.len(),
        forall|x: T| #[trigger] keep(s, f).contains(x) ==> s.contains(x) && f(x),
        forall|x: T| #[trigger] s.contains(x) && f(x) ==> keep(s, f).contains(x),
    decreases s.len(),
{
    if s.len() > 0 {
        let front = s.drop_last();
        let last = s.last();
        lemma_keep(front, f);
        let kf = keep(front, f);
        let ks = keep(s, f);
        assert forall|x: T| #[trigger] ks.contains(x) implies s.contains(x) && f(x) by {
            let w = choose|w: int| 0 <= w < ks.len() && ks[w] == x;
            if w < kf.len() {
                assert(kf[w] == x);
                assert(kf.contains(x));
                assert(front.contains(x));
                let v = choose|v: int| 0 <= v < front.len() && front[v] == x;
                assert(s[v] == x);
            } else {
                assert(f(last));
                assert(x == last);
                assert(s[s.len() - 1] == x);
            }
        }
        assert forall|x: T| #[trigger] s.contains(x) && f(x) implies ks.contains(x) by {
            let v = choose|v: int| 0 <= v < s.len() && s[v] == x;
            if v < front.len() {
                assert(front[v] == x);
                assert(front.contains(x));
                assert(kf.contains(x));
                let w = choose|w: int| 0 <= w < kf.len() && kf[w] == x;
                assert(ks[w] == x);
            } else {
                assert(x == last);
                assert(ks[ks.len() - 1] == x);
            }
        }
    }
}

/// Where every element satisfies `f`, nothing is dropped.
pub proof fn lemma_keep_all<T>(s: Seq<T>, f: spec_fn(T) -> bool)
    requires
        forall|i: int| 0 <= i < s.len() ==> f(#[trigger] s[i]),
    ensures
        keep(s, f) == s,
    decreases s.len(),
{
    if s.len() > 0 {
        lemma_keep_all(s.drop_last(), f);
        assert(s.drop_last().push(s.last()) =~= s);
    }
}

/// Where exactly the element at `i` fails `f`, exactly it is dropped.
pub proof fn lemma_keep_all_but<T>(s: Seq<T>, f: spec_fn(T) -> bool, i: int)
    requires
        0 <= i < s.len(),
        !f(s[i]),
        forall|j: int| 0 <= j < s.len() && j != i ==> f(#[trigger] s[j]),
    ensures
        keep(s, f) == s.remove(i),
    decreases s.len(),
{
    let front = s.drop_last();
    if i == s.len() - 1 {
        lemma_keep_all(front, f);
        assert(s.remove(i) =~= front);
    } else {
        lemma_keep_all_but(front, f, i);
        assert(front.remove(i).push(s.last()) =~= s.remove(i));
    }
}

/// Predicates that agree on the elements of `s` keep the same of them.
pub proof fn lemma_keep_agree<T>(s: Seq<T>, f: spec_fn(T) -> bool, g: spec_fn(T) -> bool)
    requires
        forall|i: int| 0 <= i < s.len() ==> f(#[trigger] s[i]) == g(s[i]),
    ensures
        keep(s, f) == keep(s, g),
    decreases s.len(),
{
    if s.len() > 0 {
        lemma_keep_agree(s.drop_last(), f, g);
    }
}

/// Keeping by `f` and then by `g` keeps what satisfies both.
pub proof fn lemma_keep_twice<T>(s: Seq<T>, f: spec_fn(T) -> bool, g: spec_fn(T) -> bool)
    ensures
        keep(keep(s, f), g) == keep(s, |x: T| f(x) && g(x)),
    decreases s.len(),
{
    if s.len() > 0 {
        let front = s.drop_last();
        lemma_keep_twice(front, f, g);
        if f(s.last()) {
            assert(keep(s, f).drop_last() =~= keep(front, f));
        }
    }
}

} // verus!
