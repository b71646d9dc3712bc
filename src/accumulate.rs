use vstd::prelude::*;

verus! {

/// `accs` is a run of `f` over `s`: `accs[j + 1]` is a result of `f(accs[j], s[j])`.
pub open spec fn folds_through<B, T, F: Fn(B, T) -> B>(f: F, s: Seq<T>, accs: Seq<B>) -> bool {
    &&& accs.len() == s.len() + 1
    &&& forall|j: int|
        #![trigger s[j]]
        0 <= j < s.len() ==> call_ensures(f, (accs[j], s[j]), accs[j + 1])
}

/// `r` is a result of folding `f` over `s` from the front, starting at `init`.
pub open spec fn fold_result<B, T, F: Fn(B, T) -> B>(f: F, init: B, s: Seq<T>, r: B) -> bool {
    exists|accs: Seq<B>| #[trigger]
        folds_through(f, s, accs) && accs[0] == init && accs[accs.len() - 1] == r
}

/// `f` accepts every accumulator and every item.
pub open spec fn accepts_all<B, T, F: Fn(B, T) -> B>(f: F) -> bool {
    forall|b: B, x: T| #[trigger] call_requires(f, (b, x))
}

/// Folding over nothing gives the initial value back.
pub proof fn lemma_fold_empty<B, T, F: Fn(B, T) -> B>(f: F, init: B)
    ensures
        fold_result(f, init, Seq::<T>::empty(), init),
{
    let accs = seq![init];
    assert(folds_through(f, Seq::<T>::empty(), accs));
}

/// One more step of `f` extends a fold by one item.
pub proof fn lemma_fold_push<B, T, F: Fn(B, T) -> B>(
    f: F,
    s: Seq<T>,
    accs: Seq<B>,
    x: T,
    b: B,
)
    requires
        folds_through(f, s, accs),
        call_ensures(f, (accs[accs.len() - 1], x), b),
    ensures
        folds_through(f, s.push(x), accs.push(b)),
{
    let s2 = s.push(x);
    let a2 = accs.push(b);
    assert forall|j: int| #![trigger s2[j]] 0 <= j < s2.len() implies call_ensures(
        f,
        (a2[j], s2[j]),
        a2[j + 1],
    ) by {
        if j < s.len() {
            assert(a2[j] == accs[j] && s2[j] == s[j] && a2[j + 1] == accs[j + 1]);
        }
    }
}

/// A fold over `s1 + s2` is a fold over `s1` followed by a fold over `s2`.
pub proof fn lemma_fold_concat<B, T, F: Fn(B, T) -> B>(
    f: F,
    a: B,
    s1: Seq<T>,
    b: B,
    s2: Seq<T>,
    c: B,
)
    requires
        fold_result(f, a, s1, b),
        fold_result(f, b, s2, c),
    ensures
        fold_result(f, a, s1 + s2, c),
{
    let accs1 = choose|accs: Seq<B>|
        #[trigger] folds_through(f, s1, accs) && accs[0] == a && accs[accs.len() - 1] == b;
    let accs2 = choose|accs: Seq<B>|
        #[trigger] folds_through(f, s2, accs) && accs[0] == b && accs[accs.len() - 1] == c;
    let s = s1 + s2;
    let accs = accs1 + accs2.drop_first();
    assert forall|j: int| #![trigger s[j]] 0 <= j < s.len() implies call_ensures(
        f,
        (accs[j], s[j]),
        accs[j + 1],
    ) by {
        if j < s1.len() {
            assert(call_ensures(f, (accs1[j], s1[j]), accs1[j + 1]));
        } else {
            let k = j - s1.len();
            assert(call_ensures(f, (accs2[k], s2[k]), accs2[k + 1]));
        }
    }
    assert(folds_through(f, s, accs));
}

} // verus!
