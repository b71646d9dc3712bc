use std::collections::VecDeque;
use vstd::prelude::*;

use crate::accumulate::{accepts_all, fold_result, folds_through, lemma_fold_push};

verus! {

/// The pairs `(key, v)` for each `v` of `values`, in order.
pub open spec fn pairs_of<K, V>(key: K, values: Seq<V>) -> Seq<(K, V)> {
    values.map_values(|v: V| (key, v))
}

/// Moves the items of a vector into a double-ended queue, keeping their order.
pub fn deque_of<T>(items: Vec<T>) -> (r: VecDeque<T>)
    ensures
        r@ == items@,
{
    let ghost all = items@;
    let mut items = items;
    let mut r: VecDeque<T> = VecDeque::new();
    while items.len() > 0
        invariant
            items@ + r@ == all,
        decreases items.len(),
    {
        let ghost before_items = items@;
        let ghost before_r = r@;
        let v = items.pop().unwrap();
        r.push_front(v);
        assert(items@ + r@ =~= before_items + before_r);
    }
    assert(items@ + r@ =~= r@);
    r
}

/// One key together with the values still to come for it.
///
/// Each value comes out paired with a copy of the key, from either end.
pub struct Group<K, V> {
    key: K,
    values: VecDeque<V>,
}

impl<K: Copy, V> View for Group<K, V> {
    type V = (K, Seq<V>);

    open spec fn view(&self) -> (K, Seq<V>) {
        (self.spec_key(), self.spec_values())
    }
}

impl<K: Copy, V> Group<K, V> {
    /// The key of the group.
    pub closed spec fn spec_key(&self) -> K {
        self.key
    }

    /// The values still to come, front first.
    pub closed spec fn spec_values(&self) -> Seq<V> {
        self.values@
    }

    /// The pairs still to come, front first.
    pub open spec fn pairs(&self) -> Seq<(K, V)> {
        pairs_of(self@.0, self@.1)
    }

    pub fn new(key: K, values: Vec<V>) -> (r: Self)
        ensures
            r@ == (key, values@),
    {
        let values = deque_of(values);
        Group { key, values }
    }

    pub fn from_pair(pair: (K, Vec<V>)) -> (r: Self)
        ensures
            r@ == (pair.0, pair.1@),
    {
        let (key, values) = pair;
        Self::new(key, values)
    }

    /// Takes the next pair from the front.
    pub fn next(&mut self) -> (r: Option<(K, V)>)
        ensures
            final(self)@.0 == old(self)@.0,
            old(self)@.1.len() > 0 ==> r == Some(old(self).pairs()[0]) && final(self)@.1
                == old(self)@.1.drop_first(),
            old(self)@.1.len() == 0 ==> r.is_none() && final(self)@.1 == old(self)@.1,
    {
        match self.values.pop_front() {
            Some(v) => Some((self.key, v)),
            None => None,
        }
    }

    /// Takes the next pair from the back.
    pub fn next_back(&mut self) -> (r: Option<(K, V)>)
        ensures
            final(self)@.0 == old(self)@.0,
            old(self)@.1.len() > 0 ==> r == Some(old(self).pairs().last()) && final(self)@.1
                == old(self)@.1.drop_last(),
            old(self)@.1.len() == 0 ==> r.is_none() && final(self)@.1 == old(self)@.1,
    {
        match self.values.pop_back() {
            Some(v) => Some((self.key, v)),
            None => None,
        }
    }

    /// The number of pairs still to come.
    pub fn len(&self) -> (r: usize)
        ensures
            r == self@.1.len(),
    {
        self.values.len()
    }

    /// Bounds on the number of pairs still to come; both are exact.
    pub fn size_hint(&self) -> (r: (usize, Option<usize>))
        ensures
            r.0 == self@.1.len(),
            r.1 == Some(self@.1.len() as usize),
    {
        let n = self.values.len();
        (n, Some(n))
    }

    /// Skips `n` pairs from the front and takes the one after them.
    pub fn nth(&mut self, n: usize) -> (r: Option<(K, V)>)
        ensures
            final(self)@.0 == old(self)@.0,
            n < old(self)@.1.len() ==> r == Some(old(self).pairs()[n as int]) && final(self)@.1
                == old(self)@.1.skip(n + 1),
            n >= old(self)@.1.len() ==> r.is_none() && final(self)@.1.len() == 0,
    {
        let ghost all = self.values@;
        let mut i: usize = 0;
        while i < n && self.values.len() > 0
            invariant
                i <= n,
                i <= all.len(),
                self.values@ == all.skip(i as int),
                self.key == old(self).key,
            decreases n - i,
        {
            let _ = self.values.pop_front();
            i = i + 1;
        }
        self.next()
    }

    /// Skips `n` pairs from the back and takes the one before them.
    pub fn nth_back(&mut self, n: usize) -> (r: Option<(K, V)>)
        ensures
            final(self)@.0 == old(self)@.0,
            n < old(self)@.1.len() ==> r == Some(
                old(self).pairs()[old(self)@.1.len() - 1 - n],
            ) && final(self)@.1 == old(self)@.1.take(old(self)@.1.len() - 1 - n),
            n >= old(self)@.1.len() ==> r.is_none() && final(self)@.1.len() == 0,
    {
        let ghost all = self.values@;
        let mut i: usize = 0;
        while i < n && self.values.len() > 0
            invariant
                i <= n,
                i <= all.len(),
                self.values@ == all.take(all.len() - i),
                self.key == old(self).key,
            decreases n - i,
        {
            let _ = self.values.pop_back();
            i = i + 1;
        }
        self.next_back()
    }

    /// The final pair, if any; the key is moved out rather than copied.
    pub fn last(self) -> (r: Option<(K, V)>)
        ensures
            self@.1.len() > 0 ==> r == Some(self.pairs().last()),
            self@.1.len() == 0 ==> r.is_none(),
    {
        let mut values = self.values;
        match values.pop_back() {
            Some(v) => Some((self.key, v)),
            None => None,
        }
    }

    /// Folds `f` over the pairs still to come, front first.
    pub fn fold<B, F: Fn(B, (K, V)) -> B>(self, init: B, f: &F) -> (r: B)
        requires
            accepts_all(f),
        ensures
            fold_result(f, init, self.pairs(), r),
    {
        let key = self.key;
        let mut values = self.values;
        let ghost all = values@;
        let mut acc = init;
        let ghost mut accs = seq![init];
        let ghost mut i: int = 0;
        while values.len() > 0
            invariant
                accepts_all(f),
                0 <= i <= all.len(),
                values@ == all.skip(i),
                accs.len() == i + 1,
                accs[0] == init,
                accs[i] == acc,
                folds_through(f, pairs_of(key, all).take(i), accs),
            decreases values.len(),
        {
            let v = values.pop_front().unwrap();
            let pair = (key, v);
            proof {
                assert(pair == pairs_of(key, all)[i]);
            }
            acc = f(acc, pair);
            proof {
                lemma_fold_push(f, pairs_of(key, all).take(i), accs, pair, acc);
                assert(pairs_of(key, all).take(i).push(pair) =~= pairs_of(key, all).take(i + 1));
                accs = accs.push(acc);
                i = i + 1;
            }
        }
        proof {
            assert(pairs_of(key, all).take(i) =~= pairs_of(key, all));
        }
        acc
    }

    /// Folds `f` over the pairs still to come, back first.
    pub fn rfold<B, F: Fn(B, (K, V)) -> B>(self, init: B, f: &F) -> (r: B)
        requires
            accepts_all(f),
        ensures
            fold_result(f, init, self.pairs().reverse(), r),
    {
        let key = self.key;
        let mut values = self.values;
        let ghost all = values@;
        let ghost rev = pairs_of(key, all).reverse();
        let mut acc = init;
        let ghost mut accs = seq![init];
        let ghost mut i: int = 0;
        while values.len() > 0
            invariant
                accepts_all(f),
                0 <= i <= all.len(),
                rev == pairs_of(key, all).reverse(),
                values@ == all.take(all.len() - i),
                accs.len() == i + 1,
                accs[0] == init,
                accs[i] == acc,
                folds_through(f, rev.take(i), accs),
            decreases values.len(),
        {
            let v = values.pop_back().unwrap();
            let pair = (key, v);
            proof {
                assert(pair == rev[i]);
            }
            acc = f(acc, pair);
            proof {
                lemma_fold_push(f, rev.take(i), accs, pair, acc);
                assert(rev.take(i).push(pair) =~= rev.take(i + 1));
                accs = accs.push(acc);
                i = i + 1;
            }
        }
        proof {
            assert(rev.take(i) =~= rev);
        }
        acc
    }

    /// Takes pairs from the front until `predicate` holds of one, and returns it.
    ///
    /// The key is copied once for the whole search, not once per candidate.
    pub fn find<P: Fn(&(K, V)) -> bool>(&mut self, predicate: P) -> (r: Option<(K, V)>)
        requires
            forall|x: &(K, V)| #[trigger] call_requires(predicate, (x,)),
        ensures
            final(self)@.0 == old(self)@.0,
            match r {
                Some(x) => exists|i: int|
                    0 <= i < old(self)@.1.len() && x == old(self).pairs()[i] && call_ensures(
                        predicate,
                        (&x,),
                        true,
                    ) && (forall|j: int|
                        0 <= j < i ==> #[trigger] call_ensures(
                            predicate,
                            (&old(self).pairs()[j],),
                            false,
                        )) && final(self)@.1 == old(self)@.1.skip(i + 1),
                None => final(self)@.1.len() == 0 && forall|j: int|
                    0 <= j < old(self)@.1.len() ==> #[trigger] call_ensures(
                        predicate,
                        (&old(self).pairs()[j],),
                        false,
                    ),
            },
    {
        let ghost all = self.values@;
        let ghost ps = pairs_of(self.key, all);
        assert(ps == old(self).pairs());
        let mut pair = match self.values.pop_front() {
            Some(v) => (self.key, v),
            None => return None,
        };
        let ghost mut i: int = 0;
        loop
            invariant
                forall|x: &(K, V)| #[trigger] call_requires(predicate, (x,)),
                ps == pairs_of(self.key, all),
                ps == old(self).pairs(),
                all == old(self)@.1,
                self.key == old(self).key,
                0 <= i < all.len(),
                pair == ps[i],
                self.values@ == all.skip(i + 1),
                forall|j: int| 0 <= j < i ==> #[trigger] call_ensures(predicate, (&ps[j],), false),
            decreases all.len() - i,
        {
            let found = predicate(&pair);
            if found {
                proof {
                    assert(old(self).pairs() == ps);
                    assert(call_ensures(predicate, (&ps[i],), true));
                }
                return Some(pair);
            }
            proof {
                assert(call_ensures(predicate, (&ps[i],), false));
            }
            match self.values.pop_front() {
                Some(v) => {
                    pair.1 = v;
                    proof {
                        i = i + 1;
                    }
                },
                None => {
                    proof {
                        assert(old(self).pairs() == ps);
                        assert(forall|j: int| 0 <= j < all.len() ==> #[trigger] call_ensures(predicate, (&ps[j],), false)
                        ) by {
                            assert(forall|j: int| 0 <= j <= i ==> #[trigger] call_ensures(predicate, (&ps[j],), false));
                        }
                    }
                    return None;
                },
            }
        }
    }

    /// Takes pairs from the back until `predicate` holds of one, and returns it.
    ///
    /// The key is copied once for the whole search, not once per candidate.
    pub fn rfind<P: Fn(&(K, V)) -> bool>(&mut self, predicate: P) -> (r: Option<(K, V)>)
        requires
            forall|x: &(K, V)| #[trigger] call_requires(predicate, (x,)),
        ensures
            final(self)@.0 == old(self)@.0,
            match r {
                Some(x) => exists|i: int|
                    0 <= i < old(self)@.1.len() && x == old(self).pairs()[i] && call_ensures(
                        predicate,
                        (&x,),
                        true,
                    ) && (forall|j: int|
                        i < j < old(self)@.1.len() ==> #[trigger] call_ensures(
                            predicate,
                            (&old(self).pairs()[j],),
                            false,
                        )) && final(self)@.1 == old(self)@.1.take(i),
                None => final(self)@.1.len() == 0 && forall|j: int|
                    0 <= j < old(self)@.1.len() ==> #[trigger] call_ensures(
                        predicate,
                        (&old(self).pairs()[j],),
                        false,
                    ),
            },
    {
        let ghost all = self.values@;
        let ghost ps = pairs_of(self.key, all);
        assert(ps == old(self).pairs());
        let mut pair = match self.values.pop_back() {
            Some(v) => (self.key, v),
            None => return None,
        };
        let ghost mut i: int = all.len() - 1;
        loop
            invariant
                forall|x: &(K, V)| #[trigger] call_requires(predicate, (x,)),
                ps == pairs_of(self.key, all),
                ps == old(self).pairs(),
                all == old(self)@.1,
                self.key == old(self).key,
                0 <= i < all.len(),
                pair == ps[i],
                self.values@ == all.take(i),
                forall|j: int|
                    i < j < all.len() ==> #[trigger] call_ensures(predicate, (&ps[j],), false),
            decreases i,
        {
            let found = predicate(&pair);
            if found {
                proof {
                    assert(old(self).pairs() == ps);
                    assert(call_ensures(predicate, (&ps[i],), true));
                }
                return Some(pair);
            }
            proof {
                assert(call_ensures(predicate, (&ps[i],), false));
            }
            match self.values.pop_back() {
                Some(v) => {
                    pair.1 = v;
                    proof {
                        i = i - 1;
                    }
                },
                None => {
                    proof {
                        assert(old(self).pairs() == ps);
                        assert(forall|j: int| 0 <= j < all.len() ==> #[trigger] call_ensures(predicate, (&ps[j],), false)
                        ) by {
                            assert(forall|j: int| i <= j < all.len() ==> #[trigger] call_ensures(predicate, (&ps[j],), false));
                        }
                    }
                    return None;
                },
            }
        }
    }
}

} // verus!
