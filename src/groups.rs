use std::collections::VecDeque;
use vstd::prelude::*;

use crate::accumulate::{accepts_all, fold_result, folds_through, lemma_fold_push};
use crate::group::{deque_of, Group};

verus! {

/// The views of a run of groups.
pub open spec fn views_of<K: Copy, V>(gs: Seq<Group<K, V>>) -> Seq<(K, Seq<V>)> {
    gs.map_values(|g: Group<K, V>| g@)
}

/// `r` is a result of folding `f`, front first, over groups whose views are `views`.
pub open spec fn fold_groups_result<K: Copy, V, B, F: Fn(B, Group<K, V>) -> B>(
    f: F,
    init: B,
    views: Seq<(K, Seq<V>)>,
    r: B,
) -> bool {
    exists|gs: Seq<Group<K, V>>| #[trigger]
        views_of(gs) == views && fold_result(f, init, gs, r)
}

/// The `(key, values)` sequence handed in, with each vector read as its sequence of values.
pub open spec fn source_views<K, V>(source: Seq<(K, Vec<V>)>) -> Seq<(K, Seq<V>)> {
    source.map_values(|p: (K, Vec<V>)| (p.0, p.1@))
}

/// The `(key, values)` pairs still to come, each turned into a `Group` only when it is taken.
pub struct Groups<K, V> {
    iter: VecDeque<(K, Vec<V>)>,
}

impl<K: Copy, V> View for Groups<K, V> {
    type V = Seq<(K, Seq<V>)>;

    closed spec fn view(&self) -> Seq<(K, Seq<V>)> {
        source_views(self.iter@)
    }
}

impl<K: Copy, V> Groups<K, V> {
    pub fn new(iter: Vec<(K, Vec<V>)>) -> (r: Self)
        ensures
            r@ == source_views(iter@),
    {
        let iter = deque_of(iter);
        Groups { iter }
    }

    /// Takes the next group from the front.
    pub fn next(&mut self) -> (r: Option<Group<K, V>>)
        ensures
            old(self)@.len() > 0 ==> r.is_some() && r.unwrap()@ == old(self)@[0] && final(self)@
                == old(self)@.drop_first(),
            old(self)@.len() == 0 ==> r.is_none() && final(self)@ == old(self)@,
    {
        let ghost before = self.iter@;
        let r = match self.iter.pop_front() {
            Some(p) => Some(Group::from_pair(p)),
            None => None,
        };
        proof {
            if before.len() > 0 {
                assert(self@ =~= old(self)@.drop_first());
            }
        }
        r
    }

    /// Takes the next group from the back.
    pub fn next_back(&mut self) -> (r: Option<Group<K, V>>)
        ensures
            old(self)@.len() > 0 ==> r.is_some() && r.unwrap()@ == old(self)@.last()
                && final(self)@ == old(self)@.drop_last(),
            old(self)@.len() == 0 ==> r.is_none() && final(self)@ == old(self)@,
    {
        let ghost before = self.iter@;
        let r = match self.iter.pop_back() {
            Some(p) => Some(Group::from_pair(p)),
            None => None,
        };
        proof {
            if before.len() > 0 {
                assert(self@ =~= old(self)@.drop_last());
            }
        }
        r
    }

    /// The number of groups still to come.
    pub fn len(&self) -> (r: usize)
        ensures
            r == self@.len(),
    {
        self.iter.len()
    }

    /// Bounds on the number of groups still to come; both are exact.
    pub fn size_hint(&self) -> (r: (usize, Option<usize>))
        ensures
            r.0 == self@.len(),
            r.1 == Some(self@.len() as usize),
    {
        let n = self.iter.len();
        (n, Some(n))
    }

    /// Skips `n` groups from the front and takes the one after them.
    pub fn nth(&mut self, n: usize) -> (r: Option<Group<K, V>>)
        ensures
            n < old(self)@.len() ==> r.is_some() && r.unwrap()@ == old(self)@[n as int]
                && final(self)@ == old(self)@.skip(n + 1),
            n >= old(self)@.len() ==> r.is_none() && final(self)@.len() == 0,
    {
        let ghost all = self@;
        let mut i: usize = 0;
        while i < n && self.len() > 0
            invariant
                i <= n,
                i <= all.len(),
                self@ == all.skip(i as int),
            decreases n - i,
        {
            let _ = self.next();
            i = i + 1;
            assert(self@ =~= all.skip(i as int));
        }
        self.next()
    }

    /// Skips `n` groups from the back and takes the one before them.
    pub fn nth_back(&mut self, n: usize) -> (r: Option<Group<K, V>>)
        ensures
            n < old(self)@.len() ==> r.is_some() && r.unwrap()@ == old(self)@[old(self)@.len()
                - 1 - n] && final(self)@ == old(self)@.take(old(self)@.len() - 1 - n),
            n >= old(self)@.len() ==> r.is_none() && final(self)@.len() == 0,
    {
        let ghost all = self@;
        let mut i: usize = 0;
        while i < n && self.len() > 0
            invariant
                i <= n,
                i <= all.len(),
                self@ == all.take(all.len() - i),
            decreases n - i,
        {
            let _ = self.next_back();
            i = i + 1;
            assert(self@ =~= all.take(all.len() - i));
        }
        self.next_back()
    }

    /// The final group, if any.
    pub fn last(self) -> (r: Option<Group<K, V>>)
        ensures
            self@.len() > 0 ==> r.is_some() && r.unwrap()@ == self@.last(),
            self@.len() == 0 ==> r.is_none(),
    {
        let mut iter = self.iter;
        match iter.pop_back() {
            Some(p) => Some(Group::from_pair(p)),
            None => None,
        }
    }

    /// Folds `f` over the groups still to come, front first, making each group as it is reached.
    pub fn fold<B, F: Fn(B, Group<K, V>) -> B>(self, init: B, f: &F) -> (r: B)
        requires
            accepts_all(*f),
        ensures
            fold_groups_result(*f, init, self@, r),
    {
        let ghost all = self@;
        let mut groups = self;
        let mut acc = init;
        let ghost mut gs = Seq::<Group<K, V>>::empty();
        let ghost mut accs = seq![init];
        while groups.iter.len() > 0
            invariant
                accepts_all(*f),
                gs.len() + groups@.len() == all.len(),
                views_of(gs) + groups@ == all,
                accs.len() == gs.len() + 1,
                accs[0] == init,
                accs[gs.len() as int] == acc,
                folds_through(*f, gs, accs),
            decreases groups@.len(),
        {
            let ghost before = groups@;
            let g = groups.next().unwrap();
            let ghost gv = g;
            acc = f(acc, g);
            proof {
                lemma_fold_push(*f, gs, accs, gv, acc);
                assert(views_of(gs.push(gv)) =~= views_of(gs).push(gv@));
                assert(views_of(gs.push(gv)) + groups@ =~= views_of(gs) + before);
                gs = gs.push(gv);
                accs = accs.push(acc);
            }
        }
        proof {
            assert(views_of(gs) + groups@ =~= views_of(gs));
        }
        acc
    }

    /// Folds `f` over the groups still to come, back first, making each group as it is reached.
    pub fn rfold<B, F: Fn(B, Group<K, V>) -> B>(self, init: B, f: &F) -> (r: B)
        requires
            accepts_all(*f),
        ensures
            fold_groups_result(*f, init, self@.reverse(), r),
    {
        let ghost all = self@.reverse();
        let mut groups = self;
        let mut acc = init;
        let ghost mut gs = Seq::<Group<K, V>>::empty();
        let ghost mut accs = seq![init];
        while groups.len() > 0
            invariant
                accepts_all(*f),
                gs.len() + groups@.len() == all.len(),
                views_of(gs) + groups@.reverse() == all,
                accs.len() == gs.len() + 1,
                accs[0] == init,
                accs[gs.len() as int] == acc,
                folds_through(*f, gs, accs),
            decreases groups@.len(),
        {
            let ghost before = groups@;
            let g = groups.next_back().unwrap();
            let ghost gv = g;
            acc = f(acc, g);
            proof {
                lemma_fold_push(*f, gs, accs, gv, acc);
                assert(views_of(gs.push(gv)) =~= views_of(gs).push(gv@));
                assert(before.reverse() =~= seq![gv@] + groups@.reverse());
                assert(views_of(gs.push(gv)) + groups@.reverse() =~= views_of(gs)
                    + before.reverse());
                gs = gs.push(gv);
                accs = accs.push(acc);
            }
        }
        proof {
            assert(views_of(gs) + groups@.reverse() =~= views_of(gs));
        }
        acc
    }
}

} // verus!
