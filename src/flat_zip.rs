use vstd::prelude::*;

use crate::accumulate::{
    accepts_all, fold_result, folds_through, lemma_fold_concat, lemma_fold_empty,
};
use crate::group::{pairs_of, Group};
use crate::groups::{fold_groups_result, source_views, views_of, Groups};

verus! {

/// All pairs of a run of groups: each group's pairs in turn, in the order of the groups.
pub open spec fn flat_pairs<K, V>(groups: Seq<(K, Seq<V>)>) -> Seq<(K, V)>
    decreases groups.len(),
{
    if groups.len() == 0 {
        Seq::empty()
    } else {
        pairs_of(groups[0].0, groups[0].1) + flat_pairs(groups.drop_first())
    }
}

/// Each group's pairs back first, taken in the order of the groups.
pub open spec fn rev_flat_pairs<K, V>(groups: Seq<(K, Seq<V>)>) -> Seq<(K, V)>
    decreases groups.len(),
{
    if groups.len() == 0 {
        Seq::empty()
    } else {
        pairs_of(groups[0].0, groups[0].1).reverse() + rev_flat_pairs(groups.drop_first())
    }
}

/// The final item of `s`, or `d` where `s` is empty.
pub open spec fn last_or<T>(s: Seq<T>, d: Option<T>) -> Option<T> {
    if s.len() > 0 {
        Some(s.last())
    } else {
        d
    }
}

/// The views of the groups held in an optional slot.
pub open spec fn slot_views<K: Copy, V>(slot: Option<Group<K, V>>) -> Seq<(K, Seq<V>)> {
    match slot {
        Some(g) => seq![g@],
        None => Seq::empty(),
    }
}

/// Taking from the front turns `pre` into `post` and hands out `out`.
pub open spec fn front_step<T>(pre: Seq<T>, post: Seq<T>, out: Option<T>) -> bool {
    if pre.len() > 0 {
        out == Some(pre[0]) && post == pre.drop_first()
    } else {
        out.is_none() && post == pre
    }
}

/// Taking from the back turns `pre` into `post` and hands out `out`.
pub open spec fn back_step<T>(pre: Seq<T>, post: Seq<T>, out: Option<T>) -> bool {
    if pre.len() > 0 {
        out == Some(pre.last()) && post == pre.drop_last()
    } else {
        out.is_none() && post == pre
    }
}

/// The pairs of `a + b` are those of `a` followed by those of `b`.
pub proof fn lemma_flat_pairs_concat<K, V>(a: Seq<(K, Seq<V>)>, b: Seq<(K, Seq<V>)>)
    ensures
        flat_pairs(a + b) == flat_pairs(a) + flat_pairs(b),
    decreases a.len(),
{
    if a.len() == 0 {
        assert(a + b =~= b);
        assert(flat_pairs(a) + flat_pairs(b) =~= flat_pairs(b));
    } else {
        assert((a + b).drop_first() =~= a.drop_first() + b);
        lemma_flat_pairs_concat(a.drop_first(), b);
        assert(flat_pairs(a + b) =~= flat_pairs(a) + flat_pairs(b));
    }
}

/// The pairs of a single group are that group's pairs.
pub proof fn lemma_flat_pairs_single<K, V>(g: (K, Seq<V>))
    ensures
        flat_pairs(seq![g]) == pairs_of(g.0, g.1),
{
    let none = Seq::<(K, Seq<V>)>::empty();
    assert(seq![g].drop_first() =~= none);
    assert(flat_pairs(none) == Seq::<(K, V)>::empty());
    assert(flat_pairs(seq![g]) == pairs_of(g.0, g.1) + flat_pairs(none));
    assert(pairs_of(g.0, g.1) + Seq::<(K, V)>::empty() =~= pairs_of(g.0, g.1));
}

/// Reading the groups backwards, each group back first, reverses all pairs.
pub proof fn lemma_rev_flat_pairs<K, V>(groups: Seq<(K, Seq<V>)>)
    ensures
        rev_flat_pairs(groups.reverse()) == flat_pairs(groups).reverse(),
    decreases groups.len(),
{
    if groups.len() > 0 {
        let rest = groups.drop_first();
        let g = groups[0];
        lemma_rev_flat_pairs(rest);
        assert(groups.reverse() =~= rest.reverse().push(g));
        lemma_rev_flat_pairs_push(rest.reverse(), g);
        assert(flat_pairs(groups).reverse() =~= flat_pairs(rest).reverse() + pairs_of(
            g.0,
            g.1,
        ).reverse());
    } else {
        assert(groups.reverse() =~= groups);
    }
}

proof fn lemma_rev_flat_pairs_push<K, V>(groups: Seq<(K, Seq<V>)>, g: (K, Seq<V>))
    ensures
        rev_flat_pairs(groups.push(g)) == rev_flat_pairs(groups) + pairs_of(g.0, g.1).reverse(),
    decreases groups.len(),
{
    if groups.len() == 0 {
        assert(groups.push(g).drop_first() =~= groups);
        assert(rev_flat_pairs(groups.push(g)) =~= rev_flat_pairs(groups) + pairs_of(
            g.0,
            g.1,
        ).reverse());
    } else {
        assert(groups.push(g).drop_first() =~= groups.drop_first().push(g));
        lemma_rev_flat_pairs_push(groups.drop_first(), g);
        assert(rev_flat_pairs(groups.push(g)) =~= rev_flat_pairs(groups) + pairs_of(
            g.0,
            g.1,
        ).reverse());
    }
}

/// The final item of `a + b` is that of `b`, or where `b` is empty that of `a`.
proof fn lemma_last_or_concat<T>(a: Seq<T>, b: Seq<T>, d: Option<T>)
    ensures
        last_or(a + b, d) == last_or(b, last_or(a, d)),
{
    if b.len() > 0 {
        assert((a + b).last() == b.last());
    } else {
        assert(a + b =~= a);
    }
}

proof fn lemma_views_of_concat<K: Copy, V>(a: Seq<Group<K, V>>, b: Seq<Group<K, V>>)
    ensures
        views_of(a + b) == views_of(a) + views_of(b),
{
    assert(views_of(a + b) =~= views_of(a) + views_of(b));
}

/// Runs of group folds compose: the groups of two runs, one after the other.
proof fn lemma_fold_groups_concat<K: Copy, V, B, F: Fn(B, Group<K, V>) -> B>(
    f: F,
    a: B,
    v1: Seq<(K, Seq<V>)>,
    b: B,
    v2: Seq<(K, Seq<V>)>,
    c: B,
)
    requires
        fold_groups_result(f, a, v1, b),
        fold_groups_result(f, b, v2, c),
    ensures
        fold_groups_result(f, a, v1 + v2, c),
{
    let gs1 = choose|gs: Seq<Group<K, V>>| #[trigger]
        views_of(gs) == v1 && fold_result(f, a, gs, b);
    let gs2 = choose|gs: Seq<Group<K, V>>| #[trigger]
        views_of(gs) == v2 && fold_result(f, b, gs, c);
    lemma_fold_concat(f, a, gs1, b, gs2, c);
    lemma_views_of_concat(gs1, gs2);
    assert(views_of(gs1 + gs2) == v1 + v2 && fold_result(f, a, gs1 + gs2, c));
}

/// Folding an optional slot: one step of `f` on its group, or nothing.
proof fn lemma_fold_groups_slot<K: Copy, V, B, F: Fn(B, Group<K, V>) -> B>(
    f: F,
    a: B,
    slot: Option<Group<K, V>>,
    b: B,
)
    requires
        slot.is_some() ==> call_ensures(f, (a, slot.unwrap()), b),
        slot.is_none() ==> b == a,
    ensures
        fold_groups_result(f, a, slot_views(slot), b),
{
    match slot {
        Some(g) => {
            let gs = seq![g];
            let accs = seq![a, b];
            assert(folds_through(f, gs, accs));
            assert(views_of(gs) =~= slot_views(slot));
            assert(views_of(gs) == slot_views(slot) && fold_result(f, a, gs, b));
        },
        None => {
            let gs = Seq::<Group<K, V>>::empty();
            lemma_fold_empty(f, a);
            assert(views_of(gs) =~= slot_views(slot));
            assert(views_of(gs) == slot_views(slot) && fold_result(f, a, gs, a));
        },
    }
}

/// Folding `f` group by group, where each step of `step` folds `f` over one group's pairs
/// (back first where `rev`), folds `f` over the pairs of all the groups.
proof fn lemma_fold_run<K: Copy, V, B, F: Fn(B, (K, V)) -> B, G: Fn(B, Group<K, V>) -> B>(
    f: F,
    step: G,
    gs: Seq<Group<K, V>>,
    accs: Seq<B>,
    rev: bool,
)
    requires
        forall|a: B, g: Group<K, V>, b: B| #[trigger]
            call_ensures(step, (a, g), b) ==> fold_result(
                f,
                a,
                if rev {
                    g.pairs().reverse()
                } else {
                    g.pairs()
                },
                b,
            ),
        folds_through(step, gs, accs),
    ensures
        fold_result(
            f,
            accs[0],
            if rev {
                rev_flat_pairs(views_of(gs))
            } else {
                flat_pairs(views_of(gs))
            },
            accs[accs.len() - 1],
        ),
    decreases gs.len(),
{
    if gs.len() == 0 {
        lemma_fold_empty(f, accs[0]);
        assert(views_of(gs) =~= Seq::<(K, Seq<V>)>::empty());
    } else {
        let rest = gs.drop_first();
        let accs_rest = accs.drop_first();
        assert(call_ensures(step, (accs[0], gs[0]), accs[1]));
        assert(folds_through(step, rest, accs_rest)) by {
            assert forall|j: int| #![trigger rest[j]] 0 <= j < rest.len() implies call_ensures(
                step,
                (accs_rest[j], rest[j]),
                accs_rest[j + 1],
            ) by {
                assert(call_ensures(step, (accs[j + 1], gs[j + 1]), accs[j + 2]));
            }
        }
        lemma_fold_run(f, step, rest, accs_rest, rev);
        assert(views_of(gs).drop_first() =~= views_of(rest));
        let seg = if rev {
            gs[0].pairs().reverse()
        } else {
            gs[0].pairs()
        };
        let tail = if rev {
            rev_flat_pairs(views_of(rest))
        } else {
            flat_pairs(views_of(rest))
        };
        lemma_fold_concat(f, accs[0], seg, accs[1], tail, accs[accs.len() - 1]);
    }
}

/// Keeping, group by group, the final pair of each non-empty group keeps the final pair
/// of all the groups.
proof fn lemma_last_run<K: Copy, V, G: Fn(Option<(K, V)>, Group<K, V>) -> Option<(K, V)>>(
    step: G,
    gs: Seq<Group<K, V>>,
    accs: Seq<Option<(K, V)>>,
)
    requires
        forall|a: Option<(K, V)>, g: Group<K, V>, b: Option<(K, V)>| #[trigger]
            call_ensures(step, (a, g), b) ==> b == last_or(g.pairs(), a),
        folds_through(step, gs, accs),
    ensures
        accs[accs.len() - 1] == last_or(flat_pairs(views_of(gs)), accs[0]),
    decreases gs.len(),
{
    if gs.len() == 0 {
        assert(views_of(gs) =~= Seq::<(K, Seq<V>)>::empty());
    } else {
        let rest = gs.drop_first();
        let accs_rest = accs.drop_first();
        assert(call_ensures(step, (accs[0], gs[0]), accs[1]));
        assert(folds_through(step, rest, accs_rest)) by {
            assert forall|j: int| #![trigger rest[j]] 0 <= j < rest.len() implies call_ensures(
                step,
                (accs_rest[j], rest[j]),
                accs_rest[j + 1],
            ) by {
                assert(call_ensures(step, (accs[j + 1], gs[j + 1]), accs[j + 2]));
            }
        }
        lemma_last_run(step, rest, accs_rest);
        assert(views_of(gs).drop_first() =~= views_of(rest));
        lemma_last_or_concat(gs[0].pairs(), flat_pairs(views_of(rest)), accs[0]);
    }
}

/// A flat sequence of `(key, value)` pairs over a sequence of `(key, values)` groups.
///
/// Each value comes out paired with its group's key, group after group, and groups
/// without values give nothing. Pairs can be taken from both ends: a partly taken
/// group is held at each end, and the groups between them are taken whole only when
/// reached.
pub struct FlatZip<K, V> {
    groups: Groups<K, V>,
    front: Option<Group<K, V>>,
    back: Option<Group<K, V>>,
}

impl<K: Copy, V> View for FlatZip<K, V> {
    type V = Seq<(K, V)>;

    /// The pairs still to come, front first.
    closed spec fn view(&self) -> Seq<(K, V)> {
        flat_pairs(self.group_views())
    }
}

impl<K: Copy, V> FlatZip<K, V> {
    /// The groups still to come: the one held at the front, those between, the one
    /// held at the back.
    pub closed spec fn group_views(&self) -> Seq<(K, Seq<V>)> {
        slot_views(self.front) + self.groups@ + slot_views(self.back)
    }

    pub fn new(iter: Vec<(K, Vec<V>)>) -> (r: Self)
        ensures
            r@ == flat_pairs(source_views(iter@)),
    {
        let r = FlatZip { groups: Groups::new(iter), front: None, back: None };
        proof {
            assert(r.group_views() =~= r.groups@);
        }
        r
    }

    /// Takes the next pair from the front.
    ///
    /// The group held at the front is drained first, then groups are taken from the
    /// front of those between, and once none is left the group held at the back is
    /// drained.
    pub fn next(&mut self) -> (r: Option<(K, V)>)
        ensures
            front_step(old(self)@, final(self)@, r),
    {
        loop
            invariant
                self@ == old(self)@,
            decreases 2 * self.groups@.len() + if self.front.is_some() {
                1int
            } else {
                0int
            },
        {
            let ghost before = self.group_views();
            match self.front.take() {
                Some(mut g) => {
                    let ghost g0 = g;
                    let item = g.next();
                    match item {
                        Some(x) => {
                            self.front = Some(g);
                            proof {
                                lemma_flat_pairs_concat(seq![g0@], self.groups@ + slot_views(self.back));
                                lemma_flat_pairs_concat(seq![g@], self.groups@ + slot_views(self.back));
                                lemma_flat_pairs_single(g0@);
                                lemma_flat_pairs_single(g@);
                                assert(before =~= seq![g0@] + (self.groups@ + slot_views(self.back)));
                                assert(self.group_views() =~= seq![g@] + (self.groups@ + slot_views(self.back)));
                                assert(g.pairs() =~= g0.pairs().drop_first());
                                assert(self@ =~= old(self)@.drop_first());
                            }
                            return Some(x);
                        },
                        None => {
                            proof {
                                lemma_flat_pairs_concat(seq![g0@], self.groups@ + slot_views(self.back));
                                lemma_flat_pairs_single(g0@);
                                assert(before =~= seq![g0@] + (self.groups@ + slot_views(self.back)));
                                assert(self.group_views() =~= self.groups@ + slot_views(self.back));
                                assert(g0.pairs().len() == 0);
                                assert(self@ =~= old(self)@);
                            }
                        },
                    }
                },
                None => {},
            }
            let ghost mid = self.groups@;
            match self.groups.next() {
                Some(g) => {
                    self.front = Some(g);
                    proof {
                        assert(self.group_views() =~= mid + slot_views(self.back));
                    }
                    continue;
                },
                None => {},
            }
            proof {
                assert(self.group_views() =~= slot_views(self.back));
            }
            let ghost before_back = self.back;
            match self.back.take() {
                Some(mut g) => {
                    let ghost g0 = g;
                    let item = g.next();
                    match item {
                        Some(x) => {
                            self.back = Some(g);
                            proof {
                                lemma_flat_pairs_single(g0@);
                                lemma_flat_pairs_single(g@);
                                assert(self.group_views() =~= seq![g@]);
                                assert(g.pairs() =~= g0.pairs().drop_first());
                            }
                            return Some(x);
                        },
                        None => {
                            proof {
                                lemma_flat_pairs_single(g0@);
                                assert(g0.pairs().len() == 0);
                                assert(self.group_views() =~= Seq::<(K, Seq<V>)>::empty());
                                assert(slot_views(before_back) =~= seq![g0@]);
                                assert(old(self)@ == flat_pairs(seq![g0@]));
                                assert(old(self)@ =~= self@);
                            }
                            return None;
                        },
                    }
                },
                None => {
                    proof {
                        assert(self.group_views() =~= Seq::<(K, Seq<V>)>::empty());
                    }
                    return None;
                },
            }
        }
    }

    /// Takes the next pair from the back.
    ///
    /// The mirror of `next`: the group held at the back is drained first, then groups
    /// are taken from the back of those between, and once none is left the group held
    /// at the front is drained.
    pub fn next_back(&mut self) -> (r: Option<(K, V)>)
        ensures
            back_step(old(self)@, final(self)@, r),
    {
        loop
            invariant
                self@ == old(self)@,
            decreases 2 * self.groups@.len() + if self.back.is_some() {
                1int
            } else {
                0int
            },
        {
            let ghost before = self.group_views();
            match self.back.take() {
                Some(mut g) => {
                    let ghost g0 = g;
                    let item = g.next_back();
                    let ghost rest = slot_views(self.front) + self.groups@;
                    match item {
                        Some(x) => {
                            self.back = Some(g);
                            proof {
                                lemma_flat_pairs_concat(rest, seq![g0@]);
                                lemma_flat_pairs_concat(rest, seq![g@]);
                                lemma_flat_pairs_single(g0@);
                                lemma_flat_pairs_single(g@);
                                assert(before =~= rest + seq![g0@]);
                                assert(self.group_views() =~= rest + seq![g@]);
                                assert(g.pairs() =~= g0.pairs().drop_last());
                                assert(self@ =~= old(self)@.drop_last());
                            }
                            return Some(x);
                        },
                        None => {
                            proof {
                                lemma_flat_pairs_concat(rest, seq![g0@]);
                                lemma_flat_pairs_single(g0@);
                                assert(before =~= rest + seq![g0@]);
                                assert(self.group_views() =~= rest);
                                assert(g0.pairs().len() == 0);
                                assert(self@ =~= old(self)@);
                            }
                        },
                    }
                },
                None => {},
            }
            let ghost mid = self.groups@;
            match self.groups.next_back() {
                Some(g) => {
                    self.back = Some(g);
                    proof {
                        assert(mid =~= self.groups@.push(g@));
                        assert(self.group_views() =~= slot_views(self.front) + mid);
                    }
                    continue;
                },
                None => {},
            }
            proof {
                assert(self.group_views() =~= slot_views(self.front));
            }
            let ghost before_front = self.front;
            match self.front.take() {
                Some(mut g) => {
                    let ghost g0 = g;
                    let item = g.next_back();
                    match item {
                        Some(x) => {
                            self.front = Some(g);
                            proof {
                                lemma_flat_pairs_single(g0@);
                                lemma_flat_pairs_single(g@);
                                assert(self.group_views() =~= seq![g@]);
                                assert(slot_views(before_front) =~= seq![g0@]);
                                assert(g.pairs() =~= g0.pairs().drop_last());
                            }
                            return Some(x);
                        },
                        None => {
                            proof {
                                lemma_flat_pairs_single(g0@);
                                assert(g0.pairs().len() == 0);
                                assert(self.group_views() =~= Seq::<(K, Seq<V>)>::empty());
                                assert(slot_views(before_front) =~= seq![g0@]);
                                assert(old(self)@ == flat_pairs(seq![g0@]));
                                assert(old(self)@ =~= self@);
                            }
                            return None;
                        },
                    }
                },
                None => {
                    proof {
                        assert(self.group_views() =~= Seq::<(K, Seq<V>)>::empty());
                    }
                    return None;
                },
            }
        }
    }

    /// Folds `f` over the groups still to come, front first: the one held at the
    /// front, those between, the one held at the back.
    fn fold_groups<B, F: Fn(B, Group<K, V>) -> B>(self, init: B, f: F) -> (r: B)
        requires
            accepts_all(f),
        ensures
            fold_groups_result(f, init, self.group_views(), r),
    {
        let FlatZip { groups, front, back } = self;
        let ghost front_slot = front;
        let ghost back_slot = back;
        let ghost mid = groups@;
        let mut acc = init;
        match front {
            Some(g) => {
                acc = f(acc, g);
            },
            None => {},
        }
        proof {
            lemma_fold_groups_slot(f, init, front_slot, acc);
        }
        let ghost a1 = acc;
        acc = groups.fold(acc, &f);
        let ghost a2 = acc;
        match back {
            Some(g) => {
                acc = f(acc, g);
            },
            None => {},
        }
        proof {
            lemma_fold_groups_slot(f, a2, back_slot, acc);
            lemma_fold_groups_concat(f, init, slot_views(front_slot), a1, mid, a2);
            lemma_fold_groups_concat(
                f,
                init,
                slot_views(front_slot) + mid,
                a2,
                slot_views(back_slot),
                acc,
            );
        }
        acc
    }

    /// Folds `f` over the groups still to come, back first: the one held at the back,
    /// those between, the one held at the front.
    fn rfold_groups<B, F: Fn(B, Group<K, V>) -> B>(self, init: B, f: F) -> (r: B)
        requires
            accepts_all(f),
        ensures
            fold_groups_result(f, init, self.group_views().reverse(), r),
    {
        let FlatZip { groups, front, back } = self;
        let ghost front_slot = front;
        let ghost back_slot = back;
        let ghost mid = groups@;
        let mut acc = init;
        match back {
            Some(g) => {
                acc = f(acc, g);
            },
            None => {},
        }
        proof {
            lemma_fold_groups_slot(f, init, back_slot, acc);
        }
        let ghost a1 = acc;
        acc = groups.rfold(acc, &f);
        let ghost a2 = acc;
        match front {
            Some(g) => {
                acc = f(acc, g);
            },
            None => {},
        }
        proof {
            lemma_fold_groups_slot(f, a2, front_slot, acc);
            lemma_fold_groups_concat(f, init, slot_views(back_slot), a1, mid.reverse(), a2);
            lemma_fold_groups_concat(
                f,
                init,
                slot_views(back_slot) + mid.reverse(),
                a2,
                slot_views(front_slot),
                acc,
            );
            assert(self.group_views().reverse() =~= slot_views(back_slot) + mid.reverse()
                + slot_views(front_slot));
        }
        acc
    }

    /// Folds `f` over all pairs still to come, front first, group by group.
    pub fn fold<B, F: Fn(B, (K, V)) -> B>(self, init: B, f: F) -> (r: B)
        requires
            accepts_all(&f),
        ensures
            fold_result(&f, init, self@, r),
    {
        let fr = &f;
        let step = |acc: B, g: Group<K, V>| -> (r: B)
            requires
                accepts_all(fr),
            ensures
                fold_result(fr, acc, g.pairs(), r),
            { g.fold(acc, fr) };
        let ghost views = self.group_views();
        let r = self.fold_groups(init, step);
        proof {
            let gs = choose|gs: Seq<Group<K, V>>| #[trigger]
                views_of(gs) == views && fold_result(step, init, gs, r);
            let accs = choose|accs: Seq<B>| #[trigger]
                folds_through(step, gs, accs) && accs[0] == init && accs[accs.len() - 1] == r;
            lemma_fold_run(fr, step, gs, accs, false);
        }
        r
    }

    /// Folds `f` over all pairs still to come, back first, group by group.
    pub fn rfold<B, F: Fn(B, (K, V)) -> B>(self, init: B, f: F) -> (r: B)
        requires
            accepts_all(&f),
        ensures
            fold_result(&f, init, self@.reverse(), r),
    {
        let fr = &f;
        let step = |acc: B, g: Group<K, V>| -> (r: B)
            requires
                accepts_all(fr),
            ensures
                fold_result(fr, acc, g.pairs().reverse(), r),
            { g.rfold(acc, fr) };
        let ghost views = self.group_views();
        let r = self.rfold_groups(init, step);
        proof {
            let gs = choose|gs: Seq<Group<K, V>>| #[trigger]
                views_of(gs) == views.reverse() && fold_result(step, init, gs, r);
            let accs = choose|accs: Seq<B>| #[trigger]
                folds_through(step, gs, accs) && accs[0] == init && accs[accs.len() - 1] == r;
            lemma_fold_run(fr, step, gs, accs, true);
            lemma_rev_flat_pairs(views);
        }
        r
    }

    /// The final pair still to come, if any.
    pub fn last(self) -> (r: Option<(K, V)>)
        ensures
            r == last_or(self@, None),
    {
        let step = |acc: Option<(K, V)>, g: Group<K, V>| -> (r: Option<(K, V)>)
            ensures
                r == last_or(g.pairs(), acc),
            {
                match g.last() {
                    Some(x) => Some(x),
                    None => acc,
                }
            };
        let ghost views = self.group_views();
        let r = self.fold_groups(None, step);
        proof {
            let gs = choose|gs: Seq<Group<K, V>>| #[trigger]
                views_of(gs) == views && fold_result(step, None, gs, r);
            let accs = choose|accs: Seq<Option<(K, V)>>| #[trigger]
                folds_through(step, gs, accs) && accs[0] == None::<(K, V)> && accs[accs.len()
                    - 1] == r;
            lemma_last_run(step, gs, accs);
        }
        r
    }

    /// The number of pairs still to come, summed group by group.
    pub fn count(self) -> (r: usize)
        requires
            self@.len() <= usize::MAX,
        ensures
            r == self@.len(),
    {
        let ghost total = self@.len();
        let FlatZip { groups, front, back } = self;
        let ghost front_slot = front;
        let ghost back_slot = back;
        let mut groups = groups;
        proof {
            lemma_flat_pairs_concat(slot_views(front_slot), groups@ + slot_views(back_slot));
            lemma_flat_pairs_concat(groups@, slot_views(back_slot));
            assert(self.group_views() =~= slot_views(front_slot) + (groups@ + slot_views(
                back_slot,
            )));
        }
        let mut n: usize = 0;
        match front {
            Some(g) => {
                proof {
                    lemma_flat_pairs_single(g@);
                }
                n = g.len();
            },
            None => {},
        }
        let back_len: usize = match back {
            Some(g) => {
                proof {
                    lemma_flat_pairs_single(g@);
                }
                g.len()
            },
            None => 0,
        };
        proof {
            assert(flat_pairs(slot_views(back_slot)).len() == back_len);
        }
        while groups.len() > 0
            invariant
                n + flat_pairs(groups@).len() + back_len == total,
                total <= usize::MAX,
            decreases groups@.len(),
        {
            let ghost before = groups@;
            let g = groups.next().unwrap();
            proof {
                assert(flat_pairs(before) == g.pairs() + flat_pairs(groups@));
            }
            n = n + g.len();
        }
        n + back_len
    }
}

} // verus!
