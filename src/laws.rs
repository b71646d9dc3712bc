//! What holds of whole runs of calls on a `FlatZip`.
//!
//! A run is given by the views that the calls went through: `states[0]` is the view
//! that the sequence started from, and each call turned `states[i]` into `states[i + 1]`
//! as its `ensures` says (`front_step` for `next`, `back_step` for `next_back`).
use vstd::prelude::*;

use crate::accumulate::fold_result;
use crate::flat_zip::{back_step, flat_pairs, front_step, last_or, lemma_flat_pairs_concat};
use crate::group::pairs_of;

verus! {

/// `states` and `outs` are a run of `next` that drained the sequence: each call handed
/// out `outs[i]`, and one more call found nothing left.
pub open spec fn drained_from_front<T>(states: Seq<Seq<T>>, outs: Seq<T>) -> bool {
    &&& states.len() == outs.len() + 1
    &&& forall|i: int|
        #![trigger outs[i]]
        0 <= i < outs.len() ==> front_step(states[i], states[i + 1], Some(outs[i]))
    &&& front_step(states[outs.len() as int], states[outs.len() as int], None)
}

/// `states` and `outs` are a run of `next_back` that drained the sequence.
pub open spec fn drained_from_back<T>(states: Seq<Seq<T>>, outs: Seq<T>) -> bool {
    &&& states.len() == outs.len() + 1
    &&& forall|i: int|
        #![trigger outs[i]]
        0 <= i < outs.len() ==> back_step(states[i], states[i + 1], Some(outs[i]))
    &&& back_step(states[outs.len() as int], states[outs.len() as int], None)
}

/// `states` and `outs` are a run of calls that each handed out a pair, `outs[i]`, from
/// the front where `from_front[i]`, else from the back.
pub open spec fn interleaved<T>(from_front: Seq<bool>, states: Seq<Seq<T>>, outs: Seq<T>) -> bool {
    &&& states.len() == outs.len() + 1
    &&& from_front.len() == outs.len()
    &&& forall|i: int|
        #![trigger outs[i]]
        0 <= i < outs.len() ==> if from_front[i] {
            front_step(states[i], states[i + 1], Some(outs[i]))
        } else {
            back_step(states[i], states[i + 1], Some(outs[i]))
        }
}

/// The pairs that the first `n` calls handed out from the front, in the order taken.
pub open spec fn taken_from_front<T>(from_front: Seq<bool>, outs: Seq<T>, n: nat) -> Seq<T>
    decreases n,
{
    if n == 0 {
        Seq::empty()
    } else if from_front[n - 1] {
        taken_from_front(from_front, outs, (n - 1) as nat).push(outs[n - 1])
    } else {
        taken_from_front(from_front, outs, (n - 1) as nat)
    }
}

/// The pairs that the first `n` calls handed out from the back, in the order taken.
pub open spec fn taken_from_back<T>(from_front: Seq<bool>, outs: Seq<T>, n: nat) -> Seq<T>
    decreases n,
{
    if n == 0 {
        Seq::empty()
    } else if !from_front[n - 1] {
        taken_from_back(from_front, outs, (n - 1) as nat).push(outs[n - 1])
    } else {
        taken_from_back(from_front, outs, (n - 1) as nat)
    }
}

proof fn lemma_front_run<T>(states: Seq<Seq<T>>, outs: Seq<T>, n: int)
    requires
        drained_from_front(states, outs),
        0 <= n <= outs.len(),
    ensures
        n <= states[0].len(),
        states[n] == states[0].skip(n),
        outs.take(n) == states[0].take(n),
    decreases n,
{
    if n > 0 {
        lemma_front_run(states, outs, n - 1);
        assert(front_step(states[n - 1], states[n], Some(outs[n - 1])));
        assert(states[n - 1].len() > 0);
        assert(states[n] =~= states[0].skip(n));
        assert(outs.take(n) =~= states[0].take(n));
    } else {
        assert(states[0].skip(0) =~= states[0]);
        assert(outs.take(0) =~= states[0].take(0));
    }
}

proof fn lemma_back_run<T>(states: Seq<Seq<T>>, outs: Seq<T>, n: int)
    requires
        drained_from_back(states, outs),
        0 <= n <= outs.len(),
    ensures
        n <= states[0].len(),
        states[n] == states[0].take(states[0].len() - n),
        outs.take(n) == states[0].reverse().take(n),
    decreases n,
{
    if n > 0 {
        lemma_back_run(states, outs, n - 1);
        assert(back_step(states[n - 1], states[n], Some(outs[n - 1])));
        assert(states[n] =~= states[0].take(states[0].len() - n));
        assert(outs.take(n) =~= states[0].reverse().take(n));
    } else {
        assert(states[0].take(states[0].len() - 0) =~= states[0]);
        assert(outs.take(0) =~= states[0].reverse().take(0));
    }
}

/// Taking pairs from the front until none is left hands out every value of every group,
/// each paired with its group's key, group after group in the order given.
pub proof fn lemma_forward_drain<K, V>(
    groups: Seq<(K, Seq<V>)>,
    states: Seq<Seq<(K, V)>>,
    outs: Seq<(K, V)>,
)
    requires
        states.len() > 0,
        states[0] == flat_pairs(groups),
        drained_from_front(states, outs),
    ensures
        outs == flat_pairs(groups),
{
    lemma_front_run(states, outs, outs.len() as int);
    assert(states[outs.len() as int].len() == 0);
    assert(outs.take(outs.len() as int) =~= outs);
    assert(states[0] =~= states[0].take(outs.len() as int));
}

/// Taking pairs from the back until none is left hands out the reverse of what taking
/// them from the front until none is left hands out.
pub proof fn lemma_backward_drain_reverses<T>(
    start: Seq<T>,
    front_states: Seq<Seq<T>>,
    front_outs: Seq<T>,
    back_states: Seq<Seq<T>>,
    back_outs: Seq<T>,
)
    requires
        front_states.len() > 0 && front_states[0] == start,
        back_states.len() > 0 && back_states[0] == start,
        drained_from_front(front_states, front_outs),
        drained_from_back(back_states, back_outs),
    ensures
        back_outs == front_outs.reverse(),
{
    lemma_front_run(front_states, front_outs, front_outs.len() as int);
    lemma_back_run(back_states, back_outs, back_outs.len() as int);
    assert(front_states[front_outs.len() as int].len() == 0);
    assert(back_states[back_outs.len() as int].len() == 0);
    assert(front_outs.take(front_outs.len() as int) =~= front_outs);
    assert(back_outs.take(back_outs.len() as int) =~= back_outs);
    assert(start.take(front_outs.len() as int) =~= start);
    assert(start.reverse().take(back_outs.len() as int) =~= start.reverse());
}

proof fn lemma_interleaved_prefix<T>(from_front: Seq<bool>, states: Seq<Seq<T>>, outs: Seq<T>, n: nat)
    requires
        interleaved(from_front, states, outs),
        n <= outs.len(),
    ensures
        states[0] == taken_from_front(from_front, outs, n) + states[n as int] + taken_from_back(
            from_front,
            outs,
            n,
        ).reverse(),
    decreases n,
{
    if n == 0 {
        assert(states[0] =~= Seq::<T>::empty() + states[0] + Seq::<T>::empty().reverse());
    } else {
        let m = (n - 1) as nat;
        lemma_interleaved_prefix(from_front, states, outs, m);
        let f = taken_from_front(from_front, outs, m);
        let b = taken_from_back(from_front, outs, m);
        if from_front[m as int] {
            assert(front_step(states[m as int], states[n as int], Some(outs[m as int])));
            assert(states[m as int] =~= seq![outs[m as int]] + states[n as int]);
            assert(states[0] =~= f.push(outs[m as int]) + states[n as int] + b.reverse());
        } else {
            assert(back_step(states[m as int], states[n as int], Some(outs[m as int])));
            assert(states[m as int] =~= states[n as int].push(outs[m as int]));
            assert(b.push(outs[m as int]).reverse() =~= seq![outs[m as int]] + b.reverse());
            assert(states[0] =~= f + states[n as int] + b.push(outs[m as int]).reverse());
        }
    }
}

/// Whatever the order of calls from the front and from the back, once nothing is left
/// the pairs taken from the front, followed by those taken from the back in reverse,
/// are the whole sequence: every pair comes out exactly once.
pub proof fn lemma_interleaved_drain<T>(from_front: Seq<bool>, states: Seq<Seq<T>>, outs: Seq<T>)
    requires
        interleaved(from_front, states, outs),
        states[outs.len() as int].len() == 0,
    ensures
        taken_from_front(from_front, outs, outs.len()) + taken_from_back(
            from_front,
            outs,
            outs.len(),
        ).reverse() == states[0],
{
    lemma_interleaved_prefix(from_front, states, outs, outs.len());
    let f = taken_from_front(from_front, outs, outs.len());
    let b = taken_from_back(from_front, outs, outs.len());
    assert(f + states[outs.len() as int] + b.reverse() =~= f + b.reverse());
}

/// Folding the whole sequence at once gives what folding the pairs handed out by taking
/// them from the front until none is left gives.
pub proof fn lemma_fold_matches_drain<B, T, F: Fn(B, T) -> B>(
    f: F,
    init: B,
    states: Seq<Seq<T>>,
    outs: Seq<T>,
    r: B,
)
    requires
        states.len() > 0,
        drained_from_front(states, outs),
        fold_result(f, init, states[0], r),
    ensures
        fold_result(f, init, outs, r),
{
    lemma_front_run(states, outs, outs.len() as int);
    assert(states[outs.len() as int].len() == 0);
    assert(outs.take(outs.len() as int) =~= outs);
    assert(states[0] =~= states[0].take(outs.len() as int));
}

/// The count of a sequence is the number of pairs that taking them from the front until
/// none is left hands out, and its last pair is the final one handed out, if any.
pub proof fn lemma_count_last_match_drain<T>(states: Seq<Seq<T>>, outs: Seq<T>)
    requires
        states.len() > 0,
        drained_from_front(states, outs),
    ensures
        states[0].len() == outs.len(),
        last_or(states[0], None) == if outs.len() > 0 {
            Some(outs.last())
        } else {
            None
        },
{
    lemma_front_run(states, outs, outs.len() as int);
    assert(states[outs.len() as int].len() == 0);
    assert(outs.take(outs.len() as int) =~= outs);
    assert(states[0] =~= states[0].take(outs.len() as int));
}

/// A group without values adds no pair, wherever it stands.
pub proof fn lemma_empty_group_adds_nothing<K, V>(
    before: Seq<(K, Seq<V>)>,
    key: K,
    after: Seq<(K, Seq<V>)>,
)
    ensures
        flat_pairs(before + seq![(key, Seq::<V>::empty())] + after) == flat_pairs(
            before + after,
        ),
{
    let empty = seq![(key, Seq::<V>::empty())];
    lemma_flat_pairs_concat(before + empty, after);
    lemma_flat_pairs_concat(before, empty);
    lemma_flat_pairs_concat(before, after);
    assert(empty.drop_first() =~= Seq::<(K, Seq<V>)>::empty());
    assert(pairs_of(key, Seq::<V>::empty()) =~= Seq::<(K, V)>::empty());
    assert(flat_pairs(Seq::<(K, Seq<V>)>::empty()) == Seq::<(K, V)>::empty());
    assert(flat_pairs(empty) == pairs_of(key, Seq::<V>::empty()) + flat_pairs(
        Seq::<(K, Seq<V>)>::empty(),
    ));
    assert(flat_pairs(empty) =~= Seq::<(K, V)>::empty());
    assert(flat_pairs(before) + flat_pairs(empty) =~= flat_pairs(before));
}

} // verus!
