//! The common vocabulary of both settlement flows: a settlement run is a
//! sequence of steps, each pairing the queue entry that was at the head
//! with the amount taken from it in that step.
use vstd::prelude::*;

use crate::linked_list::QueueEntry;

verus! {

/// The total amount taken over a run of settlement steps.
pub open spec fn steps_total(steps: Seq<(QueueEntry, u128)>) -> int
    decreases steps.len(),
{
    if steps.len() == 0 {
        0
    } else {
        steps[0].1 + steps_total(steps.drop_first())
    }
}

/// The amount taken from `owner`'s entries over a run of settlement steps.
pub open spec fn steps_owner(steps: Seq<(QueueEntry, u128)>, owner: Seq<char>) -> int
    decreases steps.len(),
{
    if steps.len() == 0 {
        0
    } else {
        (if steps[0].0.receiver == owner {
            steps[0].1 as int
        } else {
            0
        }) + steps_owner(steps.drop_first(), owner)
    }
}

pub proof fn lemma_steps_total_concat(a: Seq<(QueueEntry, u128)>, b: Seq<(QueueEntry, u128)>)
    ensures
        steps_total(a + b) == steps_total(a) + steps_total(b),
    decreases a.len(),
{
    if a.len() == 0 {
        assert(a + b =~= b);
    } else {
        assert((a + b)[0] == a[0]);
        assert((a + b).drop_first() =~= a.drop_first() + b);
        lemma_steps_total_concat(a.drop_first(), b);
    }
}

pub proof fn lemma_steps_owner_concat(
    a: Seq<(QueueEntry, u128)>,
    b: Seq<(QueueEntry, u128)>,
    owner: Seq<char>,
)
    ensures
        steps_owner(a + b, owner) == steps_owner(a, owner) + steps_owner(b, owner),
    decreases a.len(),
{
    if a.len() == 0 {
        assert(a + b =~= b);
    } else {
        assert((a + b)[0] == a[0]);
        assert((a + b).drop_first() =~= a.drop_first() + b);
        lemma_steps_owner_concat(a.drop_first(), b, owner);
    }
}

pub proof fn lemma_steps_nonneg(steps: Seq<(QueueEntry, u128)>, owner: Seq<char>)
    ensures
        steps_total(steps) >= 0,
        steps_owner(steps, owner) >= 0,
        steps_owner(steps, owner) <= steps_total(steps),
    decreases steps.len(),
{
    if steps.len() > 0 {
        lemma_steps_nonneg(steps.drop_first(), owner);
    }
}

pub proof fn lemma_steps_total_push(steps: Seq<(QueueEntry, u128)>, s: (QueueEntry, u128))
    ensures
        steps_total(steps.push(s)) == steps_total(steps) + s.1,
{
    assert(steps.push(s) =~= steps + seq![s]);
    lemma_steps_total_concat(steps, seq![s]);
    assert(steps_total(seq![s]) == s.1) by {
        assert(steps_total(seq![s]) == seq![s][0].1 + steps_total(seq![s].drop_first()));
        assert(seq![s].drop_first() =~= Seq::<(QueueEntry, u128)>::empty());
    }
}

pub proof fn lemma_steps_owner_push(
    steps: Seq<(QueueEntry, u128)>,
    s: (QueueEntry, u128),
    owner: Seq<char>,
)
    ensures
        steps_owner(steps.push(s), owner) == steps_owner(steps, owner) + (if s.0.receiver
            == owner {
            s.1 as int
        } else {
            0
        }),
{
    assert(steps.push(s) =~= steps + seq![s]);
    lemma_steps_owner_concat(steps, seq![s], owner);
    assert(steps_owner(seq![s], owner) == (if s.0.receiver == owner {
        s.1 as int
    } else {
        0
    })) by {
        assert(steps_owner(seq![s], owner) == (if seq![s][0].0.receiver == owner {
            seq![s][0].1 as int
        } else {
            0
        }) + steps_owner(seq![s].drop_first(), owner));
        assert(seq![s][0] == s);
        assert(seq![s].drop_first() =~= Seq::<(QueueEntry, u128)>::empty());
    }
}

} // verus!
