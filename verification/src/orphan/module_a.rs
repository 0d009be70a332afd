//! The ordering of [`Entity`], in which `Y` comes before `X`, and the sort
//! that is built on it.
use crate::orphan::model::Entity;
use std::cmp::Ordering;
use vstd::prelude::*;
use vstd::std_specs::cmp::PartialOrdSpecImpl;

verus! {

/// The place of an entity in the ordering: `Y` first, then `X`.
pub open spec fn rank(e: Entity) -> nat {
    match e {
        Entity::Y => 0,
        Entity::X => 1,
    }
}

impl PartialOrd for Entity {
    fn partial_cmp(&self, other: &Self) -> (order: Option<Ordering>) {
        match (self, other) {
            (Entity::X, Entity::X) | (Entity::Y, Entity::Y) => Some(Ordering::Equal),
            (Entity::X, Entity::Y) => Some(Ordering::Greater),
            (Entity::Y, Entity::X) => Some(Ordering::Less),
        }
    }
}

impl PartialOrdSpecImpl for Entity {
    open spec fn obeys_partial_cmp_spec() -> bool {
        true
    }

    open spec fn partial_cmp_spec(&self, other: &Self) -> Option<Ordering> {
        if rank(*self) < rank(*other) {
            Some(Ordering::Less)
        } else if rank(*self) > rank(*other) {
            Some(Ordering::Greater)
        } else {
            Some(Ordering::Equal)
        }
    }
}

/// How many of the entities are `Y`.
pub open spec fn count_y(s: Seq<Entity>) -> nat
    decreases s.len(),
{
    if s.len() == 0 {
        0
    } else {
        count_y(s.drop_last()) + if s.last() == Entity::Y {
            1nat
        } else {
            0nat
        }
    }
}

/// Whether the entities stand in order: no `X` before a `Y`.
pub open spec fn is_prioritized(s: Seq<Entity>) -> bool {
    forall|i: int, j: int| 0 <= i <= j < s.len() ==> rank(s[i]) <= rank(s[j])
}

/// The entities of `s` in order: as many `Y` as `s` holds, then `X` up to the
/// length of `s`.
pub open spec fn prioritized(s: Seq<Entity>) -> Seq<Entity> {
    Seq::new(
        s.len(),
        |i: int|
            if i < count_y(s) {
                Entity::Y
            } else {
                Entity::X
            },
    )
}

/// No sequence holds more `Y` than it has elements.
pub proof fn lemma_count_y_bound(s: Seq<Entity>)
    ensures
        count_y(s) <= s.len(),
    decreases s.len(),
{
    if s.len() > 0 {
        lemma_count_y_bound(s.drop_last());
    }
}

/// A run of `y` times `Y` followed by `X` holds `y` times `Y`, as far as it
/// is long enough.
proof fn lemma_count_y_of_run(n: nat, y: nat)
    requires
        y <= n,
    ensures
        count_y(
            Seq::new(
                n,
                |i: int|
                    if i < y {
                        Entity::Y
                    } else {
                        Entity::X
                    },
            ),
        ) == y,
    decreases n,
{
    let run = Seq::new(
        n,
        |i: int|
            if i < y {
                Entity::Y
            } else {
                Entity::X
            },
    );
    if n > 0 {
        let shorter_y = if y == n {
            (n - 1) as nat
        } else {
            y
        };
        let shorter = Seq::new(
            (n - 1) as nat,
            |i: int|
                if i < shorter_y {
                    Entity::Y
                } else {
                    Entity::X
                },
        );
        assert(run.drop_last() =~= shorter);
        lemma_count_y_of_run((n - 1) as nat, shorter_y);
    }
}

/// Sorting keeps what is there and puts it in order: the result has the
/// length and the number of `Y` of the input, and is prioritized.
pub proof fn lemma_prioritized_is_sorted_rearrangement(s: Seq<Entity>)
    ensures
        prioritized(s).len() == s.len(),
        count_y(prioritized(s)) == count_y(s),
        is_prioritized(prioritized(s)),
{
    lemma_count_y_bound(s);
    lemma_count_y_of_run(s.len(), count_y(s));
}

/// Sorting twice is sorting once.
pub proof fn lemma_prioritize_idempotent(s: Seq<Entity>)
    ensures
        prioritized(prioritized(s)) == prioritized(s),
{
    lemma_prioritized_is_sorted_rearrangement(s);
    assert(prioritized(prioritized(s)) =~= prioritized(s));
}

/// Sorts the entities by their ordering: every `Y` before every `X`.
pub fn prioritize(entities: &mut [Entity])
    ensures
        final(entities)@ == prioritized(old(entities)@),
{
    let n: usize = entities.len();
    let mut ys: usize = 0;
    let mut i: usize = 0;
    while i < n
        invariant
            n == entities@.len(),
            i <= n,
            ys == count_y(entities@.take(i as int)),
            ys <= i,
        decreases n - i,
    {
        proof {
            assert(entities@.take(i + 1).drop_last() =~= entities@.take(i as int));
        }
        if entities[i] == Entity::Y {
            ys = ys + 1;
        }
        i = i + 1;
    }
    proof {
        assert(entities@.take(n as int) =~= entities@);
    }
    let ghost before = entities@;
    let mut k: usize = 0;
    while k < n
        invariant
            n == entities@.len(),
            n == before.len(),
            k <= n,
            ys == count_y(before),
            forall|j: int| 0 <= j < k ==> entities@[j] == prioritized(before)[j],
        decreases n - k,
    {
        if k < ys {
            entities[k] = Entity::Y;
        } else {
            entities[k] = Entity::X;
        }
        k = k + 1;
    }
    proof {
        assert(entities@ =~= prioritized(before));
    }
}

} // verus!
