//! Aggregating the outcomes of the per-laser workers.
//!
//! One worker runs per laser configuration; the workers share nothing
//! mutable, and the run waits for every worker before judging the
//! whole batch. A failing worker must not hide the others' outcomes:
//! the aggregate names every failed configuration, and the run is a
//! success exactly when no worker failed.

use vstd::prelude::*;

use crate::sweep::NumericDomainError;

verus! {

/// Why one worker failed: its sweep rejected an input power, or its
/// report file could not be created or written.
#[derive(Debug, Clone, Copy, PartialEq, Eq, Structural)]
pub enum WorkerFailure {
    Numeric(NumericDomainError),
    OutputFile,
}

/// The positions of the failed workers in an outcome list, in
/// ascending order: one entry per worker that reported a failure.
pub open spec fn failing_indices_of(s: Seq<Option<WorkerFailure>>) -> Seq<usize>
    decreases s.len(),
{
    if s.len() == 0 {
        Seq::<usize>::empty()
    } else if s.last() is Some {
        failing_indices_of(s.drop_last()).push((s.len() - 1) as usize)
    } else {
        failing_indices_of(s.drop_last())
    }
}

/// The failing positions are exactly the positions holding a failure,
/// listed in ascending order.
pub proof fn lemma_failing_indices_exact(s: Seq<Option<WorkerFailure>>)
    requires
        s.len() <= usize::MAX,
    ensures
        forall|j: int|
            0 <= j < failing_indices_of(s).len() ==> #[trigger] failing_indices_of(s)[j]
                < s.len() && s[failing_indices_of(s)[j] as int] is Some,
        forall|i: int|
            0 <= i < s.len() && s[i] is Some ==> failing_indices_of(s).contains(i as usize),
        forall|j1: int, j2: int|
            0 <= j1 < j2 < failing_indices_of(s).len() ==> failing_indices_of(s)[j1]
                < failing_indices_of(s)[j2],
    decreases s.len(),
{
    if s.len() > 0 {
        let t = s.drop_last();
        lemma_failing_indices_exact(t);
        let f = failing_indices_of(s);
        let ft = failing_indices_of(t);
        assert forall|i: int| 0 <= i < s.len() && s[i] is Some implies f.contains(i as usize) by {
            if i < s.len() - 1 {
                assert(t[i] == s[i]);
                assert(ft.contains(i as usize));
                let j = choose|j: int| 0 <= j < ft.len() && ft[j] == i as usize;
                assert(f[j] == i as usize);
            } else {
                assert(s.last() is Some);
                assert(f.last() == i as usize);
            }
        }
    }
}

/// A batch has no failing position exactly when every worker
/// succeeded.
pub proof fn lemma_no_failures(s: Seq<Option<WorkerFailure>>)
    ensures
        failing_indices_of(s).len() == 0 <==> (forall|i: int| 0 <= i < s.len() ==> s[i] is None),
    decreases s.len(),
{
    if s.len() > 0 {
        let t = s.drop_last();
        lemma_no_failures(t);
        assert(forall|i: int| 0 <= i < t.len() ==> #[trigger] t[i] == s[i]);
        if failing_indices_of(s).len() == 0 {
            assert(s.last() is None);
            assert forall|i: int| 0 <= i < s.len() implies #[trigger] s[i] is None by {
                if i < s.len() - 1 {
                    assert(t[i] is None);
                }
            }
        }
    }
}

/// Collects the positions of the failed workers, in worker order. The
/// run as a whole succeeded exactly when the result is empty, and a
/// failing worker never hides another's outcome.
pub fn failed_indices(outcomes: &Vec<Option<WorkerFailure>>) -> (r: Vec<usize>)
    ensures
        r@ == failing_indices_of(outcomes@),
{
    let mut r: Vec<usize> = Vec::new();
    let mut i: usize = 0;
    proof {
        assert(outcomes@.take(0) =~= Seq::<Option<WorkerFailure>>::empty());
    }
    while i < outcomes.len()
        invariant
            i <= outcomes@.len(),
            r@ == failing_indices_of(outcomes@.take(i as int)),
        decreases outcomes@.len() - i,
    {
        let failed = match &outcomes[i] {
            Option::Some(_) => true,
            Option::None => false,
        };
        proof {
            let next = outcomes@.take(i as int + 1);
            assert(next.drop_last() =~= outcomes@.take(i as int));
            assert(next.last() == outcomes@[i as int]);
        }
        if failed {
            r.push(i);
        }
        i = i + 1;
    }
    proof {
        assert(outcomes@.take(outcomes@.len() as int) =~= outcomes@);
    }
    r
}

} // verus!
