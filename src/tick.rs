//! One tick of the host's scheduler: query the load gate, and while it is open run
//! the aggregation pass over every scene root, writing the marks as it goes.
use vstd::prelude::*;
use crate::gate::{GateState, GateStep, LoadStatus, combine_statuses, combined_status, gate_step};
use crate::ledger::{Ledger, with_marks};
use crate::pass::{PassOutcome, is_pass_outcome, run_pass};
use crate::scene::SceneGraph;

verus! {

/// What one tick did.
#[derive(Clone, Debug)]
pub struct TickOutcome {
    /// The load gate's query.
    pub step: GateStep,
    /// One pass per scene root, in the order given; none while the load gate is closed.
    pub passes: Vec<PassOutcome>,
}

/// The marks after the first `i` passes of `ps`, starting from `l`.
pub open spec fn marks_after(l: Set<usize>, ps: Seq<PassOutcome>, i: int) -> Set<usize>
    decreases i,
{
    if i <= 0 {
        l
    } else {
        with_marks(marks_after(l, ps, i - 1), ps[i - 1].to_mark@)
    }
}

/// Queries the load gate with the statuses of the tracked assets and, where it is
/// open after the query, runs a pass over each of `roots` in turn, each pass
/// seeing the marks of those before it.
pub fn run_tick(
    state: GateState,
    statuses: &Vec<LoadStatus>,
    g: &SceneGraph,
    ledger: &mut Ledger,
    roots: &Vec<usize>,
) -> (r: TickOutcome)
    ensures
        r.step == gate_step(state, combined_status(statuses@)),
        r.step.state == GateState::Loading ==> r.passes@.len() == 0 && final(ledger)@ == old(
            ledger,
        )@,
        r.step.state == GateState::AllLoaded ==> {
            &&& r.passes@.len() == roots@.len()
            &&& forall|i: int|
                0 <= i < roots@.len() ==> is_pass_outcome(
                    *g,
                    marks_after(old(ledger)@, r.passes@, i),
                    roots@[i],
                    #[trigger] r.passes@[i],
                )
            &&& final(ledger)@ == marks_after(old(ledger)@, r.passes@, roots@.len() as int)
        },
{
    let step = state.step(combine_statuses(statuses));
    let mut passes: Vec<PassOutcome> = Vec::new();
    if !step.state.is_open() {
        return TickOutcome { step, passes };
    }
    let ghost start = ledger@;
    let mut i: usize = 0;
    while i < roots.len()
        invariant
            i <= roots@.len(),
            passes@.len() == i,
            forall|k: int|
                0 <= k < i ==> is_pass_outcome(
                    *g,
                    marks_after(start, passes@, k),
                    roots@[k],
                    #[trigger] passes@[k],
                ),
            ledger@ == marks_after(start, passes@, i as int),
        decreases roots.len() - i,
    {
        let ghost before = passes@;
        let outcome = run_pass(g, ledger, roots[i]);
        passes.push(outcome);
        proof {
            assert forall|k: int| 0 <= k <= i implies marks_after(start, passes@, k) == marks_after(
                start,
                before,
                k,
            ) by {
                lemma_marks_after_prefix(start, before, passes@, k);
            }
            lemma_marks_after_prefix(start, before, passes@, i as int);
        }
        i = i + 1;
    }
    TickOutcome { step, passes }
}

proof fn lemma_marks_after_prefix(l: Set<usize>, a: Seq<PassOutcome>, b: Seq<PassOutcome>, k: int)
    requires
        0 <= k <= a.len(),
        a.len() <= b.len(),
        forall|j: int| 0 <= j < a.len() ==> a[j] == b[j],
    ensures
        marks_after(l, a, k) == marks_after(l, b, k),
    decreases k,
{
    if k > 0 {
        lemma_marks_after_prefix(l, a, b, k - 1);
    }
}

} // verus!
