//! The load-completion gate: aggregation waits until every tracked geometry
//! asset has loaded. The load gate moves from `Loading` to `AllLoaded` once, on the
//! first query at which all tracked handles report success, and never back.
use vstd::prelude::*;

verus! {

/// What the host reports for a tracked asset, or for a set of them.
#[derive(Clone, Copy, Debug, PartialEq, Eq, Structural)]
pub enum LoadStatus {
    Pending,
    Loaded,
    Failed,
}

#[derive(Clone, Copy, Debug, PartialEq, Eq, Structural)]
pub enum GateState {
    Loading,
    AllLoaded,
}

/// The result of one query of the load gate.
#[derive(Clone, Copy, Debug, PartialEq, Eq, Structural)]
pub struct GateStep {
    /// The state after the query.
    pub state: GateState,
    /// The load gate opened on this query.
    pub opened: bool,
    /// A tracked asset failed to load; the load gate stays closed.
    pub load_failed: bool,
}

/// The status of a set of assets: failed if any failed, else loaded if all
/// loaded (an empty set included), else pending.
pub open spec fn combined_status(s: Seq<LoadStatus>) -> LoadStatus {
    if exists|i: int| 0 <= i < s.len() && s[i] == LoadStatus::Failed {
        LoadStatus::Failed
    } else if forall|i: int| 0 <= i < s.len() ==> s[i] == LoadStatus::Loaded {
        LoadStatus::Loaded
    } else {
        LoadStatus::Pending
    }
}

pub open spec fn gate_step(state: GateState, status: LoadStatus) -> GateStep {
    match state {
        GateState::AllLoaded => GateStep {
            state: GateState::AllLoaded,
            opened: false,
            load_failed: false,
        },
        GateState::Loading => match status {
            LoadStatus::Loaded => GateStep {
                state: GateState::AllLoaded,
                opened: true,
                load_failed: false,
            },
            LoadStatus::Failed => GateStep {
                state: GateState::Loading,
                opened: false,
                load_failed: true,
            },
            LoadStatus::Pending => GateStep {
                state: GateState::Loading,
                opened: false,
                load_failed: false,
            },
        },
    }
}

/// The load gate's state after the statuses `polls`, one per query, from `state`.
pub open spec fn gate_after(state: GateState, polls: Seq<LoadStatus>) -> GateState
    decreases polls.len(),
{
    if polls.len() == 0 {
        state
    } else {
        gate_step(gate_after(state, polls.drop_last()), polls.last()).state
    }
}

/// Combines the statuses of the tracked assets into one.
pub fn combine_statuses(statuses: &Vec<LoadStatus>) -> (r: LoadStatus)
    ensures
        r == combined_status(statuses@),
{
    let mut all_loaded = true;
    let mut i: usize = 0;
    while i < statuses.len()
        invariant
            i <= statuses.len(),
            forall|k: int| 0 <= k < i ==> statuses@[k] != LoadStatus::Failed,
            all_loaded <==> forall|k: int| 0 <= k < i ==> statuses@[k] == LoadStatus::Loaded,
        decreases statuses.len() - i,
    {
        match statuses[i] {
            LoadStatus::Failed => {
                return LoadStatus::Failed;
            },
            LoadStatus::Pending => {
                all_loaded = false;
            },
            LoadStatus::Loaded => {},
        }
        i = i + 1;
    }
    if all_loaded {
        LoadStatus::Loaded
    } else {
        LoadStatus::Pending
    }
}

impl GateState {
    /// Aggregation may run.
    pub fn is_open(&self) -> (r: bool)
        ensures
            r == (*self == GateState::AllLoaded),
    {
        match self {
            GateState::AllLoaded => true,
            GateState::Loading => false,
        }
    }

    /// One query: the load gate opens on a `Loaded` status while loading, reports a
    /// failure and stays closed on `Failed`, and once open stays open.
    pub fn step(self, status: LoadStatus) -> (r: GateStep)
        ensures
            r == gate_step(self, status),
    {
        match self {
            GateState::AllLoaded => GateStep {
                state: GateState::AllLoaded,
                opened: false,
                load_failed: false,
            },
            GateState::Loading => match status {
                LoadStatus::Loaded => GateStep {
                    state: GateState::AllLoaded,
                    opened: true,
                    load_failed: false,
                },
                LoadStatus::Failed => GateStep {
                    state: GateState::Loading,
                    opened: false,
                    load_failed: true,
                },
                LoadStatus::Pending => GateStep {
                    state: GateState::Loading,
                    opened: false,
                    load_failed: false,
                },
            },
        }
    }
}

/// From `Loading`, the load gate is open after a run of queries exactly when
/// one of them reported `Loaded`: it does not open earlier, and once open it
/// stays open whatever is reported later.
pub proof fn lemma_gate_after_loading(polls: Seq<LoadStatus>)
    ensures
        gate_after(GateState::Loading, polls) == GateState::AllLoaded <==> exists|k: int|
            0 <= k < polls.len() && polls[k] == LoadStatus::Loaded,
    decreases polls.len(),
{
    if polls.len() > 0 {
        let p = polls.drop_last();
        lemma_gate_after_loading(p);
        if exists|k: int| 0 <= k < p.len() && p[k] == LoadStatus::Loaded {
            let k = choose|k: int| 0 <= k < p.len() && p[k] == LoadStatus::Loaded;
            assert(polls[k] == LoadStatus::Loaded);
        }
        if exists|k: int| 0 <= k < polls.len() && polls[k] == LoadStatus::Loaded {
            let k = choose|k: int| 0 <= k < polls.len() && polls[k] == LoadStatus::Loaded;
            if k < p.len() {
                assert(p[k] == LoadStatus::Loaded);
            }
        }
    }
}

/// Over any run of queries from `Loading`, the load gate opens at query `i` exactly
/// when that query reports `Loaded` and no earlier one did; so it opens at
/// most once, and on the first query at which everything has loaded.
pub proof fn lemma_gate_opens_once(polls: Seq<LoadStatus>, i: int)
    requires
        0 <= i < polls.len(),
    ensures
        gate_step(gate_after(GateState::Loading, polls.take(i)), polls[i]).opened <==> {
            &&& polls[i] == LoadStatus::Loaded
            &&& forall|k: int| 0 <= k < i ==> polls[k] != LoadStatus::Loaded
        },
{
    let p = polls.take(i);
    lemma_gate_after_loading(p);
    if exists|k: int| 0 <= k < i && polls[k] == LoadStatus::Loaded {
        let k = choose|k: int| 0 <= k < i && polls[k] == LoadStatus::Loaded;
        assert(p[k] == LoadStatus::Loaded);
    }
}

} // verus!
