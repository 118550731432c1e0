use bevy_scene_tools::gate::{combine_statuses, GateState, LoadStatus};

#[test]
fn gate_opens_once_when_all_loaded() {
    let ticks = vec![
        vec![LoadStatus::Pending, LoadStatus::Pending, LoadStatus::Pending],
        vec![LoadStatus::Loaded, LoadStatus::Pending, LoadStatus::Pending],
        vec![LoadStatus::Loaded, LoadStatus::Loaded, LoadStatus::Pending],
        vec![LoadStatus::Loaded, LoadStatus::Loaded, LoadStatus::Loaded],
        vec![LoadStatus::Loaded, LoadStatus::Loaded, LoadStatus::Loaded],
    ];
    let mut state = GateState::Loading;
    let mut opened_at = Vec::new();
    for (i, statuses) in ticks.iter().enumerate() {
        let step = state.step(combine_statuses(statuses));
        if step.opened {
            opened_at.push(i);
        }
        assert!(!step.load_failed);
        state = step.state;
        assert_eq!(state.is_open(), i >= 3);
    }
    assert_eq!(opened_at, vec![3]);
}

#[test]
fn gate_stays_closed_on_failure() {
    let statuses = vec![LoadStatus::Loaded, LoadStatus::Failed, LoadStatus::Loaded];
    assert_eq!(combine_statuses(&statuses), LoadStatus::Failed);
    let step = GateState::Loading.step(combine_statuses(&statuses));
    assert_eq!(step.state, GateState::Loading);
    assert!(step.load_failed);
    assert!(!step.opened);
    assert!(!step.state.is_open());
}

#[test]
fn open_gate_never_closes() {
    for s in [LoadStatus::Pending, LoadStatus::Failed, LoadStatus::Loaded] {
        let step = GateState::AllLoaded.step(s);
        assert_eq!(step.state, GateState::AllLoaded);
        assert!(!step.opened);
    }
}

#[test]
fn combined_status_cases() {
    assert_eq!(combine_statuses(&vec![]), LoadStatus::Loaded);
    assert_eq!(combine_statuses(&vec![LoadStatus::Loaded, LoadStatus::Pending]), LoadStatus::Pending);
    assert_eq!(combine_statuses(&vec![LoadStatus::Pending, LoadStatus::Failed]), LoadStatus::Failed);
    assert_eq!(combine_statuses(&vec![LoadStatus::Loaded; 4]), LoadStatus::Loaded);
}
