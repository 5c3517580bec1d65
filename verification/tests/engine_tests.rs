use hfsm::character::{CharacterEvents, CharacterExtended, CharacterStates};
use hfsm::engine::{State, FSM};

fn leaf_of(state: &State<CharacterStates>) -> CharacterStates {
    match state {
        State::Composite(st) => *st,
        State::Orthogonal(_) => panic!("expected a composite leaf"),
    }
}

fn regions_of(state: &State<CharacterStates>) -> &Vec<State<CharacterStates>> {
    match state {
        State::Composite(_) => panic!("expected an orthogonal node"),
        State::Orthogonal(rs) => rs,
    }
}

#[test]
fn scenario_idle_to_jump() {
    let mut fsm = FSM::new(
        State::Composite(CharacterStates::Idle),
        CharacterExtended {},
    );

    assert!(fsm.event(&CharacterEvents::WishDirection));
    assert_eq!(leaf_of(&fsm.state), CharacterStates::Walk);

    assert!(fsm.event(&CharacterEvents::WishDirection));
    assert_eq!(leaf_of(&fsm.state), CharacterStates::Run);

    assert!(fsm.event(&CharacterEvents::Jump));
    assert_eq!(leaf_of(&fsm.state), CharacterStates::Jump);

    assert!(!fsm.event(&CharacterEvents::Jump));
    assert_eq!(leaf_of(&fsm.state), CharacterStates::Jump);
}

#[test]
fn absorbed_event_changes_nothing() {
    let mut fsm = FSM::new(
        State::Composite(CharacterStates::Fall),
        CharacterExtended {},
    );
    assert!(!fsm.event(&CharacterEvents::WishDirection));
    assert_eq!(leaf_of(&fsm.state), CharacterStates::Fall);
    assert!(!fsm.event(&CharacterEvents::Jump));
    assert_eq!(leaf_of(&fsm.state), CharacterStates::Fall);
}

#[test]
fn transition_is_deterministic_regardless_of_history() {
    // A fresh machine in Walk and a machine that walked its way there
    // react to the same event in the same way.
    let mut fresh = FSM::new(
        State::Composite(CharacterStates::Walk),
        CharacterExtended {},
    );
    let mut travelled = FSM::new(
        State::Composite(CharacterStates::Idle),
        CharacterExtended {},
    );
    assert!(travelled.event(&CharacterEvents::WishDirection));
    assert_eq!(leaf_of(&travelled.state), CharacterStates::Walk);

    assert!(fresh.event(&CharacterEvents::Jump));
    assert!(travelled.event(&CharacterEvents::Jump));
    assert_eq!(leaf_of(&fresh.state), CharacterStates::Jump);
    assert_eq!(leaf_of(&travelled.state), CharacterStates::Jump);
}

#[test]
fn orthogonal_first_match_wins() {
    // Both regions would transition on WishDirection; only the first does.
    let mut fsm = FSM::new(
        State::Orthogonal(vec![
            State::Composite(CharacterStates::Idle),
            State::Composite(CharacterStates::Walk),
        ]),
        CharacterExtended {},
    );
    assert!(fsm.event(&CharacterEvents::WishDirection));
    let rs = regions_of(&fsm.state);
    assert_eq!(rs.len(), 2);
    assert_eq!(leaf_of(&rs[0]), CharacterStates::Walk);
    assert_eq!(leaf_of(&rs[1]), CharacterStates::Walk);
}

#[test]
fn orthogonal_pass_through() {
    // Only the second region has a matching transition; the first absorbs
    // the event unchanged and the second one transitions.
    let mut fsm = FSM::new(
        State::Orthogonal(vec![
            State::Composite(CharacterStates::Jump),
            State::Composite(CharacterStates::Idle),
        ]),
        CharacterExtended {},
    );
    assert!(fsm.event(&CharacterEvents::WishDirection));
    let rs = regions_of(&fsm.state);
    assert_eq!(rs.len(), 2);
    assert_eq!(leaf_of(&rs[0]), CharacterStates::Jump);
    assert_eq!(leaf_of(&rs[1]), CharacterStates::Walk);
}

#[test]
fn orthogonal_no_region_matches() {
    let mut fsm = FSM::new(
        State::Orthogonal(vec![
            State::Composite(CharacterStates::Jump),
            State::Composite(CharacterStates::Fall),
        ]),
        CharacterExtended {},
    );
    assert!(!fsm.event(&CharacterEvents::WishDirection));
    let rs = regions_of(&fsm.state);
    assert_eq!(leaf_of(&rs[0]), CharacterStates::Jump);
    assert_eq!(leaf_of(&rs[1]), CharacterStates::Fall);
}

#[test]
fn orthogonal_empty_absorbs_everything() {
    let mut fsm = FSM::new(State::Orthogonal(vec![]), CharacterExtended {});
    assert!(!fsm.event(&CharacterEvents::WishDirection));
    assert!(!fsm.event(&CharacterEvents::Jump));
    assert_eq!(regions_of(&fsm.state).len(), 0);
}

#[test]
fn nested_orthogonal_short_circuits_outer_regions() {
    // The inner parallel node changes (its second region transitions), so
    // the outer node stops there and its second region never sees the event.
    let mut fsm = FSM::new(
        State::Orthogonal(vec![
            State::Orthogonal(vec![
                State::Composite(CharacterStates::Fall),
                State::Composite(CharacterStates::Idle),
            ]),
            State::Composite(CharacterStates::Idle),
        ]),
        CharacterExtended {},
    );
    assert!(fsm.event(&CharacterEvents::WishDirection));
    let rs = regions_of(&fsm.state);
    assert_eq!(rs.len(), 2);
    let inner = regions_of(&rs[0]);
    assert_eq!(leaf_of(&inner[0]), CharacterStates::Fall);
    assert_eq!(leaf_of(&inner[1]), CharacterStates::Walk);
    assert_eq!(leaf_of(&rs[1]), CharacterStates::Idle);
}

#[test]
fn exhausted_path_stays_put() {
    let mut fsm = FSM::new(
        State::Composite(CharacterStates::Idle),
        CharacterExtended {},
    );
    assert!(fsm.event(&CharacterEvents::Jump));
    assert_eq!(leaf_of(&fsm.state), CharacterStates::Jump);
    for _ in 0..5 {
        assert!(!fsm.event(&CharacterEvents::Jump));
        assert_eq!(leaf_of(&fsm.state), CharacterStates::Jump);
    }
}

#[test]
fn state_next_reports_change() {
    let mut node = State::Composite(CharacterStates::Idle);
    let ex = CharacterExtended {};
    assert!(node.next(&CharacterEvents::WishDirection, &ex));
    assert_eq!(leaf_of(&node), CharacterStates::Walk);
    assert!(node.next(&CharacterEvents::Jump, &ex));
    assert_eq!(leaf_of(&node), CharacterStates::Jump);
}

#[test]
fn new_machine_holds_what_it_was_given() {
    let fsm = FSM::new(
        State::Composite(CharacterStates::Run),
        CharacterExtended {},
    );
    assert_eq!(leaf_of(&fsm.state), CharacterStates::Run);
    assert_eq!(fsm.extended, CharacterExtended {});
}
