use npb_cg::driver::{step, Action, Event, Phase};

#[test]
fn driver_full_run() {
    let niter = 3;
    let mut phase = Phase::Init;
    let mut actions = Vec::new();
    let events = [
        Event::Started,
        Event::MatrixReady,
        Event::Solved,
        Event::Reset,
        Event::Solved,
        Event::Updated,
        Event::Solved,
        Event::Updated,
        Event::Solved,
        Event::Updated,
        Event::Compared,
    ];
    for e in events {
        let (p, a) = step(phase, e, niter);
        phase = p;
        actions.push(a);
    }
    assert_eq!(phase, Phase::Done);
    assert_eq!(
        actions,
        vec![
            Action::Synthesize,
            Action::Solve { timed: false },
            Action::ResetIterate,
            Action::Solve { timed: true },
            Action::Update { it: 1 },
            Action::Solve { timed: true },
            Action::Update { it: 2 },
            Action::Solve { timed: true },
            Action::Update { it: 3 },
            Action::Compare,
            Action::Report,
        ]
    );
}

#[test]
fn driver_counts_the_timed_solves() {
    for niter in [1u32, 2, 15, 75, 100] {
        let mut phase = Phase::Init;
        let mut action = step(phase, Event::Started, niter).1;
        let mut timed = 0;
        let mut warm = 0;
        let mut updates = Vec::new();
        let mut guard = 0;
        while phase != Phase::Done {
            let event = match action {
                Action::Synthesize => Event::MatrixReady,
                Action::Solve { timed: t } => {
                    if t {
                        timed += 1;
                    } else {
                        warm += 1;
                    }
                    Event::Solved
                }
                Action::ResetIterate => Event::Reset,
                Action::Update { it } => {
                    updates.push(it);
                    Event::Updated
                }
                Action::Compare => Event::Compared,
                Action::Report | Action::Abort | Action::Ignore => unreachable!(),
            };
            let (p, a) = step(phase, event, niter);
            phase = p;
            action = a;
            guard += 1;
            assert!(guard < 1000);
        }
        assert_eq!(action, Action::Report);
        assert_eq!(timed, niter);
        assert_eq!(warm, 1);
        assert_eq!(updates, (1..=niter).collect::<Vec<u32>>());
    }
}

#[test]
fn driver_without_outer_iterations_goes_straight_to_verification() {
    assert_eq!(step(Phase::WarmupSolve, Event::Reset, 0), (Phase::Verify, Action::Compare));
}

#[test]
fn driver_last_iteration_leads_to_verification() {
    assert_eq!(
        step(Phase::MainLoop { it: 14 }, Event::Updated, 15),
        (Phase::MainLoop { it: 15 }, Action::Solve { timed: true })
    );
    assert_eq!(step(Phase::MainLoop { it: 15 }, Event::Updated, 15), (Phase::Verify, Action::Compare));
    assert_eq!(
        step(Phase::MainLoop { it: u32::MAX }, Event::Updated, u32::MAX),
        (Phase::Verify, Action::Compare)
    );
}

#[test]
fn driver_aborts_when_the_matrix_fails() {
    assert_eq!(step(Phase::Init, Event::MatrixFailed, 15), (Phase::Aborted, Action::Abort));
    for e in [
        Event::Started,
        Event::MatrixReady,
        Event::MatrixFailed,
        Event::Solved,
        Event::Reset,
        Event::Updated,
        Event::Compared,
    ] {
        assert_eq!(step(Phase::Aborted, e, 15), (Phase::Aborted, Action::Ignore));
        assert_eq!(step(Phase::Done, e, 15), (Phase::Done, Action::Ignore));
    }
}

#[test]
fn driver_ignores_events_out_of_turn() {
    assert_eq!(step(Phase::Init, Event::Solved, 15), (Phase::Init, Action::Ignore));
    assert_eq!(step(Phase::WarmupSolve, Event::Updated, 15), (Phase::WarmupSolve, Action::Ignore));
    assert_eq!(step(Phase::WarmupSolve, Event::MatrixReady, 15), (Phase::WarmupSolve, Action::Ignore));
    assert_eq!(
        step(Phase::MainLoop { it: 2 }, Event::Reset, 15),
        (Phase::MainLoop { it: 2 }, Action::Ignore)
    );
    assert_eq!(step(Phase::Verify, Event::Solved, 15), (Phase::Verify, Action::Ignore));
}
