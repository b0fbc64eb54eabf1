use migration::error::MigrationError;
use migration::status::{MigrationStatus, StatusMachine};

fn all() -> [MigrationStatus; 6] {
    [
        MigrationStatus::Idle,
        MigrationStatus::Setup,
        MigrationStatus::Active,
        MigrationStatus::Completed,
        MigrationStatus::Failed,
        MigrationStatus::Canceled,
    ]
}

fn expected(from: MigrationStatus, to: MigrationStatus) -> bool {
    match (from, to) {
        (_, MigrationStatus::Failed) => true,
        (MigrationStatus::Idle, MigrationStatus::Setup) => true,
        (MigrationStatus::Completed, MigrationStatus::Setup) => true,
        (MigrationStatus::Failed, MigrationStatus::Setup) => true,
        (MigrationStatus::Canceled, MigrationStatus::Setup) => true,
        (MigrationStatus::Setup, MigrationStatus::Active) => true,
        (MigrationStatus::Active, MigrationStatus::Completed) => true,
        (MigrationStatus::Active, MigrationStatus::Canceled) => true,
        _ => false,
    }
}

#[test]
fn every_transition_is_taken_or_refused_as_listed() {
    for from in all() {
        for to in all() {
            assert_eq!(from.can_become(to), expected(from, to), "{:?} -> {:?}", from, to);
            let r = from.transition(to);
            if expected(from, to) {
                assert_eq!(r, Ok(to));
            } else {
                assert_eq!(r, Err(MigrationError::InvalidState { from, to }));
            }
        }
    }
}

#[test]
fn a_new_machine_is_idle() {
    let m = StatusMachine::new();
    assert_eq!(m.status(), MigrationStatus::Idle);
}

#[test]
fn the_usual_course_of_a_migration() {
    let mut m = StatusMachine::new();
    assert_eq!(m.set_status(MigrationStatus::Setup), Ok(()));
    assert_eq!(m.set_status(MigrationStatus::Active), Ok(()));
    assert_eq!(m.set_status(MigrationStatus::Completed), Ok(()));
    assert_eq!(m.status(), MigrationStatus::Completed);
    assert_eq!(m.set_status(MigrationStatus::Setup), Ok(()));
    assert_eq!(m.status(), MigrationStatus::Setup);
}

#[test]
fn a_refused_transition_leaves_the_status() {
    let mut m = StatusMachine::new();
    assert_eq!(
        m.set_status(MigrationStatus::Active),
        Err(MigrationError::InvalidState {
            from: MigrationStatus::Idle,
            to: MigrationStatus::Active
        })
    );
    assert_eq!(m.status(), MigrationStatus::Idle);
    assert_eq!(m.set_status(MigrationStatus::Setup), Ok(()));
    assert_eq!(
        m.set_status(MigrationStatus::Setup),
        Err(MigrationError::InvalidState {
            from: MigrationStatus::Setup,
            to: MigrationStatus::Setup
        })
    );
    assert_eq!(m.status(), MigrationStatus::Setup);
    assert_eq!(m.set_status(MigrationStatus::Active), Ok(()));
    assert_eq!(
        m.set_status(MigrationStatus::Setup),
        Err(MigrationError::InvalidState {
            from: MigrationStatus::Active,
            to: MigrationStatus::Setup
        })
    );
    assert_eq!(m.status(), MigrationStatus::Active);
}

#[test]
fn failure_can_be_raised_from_anywhere() {
    for from in all() {
        assert_eq!(from.transition(MigrationStatus::Failed), Ok(MigrationStatus::Failed));
    }
}

#[test]
fn nothing_leads_back_to_idle() {
    for from in all() {
        assert!(from.transition(MigrationStatus::Idle).is_err());
    }
}

#[test]
fn status_names() {
    assert_eq!(MigrationStatus::Idle.name(), "none");
    assert_eq!(MigrationStatus::Setup.name(), "setup");
    assert_eq!(MigrationStatus::Active.name(), "active");
    assert_eq!(MigrationStatus::Completed.name(), "completed");
    assert_eq!(MigrationStatus::Failed.name(), "failed");
    assert_eq!(MigrationStatus::Canceled.name(), "canceled");
}

#[test]
fn error_classes() {
    assert_eq!(MigrationError::InvalidConfig.class(), "InvalidConfig");
    assert_eq!(
        MigrationError::InvalidState {
            from: MigrationStatus::Idle,
            to: MigrationStatus::Active
        }
        .class(),
        "InvalidState"
    );
    assert_eq!(MigrationError::Corrupt.class(), "Corrupt");
    assert_eq!(MigrationError::Transport.class(), "Transport");
    assert_eq!(MigrationError::Io.class(), "Io");
}
