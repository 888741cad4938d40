use phenosim::{check_length, check_number, check_shape, CheckError, Counts, ParamError};

#[test]
fn check_number_accepts_inside_range() {
    assert_eq!(check_number(0, 0..3), Ok(()));
    assert_eq!(check_number(2, 0..3), Ok(()));
    assert_eq!(check_number(1, 1..100), Ok(()));
}

#[test]
fn check_number_rejects_end_and_below_start() {
    assert_eq!(
        check_number(3, 0..3),
        Err(CheckError::OutOfRange { val: 3, start: 0, end: 3 })
    );
    assert_eq!(
        check_number(0, 1..100),
        Err(CheckError::OutOfRange { val: 0, start: 1, end: 100 })
    );
    assert!(check_number(5, 5..5).is_err());
}

#[test]
fn check_length_compares_lengths() {
    assert_eq!(check_length(4, 4), Ok(()));
    assert_eq!(check_length(3, 4), Err(CheckError::WrongLength { len: 3, exp_len: 4 }));
}

#[test]
fn check_shape_reports_shape_then_squareness() {
    assert_eq!(check_shape((2, 3), (2, 3), false), Ok(()));
    assert_eq!(
        check_shape((2, 2), (2, 3), false),
        Err(CheckError::WrongShape { dim: (2, 2), exp_dim: (2, 3) })
    );
    assert_eq!(
        check_shape((2, 3), (2, 3), true),
        Err(CheckError::NotSquare { rows: 2, cols: 3 })
    );
    assert_eq!(check_shape((3, 3), (3, 3), true), Ok(()));
}

fn counts() -> Counts {
    Counts { n_env: 2, n_phe: 3, n_agt_init: 10, steps_per_save: 5, saves_per_file: 4 }
}

#[test]
fn counts_accepts_valid_configuration() {
    assert_eq!(counts().check(), Ok(()));
    let top = Counts {
        n_env: 99,
        n_phe: 99,
        n_agt_init: 99_999,
        steps_per_save: 9_999,
        saves_per_file: 9_999,
    };
    assert_eq!(top.check(), Ok(()));
}

#[test]
fn counts_reports_first_bad_count() {
    let mut c = counts();
    c.n_env = 0;
    c.n_phe = 0;
    assert!(matches!(c.check(), Err(ParamError::Environments(_))));
    let mut c = counts();
    c.n_phe = 100;
    assert!(matches!(c.check(), Err(ParamError::Phenotypes(_))));
    let mut c = counts();
    c.n_agt_init = 100_000;
    assert!(matches!(c.check(), Err(ParamError::InitialAgents(_))));
    let mut c = counts();
    c.steps_per_save = 0;
    assert!(matches!(c.check(), Err(ParamError::StepsPerSave(_))));
    let mut c = counts();
    c.saves_per_file = 10_000;
    assert_eq!(
        c.check(),
        Err(ParamError::SavesPerFile(CheckError::OutOfRange { val: 10_000, start: 1, end: 10_000 }))
    );
}
