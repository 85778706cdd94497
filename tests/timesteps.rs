use gbpplanner::timesteps::get_variable_timesteps;

#[test]
fn test_get_variable_timesteps() {
    let lookahead_horizon = 30;
    let lookahead_multiple = 3;

    assert_eq!(
        get_variable_timesteps(lookahead_horizon, lookahead_multiple),
        vec![0, 1, 2, 3, 5, 7, 9, 12, 15, 18, 22, 26, 30]
    );

    let lookahead_horizon = 60;
    let lookahead_multiple = 3;
    assert_eq!(
        get_variable_timesteps(lookahead_horizon, lookahead_multiple),
        vec![0, 1, 2, 3, 5, 7, 9, 12, 15, 18, 22, 26, 30, 35, 40, 45, 51, 57, 60]
    );

    let lookahead_horizon = 10;
    let lookahead_multiple = 3;
    assert_eq!(
        get_variable_timesteps(lookahead_horizon, lookahead_multiple),
        vec![0, 1, 2, 3, 5, 7, 9, 10]
    );

    let lookahead_horizon = 20;
    let lookahead_multiple = 5;
    assert_eq!(
        get_variable_timesteps(lookahead_horizon, lookahead_multiple),
        vec![0, 1, 2, 3, 4, 5, 7, 9, 11, 13, 15, 18, 20],
    );
}

#[test]
fn timesteps_documented_example() {
    assert_eq!(get_variable_timesteps(20, 3), vec![0, 1, 2, 3, 5, 7, 9, 12, 15, 18, 20]);
}

#[test]
fn timesteps_short_horizons() {
    assert_eq!(get_variable_timesteps(0, 3), vec![0]);
    assert_eq!(get_variable_timesteps(1, 3), vec![0]);
    assert_eq!(get_variable_timesteps(1, 0), vec![0]);
    assert_eq!(get_variable_timesteps(2, 1), vec![0, 1]);
    assert_eq!(get_variable_timesteps(3, 1), vec![0, 1, 3]);
    assert_eq!(get_variable_timesteps(4, 1), vec![0, 1, 3, 4]);
}

#[test]
fn timesteps_large_multiple_never_reaches_horizon() {
    assert_eq!(get_variable_timesteps(5, 100), vec![0, 1, 2, 3, 4]);
}

#[test]
fn timesteps_large_horizon_ends_at_horizon() {
    let ts = get_variable_timesteps(u32::MAX, 1);
    assert_eq!(ts[0], 0);
    assert_eq!(*ts.last().unwrap(), u32::MAX);
    for w in ts.windows(2) {
        assert!(w[0] < w[1]);
    }
}
