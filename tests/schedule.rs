use gbpplanner::schedule::{GbpScheduleAtIteration, GbpScheduleParams, SoonAsPossible, SoonAsPossibleIter};

fn ts(internal: bool, external: bool) -> GbpScheduleAtIteration {
    GbpScheduleAtIteration { internal, external }
}

#[test]
fn internal_greater_than_external() {
    let config = GbpScheduleParams {
        internal: 10,
        external: 5,
    };
    let mut schedule = SoonAsPossible::schedule(config);
    assert_eq!(schedule.next(), Some(ts(true, true)));
    assert_eq!(schedule.next(), Some(ts(true, true)));
    assert_eq!(schedule.next(), Some(ts(true, true)));
    assert_eq!(schedule.next(), Some(ts(true, true)));
    assert_eq!(schedule.next(), Some(ts(true, true)));

    assert_eq!(schedule.next(), Some(ts(true, false)));
    assert_eq!(schedule.next(), Some(ts(true, false)));
    assert_eq!(schedule.next(), Some(ts(true, false)));
    assert_eq!(schedule.next(), Some(ts(true, false)));
    assert_eq!(schedule.next(), Some(ts(true, false)));

    assert_eq!(schedule.next(), None);
}

#[test]
fn internal_less_than_external() {
    let config = GbpScheduleParams {
        internal: 3,
        external: 6,
    };
    let mut schedule = SoonAsPossible::schedule(config);
    assert_eq!(schedule.next(), Some(ts(true, true)));
    assert_eq!(schedule.next(), Some(ts(true, true)));
    assert_eq!(schedule.next(), Some(ts(true, true)));

    assert_eq!(schedule.next(), Some(ts(false, true)));
    assert_eq!(schedule.next(), Some(ts(false, true)));
    assert_eq!(schedule.next(), Some(ts(false, true)));

    assert_eq!(schedule.next(), None);
}

#[test]
fn internal_external_even() {
    let config = GbpScheduleParams {
        internal: 3,
        external: 3,
    };
    let mut schedule = SoonAsPossible::schedule(config);
    assert_eq!(schedule.next(), Some(ts(true, true)));
    assert_eq!(schedule.next(), Some(ts(true, true)));
    assert_eq!(schedule.next(), Some(ts(true, true)));
    assert_eq!(schedule.next(), None);
}

#[test]
fn both_zero() {
    let config = GbpScheduleParams {
        internal: 0,
        external: 0,
    };
    let mut schedule = SoonAsPossible::schedule(config);
    assert_eq!(schedule.next(), None);
}

#[test]
fn internal_zero_external_not() {
    let config = GbpScheduleParams {
        internal: 0,
        external: 2,
    };
    let mut schedule = SoonAsPossible::schedule(config);
    assert_eq!(schedule.next(), Some(ts(false, true)));
    assert_eq!(schedule.next(), Some(ts(false, true)));
    assert_eq!(schedule.next(), None);
}

#[test]
fn external_zero_internal_not() {
    let config = GbpScheduleParams {
        internal: 2,
        external: 0,
    };
    let mut schedule = SoonAsPossible::schedule(config);
    assert_eq!(schedule.next(), Some(ts(true, false)));
    assert_eq!(schedule.next(), Some(ts(true, false)));
    assert_eq!(schedule.next(), None);
}

#[test]
fn schedule_stays_exhausted() {
    let mut schedule = SoonAsPossibleIter::new(GbpScheduleParams { internal: 1, external: 0 });
    assert_eq!(schedule.next(), Some(ts(true, false)));
    assert_eq!(schedule.next(), None);
    assert_eq!(schedule.next(), None);
    assert_eq!(schedule.next(), None);
}

#[test]
fn schedule_length_is_the_larger_count() {
    for (internal, external) in [(0u8, 7u8), (7, 0), (4, 9), (9, 4), (255, 255), (255, 1)] {
        let params = GbpScheduleParams { internal, external };
        assert_eq!(params.max(), internal.max(external));
        let mut schedule = SoonAsPossible::schedule(params);
        let mut ticks = 0usize;
        let mut internal_seen = 0usize;
        let mut external_seen = 0usize;
        while let Some(t) = schedule.next() {
            if t.internal {
                assert_eq!(internal_seen, ticks);
                internal_seen += 1;
            }
            if t.external {
                assert_eq!(external_seen, ticks);
                external_seen += 1;
            }
            ticks += 1;
        }
        assert_eq!(ticks, internal.max(external) as usize);
        assert_eq!(internal_seen, internal as usize);
        assert_eq!(external_seen, external as usize);
    }
}

#[test]
fn fresh_schedule_restarts() {
    let params = GbpScheduleParams { internal: 2, external: 1 };
    let mut first = SoonAsPossible::schedule(params);
    assert_eq!(first.next(), Some(ts(true, true)));
    let mut second = SoonAsPossible::schedule(params);
    assert_eq!(second.next(), Some(ts(true, true)));
    assert_eq!(second.next(), Some(ts(true, false)));
    assert_eq!(second.next(), None);
    assert_eq!(first.next(), Some(ts(true, false)));
}
