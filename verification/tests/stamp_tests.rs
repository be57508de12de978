use collatz_m4m6::stamp::{stamp_of, Stamp};

#[test]
fn stamp_of_the_epoch() {
    assert_eq!(stamp_of(0), Stamp { year: 1970, day: 0, hour: 0, minute: 0, second: 0 });
}

#[test]
fn stamp_counts_years_of_365_days() {
    // one day, one hour, one minute and one second
    assert_eq!(stamp_of(90061), Stamp { year: 1970, day: 1, hour: 1, minute: 1, second: 1 });
    // 365 days
    assert_eq!(stamp_of(31536000), Stamp { year: 1971, day: 0, hour: 0, minute: 0, second: 0 });
    assert_eq!(
        stamp_of(1_700_000_000),
        Stamp { year: 2023, day: 330, hour: 22, minute: 13, second: 20 }
    );
    assert_eq!(stamp_of(u64::MAX).second, 15);
}
