use lila_pwned::hash::PasswordHashPrefix;
use lila_pwned::sweep::{
    range_url, Sweep, PARTITIONS, PROGRESS_EVERY, REQUEST_INTERVAL_SECS, REQUEST_TIMEOUT_SECS,
    USER_AGENT,
};

#[test]
fn sweep_starts_at_the_first_partition() {
    let mut sweep = Sweep::new();
    let step = sweep.next_step();
    assert_eq!(step.prefix.0, 0);
    assert!(step.begins_sweep);
    assert!(step.reports_progress);
    let step = sweep.next_step();
    assert_eq!(step.prefix.0, 1);
    assert!(!step.begins_sweep);
    assert!(!step.reports_progress);
}

#[test]
fn sweep_visits_every_partition_once_and_starts_again() {
    let mut sweep = Sweep::new();
    let mut expected: u32 = 0;
    let mut reports: u32 = 0;
    while expected < PARTITIONS {
        let step = sweep.next_step();
        assert_eq!(step.prefix.0, expected);
        assert_eq!(step.begins_sweep, expected == 0);
        assert_eq!(step.reports_progress, expected % 1800 == 0);
        if step.reports_progress {
            reports += 1;
        }
        expected += 1;
    }
    assert_eq!(reports, 583);
    let step = sweep.next_step();
    assert_eq!(step.prefix.0, 0);
    assert!(step.begins_sweep);
    let step = sweep.next_step();
    assert_eq!(step.prefix.0, 1);
}

#[test]
fn sweep_constants() {
    assert_eq!(PARTITIONS, 1_048_576);
    assert_eq!(PasswordHashPrefix::MAX, PARTITIONS - 1);
    assert_eq!(PROGRESS_EVERY, 1800);
    assert_eq!(REQUEST_INTERVAL_SECS, 2);
    assert_eq!(REQUEST_TIMEOUT_SECS, 10);
    assert_eq!(USER_AGENT, "lila-pwned");
}

#[test]
fn range_address_ends_in_the_prefix_text() {
    assert_eq!(
        range_url(PasswordHashPrefix(0xabcde)),
        "https://api.pwnedpasswords.com/range/ABCDE"
    );
    assert_eq!(
        range_url(PasswordHashPrefix(0)),
        "https://api.pwnedpasswords.com/range/00000"
    );
    assert_eq!(
        range_url(PasswordHashPrefix(0x1f)),
        "https://api.pwnedpasswords.com/range/0001F"
    );
}
