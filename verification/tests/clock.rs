use ucp::bytes::{join_word, split_word, wrapping_distance};
use ucp::clock::Moment;

#[test]
fn milliseconds_between_two_moments() {
    let start = Moment { sec: 10, nsec: 900_000_000 };
    assert_eq!(Moment { sec: 10, nsec: 900_000_000 }.millis_since(&start), 0);
    assert_eq!(Moment { sec: 10, nsec: 900_999_999 }.millis_since(&start), 0);
    assert_eq!(Moment { sec: 10, nsec: 901_000_000 }.millis_since(&start), 1);
    assert_eq!(Moment { sec: 11, nsec: 0 }.millis_since(&start), 100);
    assert_eq!(Moment { sec: 12, nsec: 100_000_000 }.millis_since(&start), 1200);
    assert_eq!(Moment { sec: 9, nsec: 0 }.millis_since(&start), 0);
    assert_eq!(Moment { sec: -5, nsec: 0 }.millis_since(&Moment { sec: -6, nsec: 500_000_000 }), 500);
}

#[test]
fn milliseconds_between_the_farthest_moments() {
    let first = Moment { sec: i64::MIN, nsec: 0 };
    let last = Moment { sec: i64::MAX, nsec: 999_999_999 };
    assert_eq!(last.millis_since(&first), (u64::MAX as u128) * 1000 + 999);
    assert_eq!(first.millis_since(&last), 0);
}

#[test]
fn timestamp_starts_again_after_two_to_the_thirty_two_milliseconds() {
    let start = Moment { sec: 0, nsec: 0 };
    assert_eq!(Moment { sec: 4_294_967, nsec: 295_000_000 }.timestamp_since(&start), u32::MAX);
    assert_eq!(Moment { sec: 4_294_967, nsec: 296_000_000 }.timestamp_since(&start), 0);
    assert_eq!(Moment { sec: 4_294_967, nsec: 297_000_000 }.timestamp_since(&start), 1);
    assert_eq!(Moment { sec: 1, nsec: 5_000_000 }.timestamp_since(&start), 1005);
}

#[test]
fn moment_from_milliseconds() {
    assert_eq!(Moment::from_millis(0), Moment { sec: 0, nsec: 0 });
    assert_eq!(Moment::from_millis(1), Moment { sec: 0, nsec: 1_000_000 });
    assert_eq!(Moment::from_millis(1999), Moment { sec: 1, nsec: 999_000_000 });
    assert_eq!(Moment::from_millis(u32::MAX), Moment { sec: 4_294_967, nsec: 295_000_000 });
    assert_eq!(Moment::from_millis(1234).millis_since(&Moment::from_millis(234)), 1000);
}

#[test]
fn system_clock_gives_a_plausible_moment() {
    let first = Moment::now();
    let second = Moment::now();
    assert!(first.nsec >= 0 && first.nsec < 1_000_000_000);
    assert!(second.nsec >= 0 && second.nsec < 1_000_000_000);
    assert!(first.sec > 1_500_000_000);
    assert!(second.sec >= first.sec);
    assert!(second.millis_since(&first) < 60_000);
}

#[test]
fn words_split_into_big_endian_bytes() {
    assert_eq!(split_word(0x0102_0304), (1, 2, 3, 4));
    assert_eq!(split_word(0), (0, 0, 0, 0));
    assert_eq!(split_word(u32::MAX), (255, 255, 255, 255));
    assert_eq!(split_word(0x8000_0001), (0x80, 0, 0, 1));
    assert_eq!(join_word(1, 2, 3, 4), 0x0102_0304);
    assert_eq!(join_word(0xff, 0, 0, 0), 0xff00_0000);
    assert_eq!(join_word(0, 0, 0, 0xff), 0xff);
}

#[test]
fn distance_between_counters_wraps() {
    assert_eq!(wrapping_distance(10, 3), 7);
    assert_eq!(wrapping_distance(3, 3), 0);
    assert_eq!(wrapping_distance(3, 10), u32::MAX - 6);
    assert_eq!(wrapping_distance(0, u32::MAX), 1);
    assert_eq!(wrapping_distance(u32::MAX, 0), u32::MAX);
    assert_eq!(wrapping_distance(5, u32::MAX - 4), 10);
}
