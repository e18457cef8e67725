use wifi_scanner::hash::{ssid_hash, stable_hash64};
use wifi_scanner::text::{comes_before, contains_text, push_integer, push_natural};
use wifi_scanner::time::{Duration, Timestamp};

fn at(nanos: i128) -> Timestamp {
    Timestamp { nanos }
}

fn integer_text(value: i64) -> String {
    let mut text = String::new();
    push_integer(&mut text, value);
    text
}

#[test]
fn hash_of_nothing_is_the_offset() {
    assert_eq!(stable_hash64(b""), 0xcbf2_9ce4_8422_2325);
}

#[test]
fn hash_matches_published_values() {
    assert_eq!(stable_hash64(b"a"), 0xaf63_dc4c_8601_ec8c);
    assert_eq!(stable_hash64(b"foobar"), 0x8594_4171_f739_67e8);
}

#[test]
fn hash_of_an_ssid_is_that_of_its_bytes() {
    assert_eq!(ssid_hash("foobar"), stable_hash64(b"foobar"));
    assert_eq!(ssid_hash("caf\u{e9}"), stable_hash64(&[b'c', b'a', b'f', 0xc3, 0xa9]));
}

#[test]
fn hash_resumes_after_a_prefix() {
    let mut hash = stable_hash64(b"foo");
    for byte in b"bar" {
        hash = (hash ^ u64::from(*byte)).wrapping_mul(0x0000_0100_0000_01b3);
    }
    assert_eq!(hash, stable_hash64(b"foobar"));
}

#[test]
fn durations_split_into_seconds_and_nanoseconds() {
    let span = Duration { nanos: 2_000_000_007 };
    assert_eq!(span.as_secs(), 2);
    assert_eq!(span.subsec_nanos(), 7);
    assert_eq!(Duration::from_secs(3).nanos, 3_000_000_000);
    assert_eq!(Duration::from_millis(100).nanos, 100_000_000);
    assert_eq!(Duration::zero().nanos, 0);
}

#[test]
fn duration_since_crosses_the_epoch() {
    assert_eq!(at(5).duration_since(at(-7)), Some(Duration { nanos: 12 }));
    assert_eq!(at(-5).duration_since(at(-7)), Some(Duration { nanos: 2 }));
    assert_eq!(at(7).duration_since(at(7)), Some(Duration { nanos: 0 }));
    assert_eq!(at(-7).duration_since(at(5)), None);
    assert_eq!(
        at(i128::MAX).duration_since(at(i128::MIN)),
        Some(Duration { nanos: u128::MAX })
    );
}

#[test]
fn at_most_after_takes_in_its_ends() {
    let second = Duration::from_secs(1);
    assert!(at(1_000_000_000).is_at_most_after(at(0), second));
    assert!(!at(1_000_000_001).is_at_most_after(at(0), second));
    assert!(at(-4).is_at_most_after(at(0), second));
}

#[test]
fn since_epoch_is_never_negative() {
    assert_eq!(at(9).since_epoch(), Duration { nanos: 9 });
    assert_eq!(at(-9).since_epoch(), Duration { nanos: 0 });
}

#[test]
fn clock_readings_become_points_in_time() {
    assert_eq!(Timestamp::from_clock(Ok(12)), at(12));
    assert_eq!(Timestamp::from_clock(Err(12)), at(-12));
    assert_eq!(Timestamp::from_clock(Ok(u128::MAX)), at(i128::MAX));
    assert_eq!(Timestamp::from_clock(Err(u128::MAX)), at(i128::MIN));
}

#[test]
fn numbers_are_written_in_decimal() {
    let mut text = String::from("n=");
    push_natural(&mut text, 0);
    assert_eq!(text, "n=0");
    for value in [1, 9, 10, 11, 99, 100, 4294967295, u64::MAX] {
        let mut digits = String::new();
        push_natural(&mut digits, value);
        assert_eq!(digits, value.to_string());
    }
    for value in [0, -1, 7, -100, i64::MIN, i64::MAX] {
        assert_eq!(integer_text(value), value.to_string());
        assert_eq!(integer_text(value).parse::<i64>().unwrap(), value);
    }
}

#[test]
fn substrings_are_found() {
    assert!(contains_text("home network", "net"));
    assert!(contains_text("home", "home"));
    assert!(contains_text("home", ""));
    assert!(contains_text("", ""));
    assert!(contains_text("aab", "ab"));
    assert!(contains_text("caf\u{e9} wifi", "\u{e9} w"));
    assert!(!contains_text("home", "homes"));
    assert!(!contains_text("home", "hm"));
}

#[test]
fn texts_are_ordered_by_their_bytes() {
    let names = ["", "A", "AB", "B", "a", "z", "\u{e9}", "\u{4e2d}", "\u{1f600}"];
    for left in names {
        for right in names {
            assert_eq!(comes_before(left, right), left < right);
        }
    }
}
