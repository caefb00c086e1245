use commonplace::id::{ClockTime, ZettelId};

#[test]
fn pack_example_timestamp() {
    // 2021-07-04 23:32:24 UTC packs to the Holocene-dated decimal groups.
    let t = ClockTime { year: 2021, month: 7, day: 4, hour: 23, minute: 32, second: 24 };
    assert_eq!(ZettelId::from_time(&t), ZettelId(120210704233224));
}

#[test]
fn encode_is_big_endian() {
    let id = ZettelId(0x0102030405060708);
    assert_eq!(id.encode(), [1u8, 2, 3, 4, 5, 6, 7, 8]);
}

#[test]
fn decode_inverts_encode() {
    for &v in &[0u64, 1, 255, 256, 120210704233224, u64::MAX] {
        let id = ZettelId(v);
        assert_eq!(ZettelId::decode(id.encode()), id);
    }
}

#[test]
fn encoded_key_order_is_chronological() {
    // Lexicographic byte order of encoded keys equals numeric order.
    let earlier = ZettelId::from_time(&ClockTime {
        year: 2021,
        month: 7,
        day: 4,
        hour: 23,
        minute: 32,
        second: 24,
    });
    let later = ZettelId::from_time(&ClockTime {
        year: 2021,
        month: 7,
        day: 5,
        hour: 0,
        minute: 0,
        second: 0,
    });
    assert!(earlier.0 < later.0);
    assert!(earlier.encode() < later.encode());
    assert!(ZettelId(255).encode() < ZettelId(256).encode());
}

#[test]
fn generated_id_has_calendar_shaped_fields() {
    let id = ZettelId::generate().0;
    assert!(id % 100 <= 59, "second field");
    assert!((id / 100) % 100 <= 59, "minute field");
    assert!((id / 10_000) % 100 <= 23, "hour field");
    let day = (id / 1_000_000) % 100;
    assert!((1..=31).contains(&day), "day field");
    let month = (id / 100_000_000) % 100;
    assert!((1..=12).contains(&month), "month field");
    // Any sane clock is well past the Holocene epoch and the Unix epoch.
    let hyear = id / 10_000_000_000;
    assert!((11970..=272143).contains(&hyear), "year field");
}

#[test]
fn same_clock_reading_gives_same_id() {
    let t = ClockTime { year: 2024, month: 1, day: 2, hour: 3, minute: 4, second: 5 };
    assert_eq!(ZettelId::from_time(&t), ZettelId::from_time(&t));
}
