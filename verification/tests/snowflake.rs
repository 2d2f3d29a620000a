use redflake::snowflake::{
    advance, clock_reading, conclude, decide, next_id, Attempt, Generator, SnowflakeId, Step, EPOCH,
    MAX_SEQ,
};

#[test]
fn identifier_fields_by_position() {
    let id: i64 = (5 << 20) | (7 << 12) | 9;
    assert_eq!(
        SnowflakeId::from(id),
        SnowflakeId { timestamp: 5, machine: 7, sequence: 9 }
    );
    assert_eq!(
        SnowflakeId::from(0),
        SnowflakeId { timestamp: 0, machine: 0, sequence: 0 }
    );
    assert_eq!(
        SnowflakeId::from(i64::MAX),
        SnowflakeId { timestamp: (1 << 43) - 1, machine: 255, sequence: 4095 }
    );
    assert_eq!(
        SnowflakeId::from(-1),
        SnowflakeId { timestamp: (1 << 44) - 1, machine: 255, sequence: 4095 }
    );
}

#[test]
fn identifier_from_fields() {
    let parts = SnowflakeId { timestamp: 844_424_930_131, machine: 200, sequence: 4095 };
    let id = parts.to_i64();
    assert_eq!(id, (844_424_930_131i64 << 20) | (200 << 12) | 4095);
    assert_eq!(SnowflakeId::from(id), parts);
    let wide = SnowflakeId { timestamp: (1 << 44) + 3, machine: 1, sequence: 2 };
    assert_eq!(wide.to_i64(), (3 << 20) | (1 << 12) | 2);
    let top = SnowflakeId { timestamp: 1 << 43, machine: 0, sequence: 0 };
    assert_eq!(top.to_i64(), i64::MIN);
}

#[test]
fn a_later_millisecond_starts_at_sequence_zero() {
    let last: i64 = (100 << 20) | (3 << 12) | 77;
    assert_eq!(
        advance(last, EPOCH + 101, 3),
        Step::Issue((101 << 20) | (3 << 12))
    );
    assert_eq!(advance(0, EPOCH + 1, 9), Step::Issue((1 << 20) | (9 << 12)));
}

#[test]
fn the_same_millisecond_counts_up() {
    let last: i64 = (100 << 20) | (3 << 12) | 77;
    assert_eq!(
        advance(last, EPOCH + 100, 3),
        Step::Issue((100 << 20) | (3 << 12) | 78)
    );
    assert_eq!(advance(0, EPOCH, 0), Step::Issue(1));
}

#[test]
fn a_used_up_millisecond_waits() {
    let last: i64 = (100 << 20) | (3 << 12) | 4095;
    assert_eq!(advance(last, EPOCH + 100, 3), Step::Wait);
    let almost: i64 = (100 << 20) | (3 << 12) | 4094;
    assert_eq!(
        advance(almost, EPOCH + 100, 3),
        Step::Issue((100 << 20) | (3 << 12) | 4095)
    );
}

#[test]
fn an_earlier_clock_is_refused() {
    let last: i64 = (100 << 20) | (3 << 12) | 77;
    assert_eq!(advance(last, EPOCH + 99, 3), Step::ClockBackwards);
    assert_eq!(advance(last, 0, 3), Step::ClockBackwards);
    assert_eq!(advance(0, EPOCH - 1, 3), Step::ClockBackwards);
}

#[test]
fn issued_identifiers_grow_and_carry_the_machine() {
    let generator = Generator::new(42);
    let mut last: i64 = 0;
    for _ in 0..20_000 {
        let id = next_id(&generator).expect("the clock runs forward");
        assert!(id > last);
        let parts = SnowflakeId::from(id);
        assert_eq!(parts.machine, 42);
        assert!(parts.sequence <= MAX_SEQ);
        assert_eq!((id >> 12) & 0xff, 42);
        assert_eq!(parts.to_i64(), id);
        last = id;
    }
}

#[test]
fn a_clock_before_the_last_identifier_gives_the_reason() {
    let generator = Generator::new(1);
    generator
        .last
        .store(i64::MAX, std::sync::atomic::Ordering::SeqCst);
    assert_eq!(next_id(&generator), Err("Clock moved backwards".to_string()));
}

#[test]
fn concurrent_callers_get_distinct_identifiers() {
    let runtime = tokio::runtime::Builder::new_multi_thread()
        .worker_threads(4)
        .build()
        .expect("a runtime");
    let generator = std::sync::Arc::new(Generator::new(9));
    let mut all: Vec<i64> = runtime.block_on(async {
        let mut tasks = Vec::new();
        for _ in 0..4 {
            let shared = generator.clone();
            tasks.push(tokio::spawn(async move {
                let mut mine: Vec<i64> = Vec::new();
                for _ in 0..5_000 {
                    mine.push(next_id(&shared).expect("the clock runs forward"));
                }
                mine
            }));
        }
        let mut all: Vec<i64> = Vec::new();
        for task in tasks {
            let mine = task.await.expect("the task ends");
            for pair in mine.windows(2) {
                assert!(pair[0] < pair[1]);
            }
            all.extend(mine);
        }
        all
    });
    for id in &all {
        assert_eq!((id >> 12) & 0xff, 9);
        assert!(id & 0xfff <= 4095);
        assert!(*id > 0);
    }
    all.sort();
    for pair in all.windows(2) {
        assert!(pair[0] < pair[1]);
    }
    assert_eq!(all.len(), 20_000);
}

#[test]
fn the_clock_is_read_in_64_bits() {
    assert_eq!(clock_reading(None), None);
    assert_eq!(clock_reading(Some(0)), Some(0));
    assert_eq!(clock_reading(Some(946_684_800_123)), Some(946_684_800_123));
    assert_eq!(clock_reading(Some(u64::MAX as u128)), Some(u64::MAX));
    assert_eq!(clock_reading(Some((1u128 << 64) + 5)), Some(5));
}

#[test]
fn a_missing_clock_has_moved_backwards() {
    let last: i64 = (100 << 20) | (3 << 12) | 77;
    assert_eq!(decide(last, None, 3), Step::ClockBackwards);
    assert_eq!(decide(0, None, 0), Step::ClockBackwards);
    assert_eq!(
        decide(last, Some(EPOCH + 100), 3),
        Step::Issue((100 << 20) | (3 << 12) | 78)
    );
    assert_eq!(decide(last | 4095, Some(EPOCH + 100), 3), Step::Wait);
    assert_eq!(decide(last, Some(EPOCH + 99), 3), Step::ClockBackwards);
}

#[test]
fn a_race_is_won_or_tried_again() {
    assert!(matches!(conclude(77, true), Attempt::Issued(77)));
    assert!(matches!(conclude(77, false), Attempt::Retry));
}

#[test]
fn one_attempt_issues_or_asks_again() {
    let generator = Generator::new(5);
    let mut issued: Option<i64> = None;
    for _ in 0..1000 {
        match generator.attempt() {
            Attempt::Issued(id) => {
                issued = Some(id);
                break;
            }
            Attempt::Retry => {}
            Attempt::ClockBackwards => panic!("the clock runs forward"),
        }
    }
    let id = issued.expect("an attempt wins where nobody else tries");
    assert_eq!((id >> 12) & 0xff, 5);
    assert_eq!(
        generator.last.load(std::sync::atomic::Ordering::SeqCst),
        id
    );
    generator
        .last
        .store(i64::MAX, std::sync::atomic::Ordering::SeqCst);
    assert!(matches!(generator.attempt(), Attempt::ClockBackwards));
    assert_eq!(
        generator.last.load(std::sync::atomic::Ordering::SeqCst),
        i64::MAX
    );
}

#[test]
fn an_issued_identifier_is_positive_and_carries_the_clock() {
    let generator = Generator::new(200);
    for _ in 0..1000 {
        let before = std::time::SystemTime::now()
            .duration_since(std::time::SystemTime::UNIX_EPOCH)
            .expect("a clock behind 1970")
            .as_millis() as i64;
        let id = next_id(&generator).expect("the clock runs forward");
        let after = std::time::SystemTime::now()
            .duration_since(std::time::SystemTime::UNIX_EPOCH)
            .expect("a clock behind 1970")
            .as_millis() as i64;
        assert!(id > 0);
        assert_eq!((id >> 12) & 0xff, 200);
        assert!((id >> 20) >= before - EPOCH as i64);
        assert!((id >> 20) <= after - EPOCH as i64);
    }
}

#[test]
fn the_rule_issues_positive_identifiers_with_the_time() {
    match advance(0, EPOCH, 0) {
        Step::Issue(id) => {
            assert!(id > 0);
            assert_eq!(id >> 20, 0);
        }
        other => panic!("nothing issued: {:?}", other),
    }
    match advance(i64::MAX - 4095, EPOCH + (1 << 43) - 1, 255) {
        Step::Issue(id) => {
            assert!(id > 0);
            assert_eq!(id >> 20, (1 << 43) - 1);
            assert_eq!((id >> 12) & 0xff, 255);
        }
        other => panic!("nothing issued: {:?}", other),
    }
}
