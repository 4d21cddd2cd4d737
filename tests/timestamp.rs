use std::time::{SystemTime, UNIX_EPOCH};

use merkle_trie_clock::error::Error;
use merkle_trie_clock::timestamp::Timestamp;

fn now_ms() -> i64 {
    SystemTime::now().duration_since(UNIX_EPOCH).unwrap().as_millis() as i64
}

#[test]
fn new_test() {
    let timestamp = now_ms();
    let id = Timestamp::generate_short_uuid();
    let t = Timestamp::new(timestamp, 0, id.to_string());
    println!("{}", t.to_string());
}

#[test]
fn hash_test() {
    let timestamp = now_ms();
    let id = Timestamp::generate_short_uuid();
    let t = Timestamp::new(timestamp, 0, id.to_string());
    println!("{}", t.hash());
}

#[test]
fn generate_short_uuid_test() {
    let uuid = Timestamp::generate_short_uuid();
    assert_eq!(uuid.len(), 16);
    println!("{}", uuid);
}

#[test]
fn parse_test() {
    let serialized = "2024-04-12T05:13:20.831+00:00-0000-5ef35ca3375b14c8";
    let t = Timestamp::parse(serialized).unwrap();

    assert_eq!(t.millis(), 1712898800831);
    assert_eq!(t.node(), "5ef35ca3375b14c8");
    assert_eq!(t.counter(), 0);
}

#[test]
fn parse_test2() {
    let serialized = "2024-04-12T05:13:20.831+00:00-0001-5ef35ca3375b14c8";
    let t = Timestamp::parse(serialized).unwrap();

    assert_eq!(t.millis(), 1712898800831);
    assert_eq!(t.node(), "5ef35ca3375b14c8");
    assert_eq!(t.counter(), 1);
}

#[test]
fn timestamp_send_test() {
    // Old timestamp
    let mut local_t = Timestamp::new(1712898800831, 0, "local".to_string());
    local_t.send().unwrap();
    println!("phys: {}, local_t: {:?}", 1712898800831i64, local_t);
    assert!(local_t.millis() > 1712898800831);
    assert_eq!(local_t.counter(), 0);

    // Concurrent timestamp
    let phys = now_ms();
    let mut local_t = Timestamp::new(phys, 0, "local".to_string());

    local_t.send().unwrap();
    println!("phys: {}, local_t: {:?}", phys, local_t);

    assert!(local_t.millis() >= phys);
    if local_t.millis() == phys {
        assert_eq!(local_t.counter(), 1);
    } else {
        assert_eq!(local_t.counter(), 0);
    }
    assert_eq!(local_t.node(), "local")
}

#[test]
fn recv_local_old_test() {
    let phys = now_ms();
    let mut local_t = Timestamp::new(1712898800831, 4, "local".to_string());
    let remote_t = Timestamp::new(phys, 5, "remote".to_string());

    local_t.recv(&remote_t).unwrap();

    assert!(local_t.millis() >= phys);
    if local_t.millis() == phys {
        assert_eq!(local_t.counter(), 6);
    } else {
        assert_eq!(local_t.counter(), 0);
    }
}

#[test]
fn recv_remote_old_test() {
    let phys = now_ms();
    let mut local_t = Timestamp::new(phys, 4, "local".to_string());
    let remote_t = Timestamp::new(1712898800831, 5, "remote".to_string());

    local_t.recv(&remote_t).unwrap();

    assert!(local_t.millis() >= phys);
    if local_t.millis() == phys {
        assert_eq!(local_t.counter(), 5);
    } else {
        assert_eq!(local_t.counter(), 0);
    }
}

#[test]
fn recv_concurrent_test() {
    let phys = now_ms();
    let mut local_t = Timestamp::new(phys, 4, "local".to_string());
    let remote_t = Timestamp::new(phys, 5, "remote".to_string());

    local_t.recv(&remote_t).unwrap();

    assert!(local_t.millis() >= phys);
    if local_t.millis() == phys {
        assert_eq!(local_t.counter(), 6);
    } else {
        assert_eq!(local_t.counter(), 0);
    }
}

#[test]
fn send_twice_at_same_ms_counts_up() {
    let phys = 1712898800831;
    let mut t = Timestamp::new(phys, 0, "A".to_string());
    let first = t.send_at(phys).unwrap();
    let second = t.send_at(phys).unwrap();
    assert_eq!(first.counter(), 1);
    assert_eq!(second.counter(), 2);
    assert_eq!(first.millis(), phys);
    assert_eq!(second.millis(), phys);
}

#[test]
fn send_moves_to_later_physical_time() {
    let mut t = Timestamp::new(1000, 7, "A".to_string());
    let r = t.send_at(2000).unwrap();
    assert_eq!((r.millis(), r.counter()), (2000, 0));
}

#[test]
fn send_fails_on_drift() {
    let mut t = Timestamp::new(200_000, 0, "A".to_string());
    assert_eq!(t.send_at(100_000).unwrap_err(), Error::ClockDrift);
    assert_eq!((t.millis(), t.counter()), (200_000, 0));
}

#[test]
fn send_fails_on_counter_overflow() {
    let mut t = Timestamp::new(5000, 65535, "A".to_string());
    assert_eq!(t.send_at(5000).unwrap_err(), Error::Overflow);
    assert_eq!(t.counter(), 65535);
}

#[test]
fn recv_rejects_own_node() {
    let mut t = Timestamp::new(5000, 0, "A".to_string());
    let other = Timestamp::new(5000, 3, "A".to_string());
    assert_eq!(t.recv_at(&other, 5000).unwrap_err(), Error::DuplicateNode);
}

#[test]
fn recv_rejects_remote_far_ahead() {
    let mut t = Timestamp::new(5000, 0, "A".to_string());
    let other = Timestamp::new(5000 + 60_001, 0, "B".to_string());
    assert_eq!(t.recv_at(&other, 5000).unwrap_err(), Error::ClockDrift);
}

#[test]
fn recv_cases_follow_the_largest_time() {
    let mut t = Timestamp::new(5000, 4, "A".to_string());
    t.recv_at(&Timestamp::new(5000, 9, "B".to_string()), 4000).unwrap();
    assert_eq!((t.millis(), t.counter()), (5000, 10));
    t.recv_at(&Timestamp::new(4000, 99, "B".to_string()), 4000).unwrap();
    assert_eq!((t.millis(), t.counter()), (5000, 11));
    t.recv_at(&Timestamp::new(6000, 2, "B".to_string()), 5500).unwrap();
    assert_eq!((t.millis(), t.counter()), (6000, 3));
    t.recv_at(&Timestamp::new(100, 2, "B".to_string()), 7000).unwrap();
    assert_eq!((t.millis(), t.counter()), (7000, 0));
}

#[test]
fn successive_clock_states_strictly_increase() {
    let mut t = Timestamp::new(1000, 0, "A".to_string());
    let mut seen = vec![(t.millis(), t.counter())];
    for (i, phys) in [1000, 1000, 900, 1500, 1500, 1400].iter().enumerate() {
        if i % 3 == 2 {
            t.recv_at(&Timestamp::new(*phys + 10, 3, "B".to_string()), *phys).unwrap();
        } else {
            t.send_at(*phys).unwrap();
        }
        seen.push((t.millis(), t.counter()));
    }
    for w in seen.windows(2) {
        assert!(w[0] < w[1]);
    }
}

#[test]
fn canonical_string_form() {
    let t = Timestamp::new(1712898800831, 0, "5ef35ca3375b14c8".to_string());
    assert_eq!(t.to_string(), "2024-04-12T05:13:20.831+00:00-0000-5ef35ca3375b14c8");
    let t = Timestamp::new(1712898800831, 0x2bc, "local".to_string());
    assert_eq!(t.to_string(), "2024-04-12T05:13:20.831+00:00-02BC-local           ");
}

#[test]
fn whole_seconds_keep_their_milliseconds() {
    let t = Timestamp::new(1712898800000, 0, "5ef35ca3375b14c8".to_string());
    assert_eq!(t.to_string(), "2024-04-12T05:13:20.000+00:00-0000-5ef35ca3375b14c8");
    assert_eq!(Timestamp::parse(&t.to_string()).unwrap().millis(), 1712898800000);
}

#[test]
fn string_form_round_trips() {
    let t = Timestamp::new(1712898800831, 0xfffe, "5ef35ca3375b14c8".to_string());
    let back = Timestamp::parse(&t.to_string()).unwrap();
    assert_eq!((back.millis(), back.counter(), back.node()), (1712898800831, 0xfffe, "5ef35ca3375b14c8"));
}

#[test]
fn parse_rejects_malformed() {
    assert_eq!(Timestamp::parse("2024-04-12T05:13:20.831+00:00-0000").unwrap_err(), Error::Parse);
    assert_eq!(Timestamp::parse("2024-04-12T05:13:20.831+00:00-00G0-5ef35ca3375b14c8").unwrap_err(), Error::Parse);
    assert_eq!(Timestamp::parse("2024-13-12T05:13:20.831+00:00-0000-5ef35ca3375b14c8").unwrap_err(), Error::Parse);
}

#[test]
fn hash_is_murmur3_of_string_form() {
    let t = Timestamp::new(1712898800831, 1, "5ef35ca3375b14c8".to_string());
    let expected = murmurhash32::murmurhash3(t.to_string().as_bytes()) as u64;
    assert_eq!(t.hash(), expected);
    let u = Timestamp::new(1712898800831, 2, "5ef35ca3375b14c8".to_string());
    assert_ne!(t.hash(), u.hash());
}

#[test]
fn since_appends_zero_counter_and_node() {
    assert_eq!(Timestamp::since("2024-04-12T05:13:20.831+00:00"), "2024-04-12T05:13:20.831+00:00-0000-0000000000000000");
    assert_eq!(Timestamp::format_since(1712898800831), "2024-04-12T05:13:20.831+00:00-0000-0000000000000000");
}
