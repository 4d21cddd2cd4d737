use merkle_trie_clock::clock::MerkleClock;
use merkle_trie_clock::merkle::MerkleTrie;
use merkle_trie_clock::timestamp::Timestamp;

#[test]
fn key_to_timestamp_base3_test() {
    let m: MerkleTrie<3> = MerkleTrie::new();
    let cur = m.key_to_timestamp_millis(vec![]);
    assert_eq!(cur, 0);

    let cur = m.key_to_timestamp_millis(vec![1, 1, 0, 0, 0, 2, 1, 1]);
    assert_eq!(cur, 2938);
}

#[test]
fn key_to_timestamp_base10_test() {
    let m: MerkleTrie<10> = MerkleTrie::new();
    let cur = m.key_to_timestamp_millis(vec![9, 2, 4, 7]);
    assert_eq!(cur, 9247);
}

#[test]
fn timestamp_to_key_base3_test() {
    let m: MerkleTrie<3> = MerkleTrie::new();
    let t1 = Timestamp::new(0, 0, String::from("1"));
    let cur = m.timestamp_to_key(&t1);
    assert!(cur.is_empty());

    let t2 = Timestamp::new(2938, 0, String::from("1"));
    let cur = m.timestamp_to_key(&t2);
    assert_eq!(cur, vec![1, 1, 0, 0, 0, 2, 1, 1]);
}

#[test]
fn timestamp_to_key_base10_test() {
    let m: MerkleTrie<10> = MerkleTrie::new();
    let t = Timestamp::new(9247, 0, String::from("1"));
    let cur = m.timestamp_to_key(&t);
    assert_eq!(cur, vec![9, 2, 4, 7]);
}

#[test]
fn insert_test() {
    let mut m: MerkleTrie<10> = MerkleTrie::new();
    m.insert(&Timestamp::new(1, 0, String::from("local")));
    m.insert(&Timestamp::new(2, 0, String::from("local")));
    m.insert(&Timestamp::new(3, 0, String::from("local")));
    m.insert(&Timestamp::new(44, 0, String::from("local")));
    m.insert(&Timestamp::new(127, 0, String::from("local")));

    assert_eq!(m.length(), 5);
}

#[test]
fn diff_test1() {
    let mut m1: MerkleTrie<10> = MerkleTrie::new();
    m1.insert(&Timestamp::new(12788, 0, String::from("local")));

    let mut m2: MerkleTrie<10> = MerkleTrie::new();
    m2.insert(&Timestamp::new(12768, 0, String::from("remote")));

    assert_eq!(m1.diff(&m2), Some(12768));
    assert_eq!(m1.diff(&m2), m2.diff(&m1));
}

#[test]
fn diff_test2() {
    let mut m1: MerkleTrie<10> = MerkleTrie::new();
    m1.insert(&Timestamp::new(12786, 0, String::from("local")));

    let mut m2: MerkleTrie<10> = MerkleTrie::new();
    m2.insert(&Timestamp::new(12787, 0, String::from("remote")));

    assert_eq!(m1.diff(&m2), Some(12786));
    assert_eq!(m1.diff(&m2), m2.diff(&m1));
}

#[test]
fn diff_test3() {
    let m1: MerkleTrie<10> = MerkleTrie::new();

    let mut m2: MerkleTrie<10> = MerkleTrie::new();
    m2.insert(&Timestamp::new(12787, 0, String::from("remote")));

    assert_eq!(m1.diff(&m2), Some(0));
    assert_eq!(m1.diff(&m2), m2.diff(&m1));
}

#[test]
fn diff_test4() {
    let mut m1: MerkleTrie<10> = MerkleTrie::new();
    m1.insert(&Timestamp::new(127, 0, String::from("local")));

    let mut m2: MerkleTrie<10> = MerkleTrie::new();
    m2.insert(&Timestamp::new(12787, 0, String::from("remote")));

    assert_eq!(m1.diff(&m2), Some(127));
    assert_eq!(m1.diff(&m2), m2.diff(&m1));
}

#[test]
fn clock_send_test() {
    let timestamp = 1712898800831i64;
    let id = Timestamp::generate_short_uuid();
    let t = Timestamp::new(timestamp, 0, id.to_string());

    let mut c = MerkleClock::new(t, MerkleTrie::<100>::new());

    let sent = c.timer_mut().send().unwrap();
    c.merkle_mut().insert(&sent);
    assert_eq!(c.merkle().length(), 1);

    let sent = c.timer_mut().send().unwrap();
    c.merkle_mut().insert(&sent);
    assert_eq!(c.merkle().length(), 2);
    assert!(c.timer().millis() >= timestamp);
}

#[test]
fn both_empty_tries_agree() {
    let a: MerkleTrie<3> = MerkleTrie::new();
    let b: MerkleTrie<3> = MerkleTrie::new();
    assert_eq!(a.diff(&b), None);
    assert!(a.is_empty());
    assert_eq!(a.root_hash(), 0);
}

fn stamps() -> Vec<Timestamp> {
    vec![
        Timestamp::new(1712898800831, 0, "aaaaaaaaaaaaaaaa".to_string()),
        Timestamp::new(1712898800831, 1, "aaaaaaaaaaaaaaaa".to_string()),
        Timestamp::new(1712898860000, 0, "bbbbbbbbbbbbbbbb".to_string()),
        Timestamp::new(1712899999999, 4, "cccccccccccccccc".to_string()),
    ]
}

#[test]
fn root_hash_is_xor_whatever_the_order() {
    let ts = stamps();
    let mut forward: MerkleTrie<3> = MerkleTrie::new();
    for t in &ts {
        forward.insert(t);
    }
    let mut backward: MerkleTrie<3> = MerkleTrie::new();
    for t in ts.iter().rev() {
        backward.insert(t);
    }
    let xor = ts.iter().fold(0u64, |acc, t| acc ^ t.hash());
    assert_eq!(forward.root_hash(), xor);
    assert_eq!(backward.root_hash(), xor);
    assert_eq!(forward.diff(&backward), None);
}

#[test]
fn diff_is_symmetric_and_bounds_the_missing_time() {
    let ts = stamps();
    let mut a: MerkleTrie<3> = MerkleTrie::new();
    let mut b: MerkleTrie<3> = MerkleTrie::new();
    for t in &ts {
        a.insert(t);
    }
    for t in &ts[..2] {
        b.insert(t);
    }
    let d = a.diff(&b);
    assert_eq!(d, b.diff(&a));
    let d = d.unwrap();
    assert!(d <= 1712898860000);
    assert!(d > 0);
}
