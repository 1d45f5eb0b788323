use safety_scheduler::codec::{decode, encode, CodecError};
use safety_scheduler::task::{Event, Poll, Task};

fn sample_event() -> Task {
    Task::Event(Event {
        author: 1,
        channel: 2,
        event: "standup 🎉".to_string(),
        members: vec![3, 4, 5],
        time: "1/1/24 9:00 AM EDT".to_string(),
    })
}

fn sample_poll() -> Task {
    Task::Poll(Poll { author: 7, channel: 8, message: 9, others: true, topic: "lunch".to_string() })
}

#[test]
fn event_layout_matches_bincode() {
    let expected = bincode::serialize(&(
        0u32,
        1u64,
        2u64,
        "standup 🎉".to_string(),
        vec![3u64, 4, 5],
        "1/1/24 9:00 AM EDT".to_string(),
    ))
    .unwrap();
    assert_eq!(encode(&sample_event()), expected);
}

#[test]
fn poll_layout_matches_bincode() {
    let expected =
        bincode::serialize(&(1u32, 7u64, 8u64, 9u64, true, "lunch".to_string())).unwrap();
    assert_eq!(encode(&sample_poll()), expected);
}

#[test]
fn round_trip() {
    for t in [sample_event(), sample_poll()] {
        assert_eq!(decode(&encode(&t)), Ok(t));
    }
}

#[test]
fn exact_bytes_of_small_poll() {
    let t = Task::Poll(Poll { author: 1, channel: 2, message: 3, others: false, topic: "a".to_string() });
    let mut expected = vec![1u8, 0, 0, 0];
    expected.extend_from_slice(&1u64.to_le_bytes());
    expected.extend_from_slice(&2u64.to_le_bytes());
    expected.extend_from_slice(&3u64.to_le_bytes());
    expected.push(0);
    expected.extend_from_slice(&1u64.to_le_bytes());
    expected.push(b'a');
    assert_eq!(encode(&t), expected);
}

#[test]
fn refuses_malformed_payloads() {
    let good = encode(&sample_poll());
    assert_eq!(decode(&[]), Err(CodecError::Malformed));
    assert_eq!(decode(&good[..good.len() - 1]), Err(CodecError::Malformed));
    let mut trailing = good.clone();
    trailing.push(0);
    assert_eq!(decode(&trailing), Err(CodecError::Malformed));
    let mut tag = good.clone();
    tag[0] = 2;
    assert_eq!(decode(&tag), Err(CodecError::Malformed));
    let mut flag = good.clone();
    flag[28] = 2;
    assert_eq!(decode(&flag), Err(CodecError::Malformed));
    let mut utf8 = good.clone();
    let last = utf8.len() - 1;
    utf8[last] = 0xff;
    assert_eq!(decode(&utf8), Err(CodecError::Malformed));
}

#[test]
fn huge_member_count_is_refused() {
    let mut b = vec![0u8, 0, 0, 0];
    b.extend_from_slice(&1u64.to_le_bytes());
    b.extend_from_slice(&2u64.to_le_bytes());
    b.extend_from_slice(&0u64.to_le_bytes());
    b.extend_from_slice(&u64::MAX.to_le_bytes());
    assert_eq!(decode(&b), Err(CodecError::Malformed));
}
