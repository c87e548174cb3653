use collider::counter::{bytes_equal, clone_bytes, count_collisions, filter_collisions};

#[test]
fn bytes_equal_compares_all_bytes() {
    assert!(bytes_equal(&vec![0xa1, 0xb2], &vec![0xa1, 0xb2]));
    assert!(!bytes_equal(&vec![0xa1, 0xb2], &vec![0xa1, 0xb3]));
    assert!(!bytes_equal(&vec![0xa1], &vec![0xa1, 0xb2]));
    assert!(bytes_equal(&vec![], &vec![]));
}

#[test]
fn clone_bytes_copies() {
    let v = vec![1u8, 2, 3];
    assert_eq!(clone_bytes(&v), v);
}

#[test]
fn identical_digests_share_one_count() {
    // Two identical digests collapse into one record whose count covers both.
    let digests = vec![vec![0xaa], vec![0xaa]];
    let records = count_collisions(&digests);
    assert_eq!(records.len(), 1);
    assert_eq!(records[0].hash, vec![0xaa]);
    assert_eq!(records[0].count, 2);
}

#[test]
fn threshold_boundary() {
    // One value occurs exactly t times, another t + 1 times: only the second
    // is reported.
    let t = 2;
    let digests = vec![
        vec![0xaa],
        vec![0xbb],
        vec![0xaa],
        vec![0xbb],
        vec![0xbb],
    ];
    let records = count_collisions(&digests);
    let report = filter_collisions(&records, t);
    assert_eq!(report.len(), 1);
    assert_eq!(report[0].hash, vec![0xbb]);
    assert_eq!(report[0].count, 3);
}

#[test]
fn counts_sum_to_batch_size() {
    let digests = vec![vec![0x00], vec![0x01], vec![0x00]];
    let records = count_collisions(&digests);
    let total: usize = records.iter().map(|r| r.count).sum();
    assert_eq!(total, digests.len());
}

#[test]
fn counting_twice_yields_identical_records() {
    let digests = vec![vec![0x07], vec![0x09], vec![0x07], vec![0x07]];
    let first = count_collisions(&digests);
    let second = count_collisions(&digests);
    assert_eq!(first.len(), second.len());
    for (a, b) in first.iter().zip(second.iter()) {
        assert_eq!(a.hash, b.hash);
        assert_eq!(a.count, b.count);
    }
}

#[test]
fn six_digests_threshold_one() {
    let digests = vec![
        vec![0x00],
        vec![0x01],
        vec![0x00],
        vec![0x02],
        vec![0x00],
        vec![0x01],
    ];
    let records = count_collisions(&digests);
    let report = filter_collisions(&records, 1);
    assert_eq!(report.len(), 2);
    assert_eq!(report[0].hash, vec![0x00]);
    assert_eq!(report[0].count, 3);
    assert_eq!(report[1].hash, vec![0x01]);
    assert_eq!(report[1].count, 2);
}

#[test]
fn four_identical_threshold_three() {
    let digests = vec![vec![0x5c], vec![0x5c], vec![0x5c], vec![0x5c]];
    let records = count_collisions(&digests);
    let report = filter_collisions(&records, 3);
    assert_eq!(report.len(), 1);
    assert_eq!(report[0].hash, vec![0x5c]);
    assert_eq!(report[0].count, 4);
}

#[test]
fn four_distinct_threshold_zero() {
    let digests = vec![vec![0x00], vec![0x01], vec![0x02], vec![0x03]];
    let records = count_collisions(&digests);
    let report = filter_collisions(&records, 0);
    assert_eq!(report.len(), 0);
}

#[test]
fn empty_batch_has_no_records() {
    let digests: Vec<Vec<u8>> = vec![];
    let records = count_collisions(&digests);
    assert_eq!(records.len(), 0);
}

#[test]
fn multi_byte_digests_collide_only_when_all_bytes_match() {
    let digests = vec![
        vec![0xa1, 0xb2],
        vec![0xa1, 0xb3],
        vec![0xa1, 0xb2],
    ];
    let records = count_collisions(&digests);
    assert_eq!(records.len(), 2);
    assert_eq!(records[0].hash, vec![0xa1, 0xb2]);
    assert_eq!(records[0].count, 2);
    assert_eq!(records[1].hash, vec![0xa1, 0xb3]);
    assert_eq!(records[1].count, 1);
}
