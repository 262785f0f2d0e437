//! Behaviour of the write-ahead log: rotation, removal, refresh, and
//! lossless recovery.

use tsink::types::{DataPoint, Label, Row};
use tsink::wal::Wal;

#[test]
fn disk_wal_persists_rotates_and_recovers() {
    let mut wal = Wal::new();

    let batch_one = vec![
        Row::new("wal_metric", DataPoint::new(1, 1.0f64.to_bits())),
        Row::with_labels(
            "wal_metric",
            vec![Label::new("host", "a")],
            DataPoint::new(2, 2.5f64.to_bits()),
        ),
    ];

    wal.append_rows(&batch_one).unwrap();

    let recovered = wal.read_all().unwrap();
    assert_eq!(recovered.len(), batch_one.len());
    assert!(recovered.iter().any(|row| row.metric() == "wal_metric"
        && row.labels().is_empty()
        && row.data_point().timestamp == 1
        && (f64::from_bits(row.data_point().value) - 1.0).abs() < 1e-12));

    assert!(recovered.iter().any(|row| {
        row.metric() == "wal_metric"
            && row.labels().len() == 1
            && row.labels()[0].name == "host"
            && row.labels()[0].value == "a"
            && row.data_point().timestamp == 2
            && (f64::from_bits(row.data_point().value) - 2.5).abs() < 1e-12
    }));

    // Rotate and add a second batch
    wal.punctuate().unwrap();
    let batch_two = vec![Row::new("wal_metric", DataPoint::new(3, 5.0f64.to_bits()))];
    wal.append_rows(&batch_two).unwrap();

    let all_rows = wal.read_all().unwrap();
    assert_eq!(all_rows.len(), batch_one.len() + batch_two.len());
    assert!(all_rows.iter().any(|row| row.data_point().timestamp == 3));

    // Remove oldest segment and confirm only the newer entries remain
    wal.remove_oldest();
    assert_eq!(wal.segments.len(), 1);
    let remaining_rows = wal.read_all().unwrap();
    assert_eq!(remaining_rows.len(), batch_two.len());
    assert!(remaining_rows
        .iter()
        .all(|row| row.data_point().timestamp >= 3));

    // Refresh should clear all segments
    wal.refresh().unwrap();
    assert!(wal.read_all().unwrap().is_empty());
}

#[test]
fn disk_wal_flush_with_buffer_persists() {
    let mut wal = Wal::new();

    let batch = vec![Row::new("buffered_metric", DataPoint::new(1, 1.5f64.to_bits()))];
    wal.append_rows(&batch).unwrap();

    // Ensure the active segment holds the batch and can be recovered
    assert_eq!(wal.segments.len(), 1, "wal segment should exist after flush");

    let recovered = wal.read_all().unwrap();
    assert_eq!(recovered.len(), 1);
    assert_eq!(recovered[0].metric(), "buffered_metric");
    assert_eq!(recovered[0].data_point().timestamp, 1);
    assert!((f64::from_bits(recovered[0].data_point().value) - 1.5).abs() < 1e-12);
}

/// Replay preserves rows byte-for-byte, non-ASCII text included, and
/// in order within equal timestamps.
#[test]
fn wal_replay_preserves_order_and_text() {
    let mut wal = Wal::new();
    let rows = vec![
        Row::with_labels(
            "r\u{e9}gion",
            vec![Label::new("ville", "Z\u{fc}rich")],
            DataPoint::new(5, 1.0f64.to_bits()),
        ),
        Row::new("r\u{e9}gion", DataPoint::new(5, 2.0f64.to_bits())),
        Row::new("r\u{e9}gion", DataPoint::new(-5, 3.0f64.to_bits())),
    ];
    wal.append_rows(&rows).unwrap();
    let recovered = wal.read_all().unwrap();
    assert_eq!(recovered.len(), 3);
    assert_eq!(recovered[0].metric(), "r\u{e9}gion");
    assert_eq!(recovered[0].labels()[0].value, "Z\u{fc}rich");
    assert_eq!(recovered[1].data_point().timestamp, 5);
    assert_eq!(f64::from_bits(recovered[1].data_point().value), 2.0);
    assert_eq!(recovered[2].data_point().timestamp, -5);
}

/// A partial trailing frame is dropped silently; a corrupt payload is
/// an error.
#[test]
fn wal_truncation_and_corruption() {
    let mut wal = Wal::new();
    let rows = vec![Row::new("m", DataPoint::new(1, 1.0f64.to_bits()))];
    wal.append_rows(&rows).unwrap();

    // Truncate the active segment mid-frame: the whole row is dropped.
    let (num, bytes) = wal.segments.pop().unwrap();
    let mut truncated = bytes.clone();
    truncated.pop();
    wal.segments.push((num, truncated));
    let recovered = wal.read_all().unwrap();
    assert!(recovered.is_empty());

    // Corrupt the payload inside an intact frame: that is an error.
    let mut corrupt = bytes.clone();
    let last = corrupt.len() - 1;
    corrupt[last] ^= 0x80;
    wal.segments.pop();
    wal.segments.push((num, corrupt));
    assert!(wal.read_all().is_err());
}
