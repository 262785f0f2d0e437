//! End-to-end tests of the storage engine.

use tsink::codec::{decode_points, encode_points};
use tsink::errors::TsinkError;
use tsink::storage::StorageBuilder;
use tsink::types::{DataPoint, Label, Row};
use tsink::time::TimestampPrecision;
use tsink::wal::Wal;

#[test]
fn test_basic_insert_and_select() {
    let mut storage = StorageBuilder::new()
        .with_timestamp_precision(TimestampPrecision::Seconds)
        .build()
        .unwrap();

    let rows = vec![
        Row::new("metric1", DataPoint::new(1000, 1.0f64.to_bits())),
        Row::new("metric1", DataPoint::new(1001, 2.0f64.to_bits())),
        Row::new("metric1", DataPoint::new(1002, 3.0f64.to_bits())),
    ];

    storage.insert_rows(&rows).unwrap();

    let points = storage.select("metric1", &Vec::new(), 1000, 1003).unwrap();
    assert_eq!(points.len(), 3);
    assert_eq!(f64::from_bits(points[0].value), 1.0);
    assert_eq!(f64::from_bits(points[1].value), 2.0);
    assert_eq!(f64::from_bits(points[2].value), 3.0);
}

#[test]
fn test_labeled_metrics() {
    let mut storage = StorageBuilder::new().build().unwrap();

    let labels1 = vec![Label::new("host", "server1")];
    let labels2 = vec![Label::new("host", "server2")];

    let rows = vec![
        Row::with_labels("cpu", labels1.clone(), DataPoint::new(1000, 10.0f64.to_bits())),
        Row::with_labels("cpu", labels2.clone(), DataPoint::new(1000, 20.0f64.to_bits())),
    ];

    storage.insert_rows(&rows).unwrap();

    let points1 = storage.select("cpu", &labels1, 999, 1001).unwrap();
    assert_eq!(points1.len(), 1);
    assert_eq!(f64::from_bits(points1[0].value), 10.0);

    let points2 = storage.select("cpu", &labels2, 999, 1001).unwrap();
    assert_eq!(points2.len(), 1);
    assert_eq!(f64::from_bits(points2[0].value), 20.0);
}

#[test]
fn test_no_data_points_error() {
    let storage = StorageBuilder::new().build().unwrap();

    let result = storage.select("nonexistent", &Vec::new(), 1000, 2000);
    assert!(result.is_ok());
    assert_eq!(result.unwrap().len(), 0);
}

#[test]
fn test_invalid_time_range() {
    let storage = StorageBuilder::new().build().unwrap();

    let result = storage.select("metric", &Vec::new(), 2000, 1000);
    assert!(matches!(result, Err(TsinkError::InvalidTimeRange { .. })));
}

#[test]
fn test_empty_metric_name() {
    let storage = StorageBuilder::new().build().unwrap();

    let result = storage.select("", &Vec::new(), 1000, 2000);
    assert!(matches!(result, Err(TsinkError::MetricRequired)));
}

/// Close and reopen through the write-ahead log: the rows survive a
/// restart by replay.
#[test]
fn test_persistence() {
    let rows = vec![
        Row::new("persistent_metric", DataPoint::new(1000, 100.0f64.to_bits())),
        Row::new("persistent_metric", DataPoint::new(1001, 101.0f64.to_bits())),
    ];

    // Insert data, logging every row, and close.
    let mut wal = Wal::new();
    {
        let mut storage = StorageBuilder::new().build().unwrap();
        wal.append_rows(&rows).unwrap();
        storage.insert_rows(&rows).unwrap();
        storage.flush_partitions();
    }

    // Reopen: replay the log into a fresh storage and verify.
    {
        let mut storage = StorageBuilder::new().build().unwrap();
        let recovered = wal.read_all().unwrap();
        storage.insert_rows(&recovered).unwrap();

        let points = storage
            .select("persistent_metric", &Vec::new(), 999, 1002)
            .unwrap();
        assert_eq!(points.len(), 2);
        assert_eq!(f64::from_bits(points[0].value), 100.0);
        assert_eq!(f64::from_bits(points[1].value), 101.0);
    }
}

#[test]
fn test_out_of_order_inserts() {
    let mut storage = StorageBuilder::new()
        .with_timestamp_precision(TimestampPrecision::Seconds)
        .build()
        .unwrap();

    let rows = vec![
        Row::new("metric", DataPoint::new(1002, 3.0f64.to_bits())),
        Row::new("metric", DataPoint::new(1000, 1.0f64.to_bits())),
        Row::new("metric", DataPoint::new(1001, 2.0f64.to_bits())),
    ];

    storage.insert_rows(&rows).unwrap();

    let points = storage.select("metric", &Vec::new(), 999, 1003).unwrap();
    assert_eq!(points.len(), 3);

    // Should be returned in order
    assert_eq!(points[0].timestamp, 1000);
    assert_eq!(points[1].timestamp, 1001);
    assert_eq!(points[2].timestamp, 1002);
}

#[test]
fn test_concurrent_writes() {
    let mut storage = StorageBuilder::new()
        .with_timestamp_precision(TimestampPrecision::Seconds)
        .build()
        .unwrap();

    // First, test that single writes work.
    let test_timestamp = 1_000_000;
    let test_row = vec![Row::new(
        "test_metric",
        DataPoint::new(test_timestamp, 42.0f64.to_bits()),
    )];
    storage.insert_rows(&test_row).unwrap();

    let test_points = storage
        .select("test_metric", &Vec::new(), test_timestamp - 1, test_timestamp + 1)
        .unwrap();
    assert_eq!(test_points.len(), 1);
    assert_eq!(f64::from_bits(test_points[0].value), 42.0);

    // Ten writers, one row each, into the shared metric.
    let base_timestamp = 2_000_000;
    for i in 0..10 {
        let rows = vec![Row::new(
            "concurrent_metric",
            DataPoint::new(base_timestamp + i as i64, (i as f64).to_bits()),
        )];
        storage.insert_rows(&rows).unwrap();
    }

    let points = storage
        .select(
            "concurrent_metric",
            &Vec::new(),
            base_timestamp - 1,
            base_timestamp + 20,
        )
        .unwrap_or_else(|e| {
            panic!("Failed to find data for concurrent_metric: {:?}", e);
        });

    assert_eq!(points.len(), 10, "Expected 10 points for concurrent_metric");

    let mut values: Vec<f64> = points.iter().map(|p| f64::from_bits(p.value)).collect();
    values.sort_by(|a, b| a.partial_cmp(b).unwrap());
    let expected: Vec<f64> = (0..10).map(|i| i as f64).collect();
    assert_eq!(values, expected);
}

#[test]
fn test_select_returns_sorted_points() {
    let mut storage = StorageBuilder::new()
        .with_timestamp_precision(TimestampPrecision::Seconds)
        .with_partition_duration(2)
        .with_wal_enabled(false)
        .build()
        .unwrap();

    let rows = vec![
        Row::new("sorted_metric", DataPoint::new(5, 1.0f64.to_bits())),
        Row::new("sorted_metric", DataPoint::new(1, 2.0f64.to_bits())),
        Row::new("sorted_metric", DataPoint::new(3, 3.0f64.to_bits())),
    ];

    storage.insert_rows(&rows).unwrap();

    let points = storage
        .select("sorted_metric", &Vec::new(), 0, 10)
        .expect("select should succeed");

    assert_eq!(points.len(), 3);
    assert!(points.windows(2).all(|w| w[0].timestamp <= w[1].timestamp));
}

#[test]
fn test_persistence_with_existing_partitions_still_allows_writes() {
    let mut wal = Wal::new();
    let mut storage = StorageBuilder::new()
        .with_timestamp_precision(TimestampPrecision::Seconds)
        .with_partition_duration(1)
        .build()
        .unwrap();

    // Create sealed partitions, as a reopened store would hold.
    let old_rows = vec![
        Row::new("persist", DataPoint::new(1, 1.0f64.to_bits())),
        Row::new("persist", DataPoint::new(2, 2.0f64.to_bits())),
    ];
    wal.append_rows(&old_rows).unwrap();
    storage.insert_rows(&old_rows).unwrap();
    storage.flush_partitions();

    // Should still accept new writes into a new window.
    let new_rows = vec![Row::new("persist", DataPoint::new(3, 3.0f64.to_bits()))];
    wal.append_rows(&new_rows).unwrap();
    storage.insert_rows(&new_rows).unwrap();

    let live_points = storage.select("persist", &Vec::new(), 0, 10).unwrap();
    assert!(
        live_points
            .iter()
            .any(|p| p.timestamp == 3 && (f64::from_bits(p.value) - 3.0).abs() < 1e-12),
        "newly inserted point should be present before close"
    );

    // Reopen by replay and ensure the new point is still present.
    let mut reopened = StorageBuilder::new()
        .with_timestamp_precision(TimestampPrecision::Seconds)
        .with_partition_duration(1)
        .build()
        .unwrap();
    reopened.insert_rows(&wal.read_all().unwrap()).unwrap();
    let points = reopened.select("persist", &Vec::new(), 0, 10).unwrap();
    assert!(
        points
            .iter()
            .any(|p| p.timestamp == 3 && (f64::from_bits(p.value) - 3.0).abs() < 1e-12),
        "newly inserted point should survive close/reopen even with existing disk partitions"
    );
}

#[test]
fn test_select_across_multiple_partitions_persistent() {
    let mut wal = Wal::new();
    let mut storage = StorageBuilder::new()
        .with_timestamp_precision(TimestampPrecision::Seconds)
        .with_partition_duration(2)
        .build()
        .unwrap();

    // Insert out-of-order but spanning multiple partitions.
    let rows = vec![
        Row::new("multi_part", DataPoint::new(10, 1.0f64.to_bits())),
        Row::new("multi_part", DataPoint::new(13, 2.0f64.to_bits())),
        Row::new("multi_part", DataPoint::new(11, 3.0f64.to_bits())),
    ];
    wal.append_rows(&rows).unwrap();
    storage.insert_rows(&rows).unwrap();
    storage.flush_partitions();

    let mut reopened = StorageBuilder::new()
        .with_timestamp_precision(TimestampPrecision::Seconds)
        .with_partition_duration(2)
        .build()
        .unwrap();
    reopened.insert_rows(&wal.read_all().unwrap()).unwrap();

    let points = reopened.select("multi_part", &Vec::new(), 0, 20).unwrap();
    assert_eq!(
        points.len(),
        3,
        "should read all points across partitions, got {:?}",
        points
    );
    assert!(points.windows(2).all(|w| w[0].timestamp <= w[1].timestamp));
}

/// A write into a window already sealed to disk is rejected, and the
/// store is otherwise untouched.
#[test]
fn test_past_window_rejected() {
    let mut storage = StorageBuilder::new()
        .with_timestamp_precision(TimestampPrecision::Seconds)
        .with_partition_duration(2)
        .build()
        .unwrap();

    storage
        .insert_rows(&vec![Row::new("m", DataPoint::new(10, 1.0f64.to_bits()))])
        .unwrap();
    storage.flush_partitions();

    let result = storage.insert_rows(&vec![Row::new("m", DataPoint::new(11, 2.0f64.to_bits()))]);
    assert!(matches!(result, Err(TsinkError::PastWindow)));

    let points = storage.select("m", &Vec::new(), 0, 20).unwrap();
    assert_eq!(points.len(), 1);
}

/// The sample codec is lossless on a concrete series, out-of-range
/// values and negative timestamps included.
#[test]
fn test_codec_round_trip_concrete() {
    let points = vec![
        DataPoint::new(-5, (-1.5f64).to_bits()),
        DataPoint::new(0, 0.0f64.to_bits()),
        DataPoint::new(1000, 1.25f64.to_bits()),
        DataPoint::new(1000, 1.25f64.to_bits()),
        DataPoint::new(1001, f64::MAX.to_bits()),
        DataPoint::new(i64::MAX, u64::MAX),
    ];
    let encoded = encode_points(&points);
    let decoded = decode_points(&encoded).expect("decoding an encoded block succeeds");
    assert_eq!(decoded, points);

    let empty: Vec<DataPoint> = Vec::new();
    let enc_empty = encode_points(&empty);
    assert_eq!(decode_points(&enc_empty).unwrap(), empty);
}

/// A corrupt block is refused rather than misread.
#[test]
fn test_codec_rejects_corrupt_block() {
    let points = vec![DataPoint::new(7, 3.5f64.to_bits())];
    let mut encoded = encode_points(&points);
    encoded.push(0);
    assert!(decode_points(&encoded).is_none());
}

/// A row with an empty metric fails the whole batch with no effect.
#[test]
fn test_insert_empty_metric_rejected() {
    let mut storage = StorageBuilder::new()
        .with_timestamp_precision(TimestampPrecision::Seconds)
        .build()
        .unwrap();
    let rows = vec![
        Row::new("ok_metric", DataPoint::new(1, 1.0f64.to_bits())),
        Row::new("", DataPoint::new(2, 2.0f64.to_bits())),
    ];
    assert!(matches!(
        storage.insert_rows(&rows),
        Err(TsinkError::MetricRequired)
    ));
    let points = storage.select("ok_metric", &Vec::new(), 0, 10).unwrap();
    assert_eq!(points.len(), 0);
}

/// The wall clock helper yields non-negative unit counts, and the
/// duration conversion is exact at each precision.
#[test]
fn test_time_conversions() {
    assert!(tsink::now_in_precision(TimestampPrecision::Seconds) >= 0);
    assert_eq!(
        tsink::duration_to_units(3, 500_000_000, TimestampPrecision::Milliseconds),
        3500
    );
    assert_eq!(
        tsink::duration_to_units(3, 500_000_000, TimestampPrecision::Seconds),
        3
    );
    assert_eq!(
        tsink::duration_to_units(2, 5, TimestampPrecision::Nanoseconds),
        2_000_000_005
    );
    assert_eq!(
        tsink::duration_to_units(u64::MAX, 0, TimestampPrecision::Nanoseconds),
        i64::MAX
    );
}

/// A write older than the oldest writable partition is rejected even
/// when nothing was flushed to disk yet.
#[test]
fn test_writable_partitions_limit() {
    let mut storage = StorageBuilder::new()
        .with_timestamp_precision(TimestampPrecision::Seconds)
        .with_partition_duration(1)
        .build()
        .unwrap();
    storage
        .insert_rows(&vec![Row::new("m", DataPoint::new(10, 1.0f64.to_bits()))])
        .unwrap();
    storage
        .insert_rows(&vec![Row::new("m", DataPoint::new(11, 2.0f64.to_bits()))])
        .unwrap();
    // the two newest windows are writable by default; window 5 is not
    let result = storage.insert_rows(&vec![Row::new("m", DataPoint::new(5, 3.0f64.to_bits()))]);
    assert!(matches!(result, Err(TsinkError::PastWindow)));
    let points = storage.select("m", &Vec::new(), 0, 100).unwrap();
    assert_eq!(points.len(), 2);
}

/// Sealing by age closes old windows to writes; eviction by retention
/// drops sealed partitions whose newest point fell out of the window.
#[test]
fn test_flush_and_evict_older_than() {
    let mut storage = StorageBuilder::new()
        .with_timestamp_precision(TimestampPrecision::Seconds)
        .with_partition_duration(1)
        .with_writable_partitions(3)
        .build()
        .unwrap();
    let rows = vec![
        Row::new("m", DataPoint::new(10, 1.0f64.to_bits())),
        Row::new("m", DataPoint::new(11, 2.0f64.to_bits())),
        Row::new("m", DataPoint::new(12, 3.0f64.to_bits())),
    ];
    storage.insert_rows(&rows).unwrap();

    storage.flush_older_than(12);
    let result = storage.insert_rows(&vec![Row::new("m", DataPoint::new(10, 9.0f64.to_bits()))]);
    assert!(matches!(result, Err(TsinkError::PastWindow)));

    storage.evict_older_than(11);
    let points = storage.select("m", &Vec::new(), 0, 100).unwrap();
    assert_eq!(points.len(), 2);
    assert_eq!(points[0].timestamp, 11);
    assert_eq!(points[1].timestamp, 12);
}

/// The partition index codec is lossless on a concrete index.
#[test]
fn test_meta_round_trip_concrete() {
    let entries = vec![
        tsink::meta::MetaEntry {
            metric: String::from("cpu"),
            labels: vec![Label::new("host", "a")],
            offset: 0,
            length: 17,
        },
        tsink::meta::MetaEntry {
            metric: String::from("r\u{e9}gion"),
            labels: Vec::new(),
            offset: 17,
            length: 300,
        },
    ];
    let bytes = tsink::meta::encode_meta(&entries);
    let parsed = tsink::meta::parse_meta(&bytes).unwrap();
    assert_eq!(parsed.len(), 2);
    assert_eq!(parsed[0].metric, "cpu");
    assert_eq!(parsed[0].labels[0].name, "host");
    assert_eq!(parsed[0].offset, 0);
    assert_eq!(parsed[0].length, 17);
    assert_eq!(parsed[1].metric, "r\u{e9}gion");
    assert_eq!(parsed[1].offset, 17);
    assert_eq!(parsed[1].length, 300);

    let mut corrupt = bytes.clone();
    corrupt.push(0xFF);
    assert!(tsink::meta::parse_meta(&corrupt).is_err());
}

/// Labels are canonicalized, so the same label set in any order names
/// the same series.
#[test]
fn test_label_order_is_canonicalized() {
    let mut storage = StorageBuilder::new()
        .with_timestamp_precision(TimestampPrecision::Seconds)
        .build()
        .unwrap();
    let ab = vec![Label::new("a", "1"), Label::new("b", "2")];
    let ba = vec![Label::new("b", "2"), Label::new("a", "1")];
    storage
        .insert_rows(&vec![Row::with_labels("m", ab.clone(), DataPoint::new(5, 1.0f64.to_bits()))])
        .unwrap();
    let points = storage.select("m", &ba, 0, 10).unwrap();
    assert_eq!(points.len(), 1);
}
