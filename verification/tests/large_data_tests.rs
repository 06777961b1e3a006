use mfas_core::codec::verify_stream;
use mfas_core::resolver::MemoryStore;
use mfas_core::synthetic::SyntheticStream;

#[test]
fn test_large_repetitive_stream_100mb() {
    let total_bytes = 100 * 1024 * 1024;
    let mut stream = SyntheticStream::repeat(vec![0xAA; 4096], total_bytes / 4096);
    let mut store = MemoryStore::new();

    let report = verify_stream(&mut stream, &mut store).unwrap();
    assert!(report.verified, "100 MB repetitive stream must verify bit-for-bit");
    assert_eq!(report.total_bytes, total_bytes);

    assert!(
        store.len() <= 3,
        "Store must only contain 1-3 nodes due to on-the-fly run-length deduplication, got {}",
        store.len()
    );
}

#[test]
fn test_large_counter_stream_10mb() {
    let total_bytes = 10 * 1024 * 1024;
    let mut stream = SyntheticStream::counter(total_bytes);
    let mut store = MemoryStore::new();

    let report = verify_stream(&mut stream, &mut store).unwrap();
    assert!(report.verified, "10 MB counter stream must verify bit-for-bit");
    assert_eq!(report.total_bytes, total_bytes);
}

#[test]
fn test_large_zeros_stream_50mb() {
    let total_bytes = 50 * 1024 * 1024;
    let mut stream = SyntheticStream::zeros(total_bytes);
    let mut store = MemoryStore::new();

    let report = verify_stream(&mut stream, &mut store).unwrap();
    assert!(report.verified, "50 MB zeros stream must verify bit-for-bit");
    assert_eq!(report.total_bytes, total_bytes);
}
