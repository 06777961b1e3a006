use mfas_core::codec::ByteSource;
use mfas_core::synthetic::{synthetic_by_name, SyntheticStream};

#[test]
fn test_zeros_stream() {
    let mut stream = SyntheticStream::zeros(100);
    let mut buf = Vec::new();
    stream.read_to_end(&mut buf).unwrap();
    assert_eq!(buf.len(), 100);
    assert!(buf.iter().all(|&b| b == 0));
}

#[test]
fn test_counter_stream() {
    let mut stream = SyntheticStream::counter(300);
    let mut buf = Vec::new();
    stream.read_to_end(&mut buf).unwrap();
    assert_eq!(buf.len(), 300);
    assert_eq!(buf[0], 0);
    assert_eq!(buf[255], 255);
    assert_eq!(buf[256], 0);
}

#[test]
fn test_repeat_stream() {
    let mut stream = SyntheticStream::repeat(vec![1, 2, 3], 2);
    let mut buf = Vec::new();
    stream.read_to_end(&mut buf).unwrap();
    assert_eq!(buf, vec![1, 2, 3, 1, 2, 3]);
}

#[test]
fn test_random_stream_deterministic() {
    let mut s1 = SyntheticStream::random(50, 42);
    let mut s2 = SyntheticStream::random(50, 42);

    let mut b1 = Vec::new();
    let mut b2 = Vec::new();
    s1.read_to_end(&mut b1).unwrap();
    s2.read_to_end(&mut b2).unwrap();

    assert_eq!(b1, b2);
}

fn drain(mut s: mfas_core::synthetic::SyntheticStream) -> Vec<u8> {
    let mut buf = Vec::new();
    s.read_to_end(&mut buf).unwrap();
    buf
}

#[test]
fn synthetic_streams_by_name() {
    assert_eq!(drain(synthetic_by_name("zeros", 3, vec![], 0).unwrap()), vec![0, 0, 0]);
    assert_eq!(drain(synthetic_by_name("counter", 3, vec![], 0).unwrap()), vec![0, 1, 2]);
    assert_eq!(drain(synthetic_by_name("repeat", 10, vec![1, 2, 3], 0).unwrap()), vec![1, 2, 3, 1, 2, 3, 1, 2, 3, 1]);
    assert_eq!(drain(synthetic_by_name("repeat", 2, vec![1, 2, 3], 0).unwrap()), vec![1, 2]);
    assert_eq!(drain(synthetic_by_name("repeat", 10, b"MFAS".to_vec(), 42).unwrap()), b"MFASMFASMF".to_vec());
    assert_eq!(drain(synthetic_by_name("repeat", 5, vec![], 0).unwrap()), Vec::<u8>::new());
    assert_eq!(
        drain(synthetic_by_name("random", 16, vec![], 7).unwrap()),
        drain(mfas_core::synthetic::SyntheticStream::random(16, 7))
    );
    assert!(synthetic_by_name("Zeros", 3, vec![], 0).is_none());
    assert!(synthetic_by_name("", 3, vec![], 0).is_none());
}

#[test]
fn synthetic_reads_fill_the_buffer() {
    let mut s = SyntheticStream::counter(10);
    assert_eq!(s.read_chunk(4).unwrap(), vec![0, 1, 2, 3]);
    assert_eq!(s.read_chunk(4).unwrap(), vec![4, 5, 6, 7]);
    assert_eq!(s.read_chunk(4).unwrap(), vec![8, 9]);
    assert_eq!(s.read_chunk(4).unwrap(), Vec::<u8>::new());
}
