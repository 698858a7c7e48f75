//! Round-trip and exact-value tests for the run-length codec.
use koko::codec::{compress, expand, Run};

#[test]
fn compress_empty_is_empty() {
    let runs = compress(&Vec::new());
    assert_eq!(runs.len(), 0);
    let bytes = expand(&runs);
    assert_eq!(bytes.len(), 0);
}

#[test]
fn compress_all_same_byte_is_one_run() {
    let bytes = vec![9u8; 1000];
    let runs = compress(&bytes);
    assert_eq!(runs.len(), 1);
    assert_eq!(runs[0], Run { value: 9, count: 1000 });
    assert_eq!(expand(&runs), bytes);
}

#[test]
fn compress_alternating_bytes_is_one_run_per_byte() {
    let mut bytes = Vec::new();
    for i in 0..500 {
        bytes.push(if i % 2 == 0 { 1u8 } else { 2u8 });
    }
    let runs = compress(&bytes);
    assert_eq!(runs.len(), 500);
    for (i, run) in runs.iter().enumerate() {
        assert_eq!(run.value, if i % 2 == 0 { 1 } else { 2 });
        assert_eq!(run.count, 1);
    }
    assert_eq!(expand(&runs), bytes);
}

#[test]
fn compress_exact_runs() {
    let bytes = vec![5u8, 5, 5, 1, 7, 7];
    let runs = compress(&bytes);
    assert_eq!(runs.len(), 3);
    assert_eq!(runs[0], Run { value: 5, count: 3 });
    assert_eq!(runs[1], Run { value: 1, count: 1 });
    assert_eq!(runs[2], Run { value: 7, count: 2 });
}

#[test]
fn trailing_run_of_length_one_is_flushed() {
    let bytes = vec![4u8, 4, 9];
    let runs = compress(&bytes);
    assert_eq!(runs.len(), 2);
    assert_eq!(runs[1], Run { value: 9, count: 1 });
    assert_eq!(expand(&runs), bytes);
}

#[test]
fn round_trip_mixed_content() {
    let mut bytes = Vec::new();
    for i in 0..4096 {
        bytes.push(((i * i + i / 7) % 251) as u8);
    }
    let runs = compress(&bytes);
    assert!(runs.len() <= bytes.len());
    assert_eq!(expand(&runs), bytes);
}

#[test]
fn encoded_size_never_exceeds_input_runs() {
    let bytes = vec![0u8, 0, 1, 1, 2, 2, 2, 2, 3];
    let runs = compress(&bytes);
    assert!(runs.len() <= bytes.len());
    assert_eq!(runs.len(), 4);
}
