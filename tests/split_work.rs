use chunk_map::chunking::{count_chunks, partition, ChunkRange, THRESHOLD};
use chunk_map::mapper::{join_outcomes, plan, run_chunk, split_work, MapError, TransformFault};
use chunk_map::transforms::{add_itself, to_string};

fn fault(chunk_index: usize, detail: &str) -> TransformFault {
    TransformFault { chunk_index, detail: detail.to_string() }
}

#[test]
fn test_ints_to_string() {
    let data: Vec<i32> = vec![1, 2, 3, 5, 6];
    let data_length = data.len();
    let result = split_work(data, |x: &i32| Ok(to_string(x)), THRESHOLD).unwrap();

    assert_eq!(result, vec!["1", "2", "3", "5", "6"]);
    assert_eq!(result.len(), data_length);
}

#[test]
fn test_floats_to_string() {
    let data: Vec<f32> = vec![1.1, 2.2, 3.3, 4.4, 5.5, 6.6];
    let data_length = data.len();
    let result = split_work(data, |x: &f32| Ok(x.to_string()), THRESHOLD).unwrap();

    assert_eq!(result, vec!["1.1", "2.2", "3.3", "4.4", "5.5", "6.6"]);
    assert_eq!(result.len(), data_length);
}

#[test]
fn test_ints_add_itself() {
    let data: Vec<i32> = vec![1, 2, 3, 4, 5, 6];
    let data_length = data.len();
    let result = split_work(data, |x: &i32| Ok(add_itself(x)), THRESHOLD).unwrap();

    assert_eq!(result, vec![2, 4, 6, 8, 10, 12]);
    assert_eq!(result.len(), data_length);
}

#[test]
fn test_floats_add_itself() {
    let data: Vec<f32> = vec![1.1, 2.2, 3.3, 4.4, 5.5, 6.6];
    let data_length = data.len();
    let result = split_work(data, |x: &f32| Ok(*x + *x), THRESHOLD).unwrap();

    assert_eq!(result, vec![2.2, 4.4, 6.6, 8.8, 11.0, 13.2]);
    assert_eq!(result.len(), data_length);
}

#[test]
fn more_data() {
    let data: Vec<i32> = vec![
        17, 100, 28, 6, 59, 36, 80, 78, 89, 97, 78, 40, 59, 26, 88, 41, 39, 100, 77, 87, 90,
        99, 56, 50, 49, 4, 98, 64, 3, 20, 43, 61, 49, 43, 22, 66, 43, 74, 52, 16, 1, 50, 89,
        87, 47, 89, 94, 72, 52, 38, 28, 48, 67, 79, 12, 11, 33, 10, 3, 32, 22, 49, 26, 37, 78,
        57, 89, 73, 17, 20, 59, 40, 38, 16, 6, 80, 49, 54, 20, 3, 32, 72, 66, 15, 94, 31, 29,
        83, 42, 30, 26, 98, 41, 30, 68, 39, 90, 63, 81, 17,
    ];
    let data_length = data.len();
    let data_doubled: Vec<i32> = data.clone().into_iter().map(|i| i + i).collect();
    let result = split_work(data, |x: &i32| Ok(add_itself(x)), THRESHOLD).unwrap();

    assert_eq!(result, data_doubled);
    assert_eq!(result.len(), data_length);
}

#[test]
fn panics() {
    let data: Vec<f32> = vec![1.1, 2.2, 3.3, 4.4, 5.5, 6.6];
    let result = split_work(data, |_x: &f32| -> Result<f32, String> { Err("boom".to_string()) }, THRESHOLD);

    assert_eq!(
        result,
        Err(MapError::AggregateFailure(vec![fault(0, "boom"), fault(1, "boom"), fault(2, "boom")]))
    );
    assert!(result.is_err());
}

#[test]
fn odd_length_stringified_in_order() {
    let data: Vec<i32> = vec![1, 2, 3, 4, 5];
    let result = split_work(data, |x: &i32| Ok(to_string(x)), 2);
    assert_eq!(result, Ok(vec!["1".to_string(), "2".to_string(), "3".to_string(), "4".to_string(), "5".to_string()]));
}

#[test]
fn empty_input_gives_empty_output() {
    let data: Vec<i32> = vec![];
    let result = split_work(data, |_x: &i32| -> Result<i32, String> { Err("never".to_string()) }, 2);
    assert_eq!(result, Ok(vec![]));
    let p = plan(0, 2).unwrap();
    assert!(p.chunks.is_empty());
    assert!(!p.spawn_workers);
}

#[test]
fn zero_threshold_is_rejected() {
    let data: Vec<i32> = vec![1, 2, 3];
    let result = split_work(data, |x: &i32| Ok(*x), 0);
    assert_eq!(result, Err(MapError::InvalidConfiguration));
    assert!(matches!(plan(3, 0), Err(MapError::InvalidConfiguration)));
    assert!(matches!(plan(0, 0), Err(MapError::InvalidConfiguration)));
}

#[test]
fn threshold_boundary_spawns_no_workers() {
    let p = plan(2, 2).unwrap();
    assert!(!p.spawn_workers);
    assert_eq!(p.chunks, vec![ChunkRange { index: 0, start: 0, end: 2 }]);
    let p = plan(3, 2).unwrap();
    assert!(p.spawn_workers);
    assert_eq!(
        p.chunks,
        vec![ChunkRange { index: 0, start: 0, end: 2 }, ChunkRange { index: 1, start: 2, end: 3 }]
    );
}

#[test]
fn chunk_counts_round_up() {
    assert_eq!(count_chunks(0, 2), 0);
    assert_eq!(count_chunks(5, 2), 3);
    assert_eq!(count_chunks(6, 2), 3);
    assert_eq!(count_chunks(7, 3), 3);
    assert_eq!(count_chunks(7, 1), 7);
    assert_eq!(count_chunks(usize::MAX, 2), usize::MAX / 2 + 1);
}

#[test]
fn partition_covers_input_in_order() {
    assert_eq!(
        partition(7, 3),
        vec![
            ChunkRange { index: 0, start: 0, end: 3 },
            ChunkRange { index: 1, start: 3, end: 6 },
            ChunkRange { index: 2, start: 6, end: 7 },
        ]
    );
    assert_eq!(partition(4, 10), vec![ChunkRange { index: 0, start: 0, end: 4 }]);
}

#[test]
fn one_faulting_chunk_is_isolated() {
    let data: Vec<i32> = vec![1, 2, 3, 4, 5, 6];
    let f = |x: &i32| -> Result<i32, String> {
        if *x == 4 { Err(format!("bad {}", x)) } else { Ok(*x * 10) }
    };
    let result = split_work(data, f, 2);
    assert_eq!(result, Err(MapError::AggregateFailure(vec![fault(1, "bad 4")])));
}

#[test]
fn chunk_reports_its_first_fault() {
    let data: Vec<i32> = vec![1, 2, 3, 4, 5, 6, 7];
    let f = |x: &i32| -> Result<i32, String> {
        if *x >= 4 { Err(format!("bad {}", x)) } else { Ok(*x) }
    };
    let result = split_work(data, f, 3);
    assert_eq!(result, Err(MapError::AggregateFailure(vec![fault(1, "bad 4"), fault(2, "bad 7")])));
}

#[test]
fn sequential_path_fault_is_chunk_zero() {
    let data: Vec<i32> = vec![1, 2];
    let result = split_work(data, |x: &i32| -> Result<i32, String> {
        if *x == 2 { Err("two".to_string()) } else { Ok(*x) }
    }, 2);
    assert_eq!(result, Err(MapError::AggregateFailure(vec![fault(0, "two")])));
}

#[test]
fn repeated_runs_agree() {
    let data: Vec<i32> = vec![3, -1, 4, -1, 5, -9, 2];
    let f = |x: &i32| -> Result<String, String> {
        if *x < -5 { Err("too small".to_string()) } else { Ok(to_string(x)) }
    };
    let first = split_work(data.clone(), f, 2);
    let second = split_work(data.clone(), f, 2);
    assert_eq!(first, second);
    assert_eq!(first, Err(MapError::AggregateFailure(vec![fault(2, "too small")])));
    let g = |x: &i32| Ok(add_itself(x));
    assert_eq!(split_work(data.clone(), g, 3), split_work(data, g, 3));
}

#[test]
fn large_threshold_runs_inline() {
    let data: Vec<i32> = vec![7, 8, 9];
    let result = split_work(data, |x: &i32| Ok(add_itself(x)), usize::MAX);
    assert_eq!(result, Ok(vec![14, 16, 18]));
    assert!(!plan(3, usize::MAX).unwrap().spawn_workers);
}

#[test]
fn run_chunk_maps_its_range() {
    let data: Vec<i32> = vec![1, 2, 3, 4, 5];
    let chunk = ChunkRange { index: 1, start: 2, end: 4 };
    let out = run_chunk(&data, &chunk, &|x: &i32| -> Result<i32, String> { Ok(*x + 100) });
    assert_eq!(out, Ok(vec![103, 104]));
    let bad = run_chunk(&data, &chunk, &|x: &i32| -> Result<i32, String> { Err(format!("at {}", x)) });
    assert_eq!(bad, Err(fault(1, "at 3")));
    let empty = ChunkRange { index: 0, start: 5, end: 5 };
    assert_eq!(run_chunk(&data, &empty, &|x: &i32| -> Result<i32, String> { Ok(*x) }), Ok(vec![]));
}

#[test]
fn join_concatenates_or_collects_every_fault() {
    let ok: Vec<Result<Vec<i32>, TransformFault>> = vec![Ok(vec![1, 2]), Ok(vec![]), Ok(vec![3])];
    assert_eq!(join_outcomes(ok), Ok(vec![1, 2, 3]));
    let mixed: Vec<Result<Vec<i32>, TransformFault>> =
        vec![Ok(vec![1, 2]), Err(fault(1, "x")), Ok(vec![5]), Err(fault(3, "y"))];
    assert_eq!(join_outcomes(mixed), Err(MapError::AggregateFailure(vec![fault(1, "x"), fault(3, "y")])));
    let none: Vec<Result<Vec<i32>, TransformFault>> = vec![];
    assert_eq!(join_outcomes(none), Ok(vec![]));
}

#[test]
fn to_string_writes_decimal() {
    assert_eq!(to_string(&0), "0");
    assert_eq!(to_string(&-12), "-12");
    assert_eq!(to_string(&120), "120");
    assert_eq!(to_string(&i32::MIN), "-2147483648");
    assert_eq!(to_string(&i32::MAX), "2147483647");
}

#[test]
fn add_itself_doubles() {
    assert_eq!(add_itself(&0), 0);
    assert_eq!(add_itself(&-7), -14);
    assert_eq!(add_itself(&1073741823), 2147483646);
}
