use conjecture::data::{DataSource, Status};

#[test]
fn empty_buffer_fails_every_draw() {
    let mut source = DataSource::from_vec(Vec::new());
    assert!(source.bits(1).is_err());
    assert!(source.bits(64).is_err());
    assert!(source.write(5).is_err());
}

#[test]
fn full_width_draws_are_unmasked() {
    let mut source = DataSource::from_vec(vec![u64::MAX]);
    let v = source.bits(64).unwrap();
    assert_eq!(v, u64::MAX);
}

#[test]
fn narrow_draws_are_masked_below_their_width() {
    for k in 1..64u64 {
        let mut source = DataSource::from_vec(vec![u64::MAX]);
        let v = source.bits(k).unwrap();
        assert_eq!(v, (1u64 << k) - 1);
        assert!(v < (1u64 << k));
    }
}

#[test]
fn recorded_draws_replay_the_buffer() {
    let mut source = DataSource::from_vec(vec![3, 250, 7]);
    assert_eq!(source.bits(64).unwrap(), 3);
    assert_eq!(source.bits(7).unwrap(), 122);
    assert_eq!(source.bits(64).unwrap(), 7);
    assert!(source.bits(64).is_err());
}

#[test]
fn results_keep_one_size_per_word_and_written_positions() {
    let mut source = DataSource::from_vec(vec![1, 2, 3, 4]);
    source.bits(8).unwrap();
    source.write(99).unwrap();
    source.bits(16).unwrap();
    let result = source.into_result(Status::Valid);
    assert_eq!(result.record.len(), result.sizes.len());
    assert_eq!(result.record, vec![1, 99, 3]);
    assert_eq!(result.sizes, vec![8, 0, 16]);
    let writes: Vec<usize> = (0..result.sizes.len()).filter(|&i| result.sizes[i] == 0).collect();
    assert_eq!(result.written_indices, writes);
}

#[test]
fn retained_draws_are_nonempty_and_in_bounds() {
    let mut source = DataSource::from_vec(vec![1, 2, 3, 4]);
    assert_eq!(source.open_draw_count(), 0);
    source.start_draw();
    source.bits(64).unwrap();
    source.start_draw();
    source.bits(64).unwrap();
    source.stop_draw();
    source.start_draw();
    source.stop_draw();
    source.stop_draw();
    source.start_draw();
    source.bits(64).unwrap();
    assert_eq!(source.open_draw_count(), 1);
    let result = source.into_result(Status::Invalid);
    // the empty draw is dropped, the open one too
    assert_eq!(result.draws.len(), 2);
    for d in &result.draws {
        assert!(d.start < d.end);
        assert!(d.end <= result.record.len());
    }
    assert_eq!(result.draws[0].depth, 0);
    assert_eq!(result.draws[0].start, 0);
    assert_eq!(result.draws[0].end, 2);
    assert_eq!(result.draws[1].depth, 1);
    assert_eq!(result.draws[1].start, 1);
    assert_eq!(result.draws[1].end, 2);
}

#[test]
fn results_order_by_length_then_lexicographically() {
    let a = DataSource::from_vec(vec![5, 5]);
    let b = DataSource::from_vec(vec![1, 2, 3]);
    let mut sa = a;
    sa.bits(64).unwrap();
    sa.bits(64).unwrap();
    let mut sb = b;
    sb.bits(64).unwrap();
    sb.bits(64).unwrap();
    sb.bits(64).unwrap();
    let ra = sa.into_result(Status::Valid);
    let rb = sb.into_result(Status::Valid);
    assert!(ra.less_than(&rb));
    assert!(!rb.less_than(&ra));
    assert!(ra == ra.clone());
    assert!(!(ra == rb));
}
