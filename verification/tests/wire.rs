use mandel::dispatch::{dispatch_on_host, plan_dispatch, read_results, DispatchError, DispatchPlan, BATCH_CAPACITY, BUFFER_BYTES, WORKGROUP_SIZE};
use mandel::evaluator::solve_mandel;
use mandel::vector::Vector4;
use mandel::wire::{decode_batch, encode_batch, VECTOR_BYTES};

#[test]
fn words_go_out_least_significant_byte_first() {
    let batch = vec![Vector4::from_bits([0x0403_0201, 0x0807_0605, 0x0c0b_0a09, 0x100f_0e0d])];
    let bytes = encode_batch(&batch);
    assert_eq!(bytes, (1..=16u8).collect::<Vec<u8>>());
    assert_eq!(bytes.len(), VECTOR_BYTES);
}

#[test]
fn the_layout_is_that_of_the_machine_words() {
    let v = [1.5f32, -2.25, 0.0, 250.0];
    let batch = vec![Vector4::from_bits(v.map(|x| x.to_bits()))];
    let mut want = Vec::new();
    for x in v {
        want.extend_from_slice(&x.to_le_bytes());
    }
    assert_eq!(encode_batch(&batch), want);
}

#[test]
fn decoding_undoes_encoding() {
    let batch: Vec<Vector4> = (0..100u32)
        .map(|i| Vector4::from_bits([i.wrapping_mul(0x9e37_79b9), !i, i << 24, 0xffff_ffff - i]))
        .collect();
    let bytes = encode_batch(&batch);
    assert_eq!(bytes.len(), 1600);
    assert_eq!(decode_batch(&bytes), Some(batch));
    assert_eq!(decode_batch(&[]), Some(Vec::new()));
    assert_eq!(encode_batch(&Vec::new()), Vec::<u8>::new());
}

#[test]
fn a_buffer_that_ends_inside_a_vector_is_refused() {
    assert_eq!(decode_batch(&[0u8; 15]), None);
    assert_eq!(decode_batch(&[0u8; 17]), None);
    assert_eq!(decode_batch(&[0u8; 1]), None);
    assert_eq!(decode_batch(&[0u8; 32]).map(|v| v.len()), Some(2));
}

#[test]
fn a_plan_sizes_the_transfer_and_the_workgroups() {
    assert_eq!(plan_dispatch(0), Err(DispatchError::EmptyBatch));
    assert_eq!(plan_dispatch(1), Ok(DispatchPlan { transfer_bytes: 16, workgroups: 1 }));
    assert_eq!(plan_dispatch(100), Ok(DispatchPlan { transfer_bytes: 1600, workgroups: 1 }));
    assert_eq!(plan_dispatch(256), Ok(DispatchPlan { transfer_bytes: 4096, workgroups: 1 }));
    assert_eq!(plan_dispatch(257), Ok(DispatchPlan { transfer_bytes: 4112, workgroups: 2 }));
    assert_eq!(plan_dispatch(65536), Ok(DispatchPlan { transfer_bytes: BUFFER_BYTES, workgroups: 256 }));
    assert_eq!(plan_dispatch(65537), Err(DispatchError::BatchTooLarge));
    assert_eq!(BUFFER_BYTES, (BATCH_CAPACITY * VECTOR_BYTES) as u64);
    assert_eq!(WORKGROUP_SIZE, 256);
}

#[test]
fn results_are_read_from_the_start_of_the_buffer() {
    let batch = vec![Vector4::from_bits([1, 2, 3, 4]), Vector4::from_bits([5, 6, 7, 8])];
    let mut bytes = encode_batch(&batch);
    assert_eq!(read_results(2, &bytes), Ok(batch.clone()));
    assert_eq!(read_results(1, &bytes), Ok(vec![batch[0]]));
    assert_eq!(read_results(0, &bytes), Ok(Vec::new()));
    assert_eq!(read_results(3, &bytes), Err(DispatchError::Truncated));
    bytes.extend_from_slice(&[0xaa; 40]);
    assert_eq!(read_results(2, &bytes), Ok(batch));
    assert_eq!(read_results(65537, &bytes), Err(DispatchError::BatchTooLarge));
}

#[test]
fn the_host_dispatch_answers_every_coordinate_in_order() {
    let batch: Vec<Vector4> = (0..300u32)
        .map(|i| Vector4::from_bits([(-2.0 + 0.013 * i as f32).to_bits(), (0.004 * i as f32).to_bits(), 0, 0]))
        .collect();
    for len in [1usize, 2, 255, 256, 257, 300] {
        let part = batch[..len].to_vec();
        let res = dispatch_on_host(&part).unwrap();
        assert_eq!(res.len(), len);
        assert_eq!(res, solve_mandel(&part));
    }
    assert_eq!(dispatch_on_host(&Vec::new()), Err(DispatchError::EmptyBatch));
}

#[test]
fn the_host_dispatch_takes_the_longest_batch_and_no_longer() {
    let far = Vector4::from_bits([3.0f32.to_bits(), 3.0f32.to_bits(), 0, 0]);
    let full = vec![far; 65536];
    assert_eq!(dispatch_on_host(&full).map(|r| r.len()), Ok(65536));
    let over = vec![far; 65537];
    assert_eq!(dispatch_on_host(&over), Err(DispatchError::BatchTooLarge));
}

#[test]
fn a_dispatch_repeats() {
    let batch = vec![Vector4::from_bits([0.3f32.to_bits(), 0.5f32.to_bits(), 0, 0]); 3];
    assert_eq!(dispatch_on_host(&batch), dispatch_on_host(&batch));
}

#[test]
fn a_device_that_writes_the_samples_serves_the_dispatch() {
    let batch = vec![
        Vector4::from_bits([0, 0, 0, 0]),
        Vector4::from_bits([(-1.0f32).to_bits(), 1.0f32.to_bits(), 0, 0]),
    ];
    let samples = solve_mandel(&batch);
    let mut buffer = encode_batch(&samples);
    buffer.resize(BUFFER_BYTES as usize, 0);
    assert_eq!(read_results(batch.len(), &buffer), dispatch_on_host(&batch));
}
