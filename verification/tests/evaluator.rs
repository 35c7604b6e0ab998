use mandel::binary32::Binary32;
use mandel::evaluator::{escape_time, evaluate, shade_of, solve_mandel, MAX_ITER};
use mandel::vector::Vector4;

fn point(re: f32, im: f32) -> Vector4 {
    Vector4::from_bits([re.to_bits(), im.to_bits(), 0, 0])
}

fn colour(r: f32, g: f32, b: f32, a: f32) -> [u32; 4] {
    [r.to_bits(), g.to_bits(), b.to_bits(), a.to_bits()]
}

/// The iteration as the hardware computes it.
fn reference(cx: f32, cy: f32) -> [f32; 4] {
    let mut a: f32 = 0.0;
    let mut b: f32 = 0.0;
    for i in 0..256u32 {
        let a2 = a * a - (b * b) + cx;
        let b2 = 2.0 * a * b + cy;
        a = a2;
        b = b2;
        let d = a * a + b * b;
        if d > 4.0 {
            let g = (i as f32) * 5.0;
            return [g, g, 0.0, 250.0];
        }
    }
    [0.0, 0.0, 0.0, 250.0]
}

#[test]
fn the_origin_is_bounded() {
    assert_eq!(escape_time(&point(0.0, 0.0)), None);
    assert_eq!(evaluate(&point(0.0, 0.0)).to_bits(), colour(0.0, 0.0, 0.0, 250.0));
    assert_eq!(escape_time(&point(-0.0, -0.0)), None);
    // the unused components do not matter
    let c = Vector4::from_bits([0, 0, 7.5f32.to_bits(), f32::NAN.to_bits()]);
    assert_eq!(evaluate(&c).to_bits(), colour(0.0, 0.0, 0.0, 250.0));
}

#[test]
fn far_points_escape_at_once() {
    assert_eq!(escape_time(&point(2.5, 2.5)), Some(0));
    assert_eq!(evaluate(&point(2.5, 2.5)).to_bits(), colour(0.0, 0.0, 0.0, 250.0));
    assert_eq!(escape_time(&point(3.0, 3.0)), Some(0));
    assert_eq!(evaluate(&point(3.0, 3.0)).to_bits(), colour(0.0, 0.0, 0.0, 250.0));
    assert_eq!(escape_time(&point(f32::INFINITY, 0.0)), Some(0));
    assert_eq!(escape_time(&point(-2.0, 0.5)), Some(0));
}

#[test]
fn a_sum_of_squares_that_rounds_to_four_does_not_escape_at_once() {
    // 4 + 2^-60 is more than four, but binary32 rounds it to four
    let tiny = f32::from_bits(0x3080_0000);
    assert_eq!(tiny, 2.0f32.powi(-30));
    let c = point(2.0, tiny);
    assert_eq!(escape_time(&c), Some(1));
    assert_eq!(evaluate(&c).to_bits(), reference(2.0, tiny).map(|x| x.to_bits()));
    assert_eq!(evaluate(&c).to_bits(), colour(5.0, 5.0, 0.0, 250.0));
}

#[test]
fn escapes_after_a_few_iterations() {
    assert_eq!(escape_time(&point(-1.0, -1.0)), Some(2));
    assert_eq!(evaluate(&point(-1.0, -1.0)).to_bits(), colour(10.0, 10.0, 0.0, 250.0));
    assert_eq!(escape_time(&point(1.0, -1.0)), Some(1));
    assert_eq!(evaluate(&point(1.0, -1.0)).to_bits(), colour(5.0, 5.0, 0.0, 250.0));
    assert_eq!(escape_time(&point(-1.0, 1.0)), Some(2));
    assert_eq!(escape_time(&point(1.0, 1.0)), Some(1));
}

#[test]
fn points_of_the_set_stay_bounded() {
    assert_eq!(escape_time(&point(-1.0, 0.0)), None);
    assert_eq!(escape_time(&point(0.25, 0.0)), None);
    assert_eq!(escape_time(&point(-0.5, 0.5)), None);
    assert_eq!(escape_time(&point(f32::NAN, 0.0)), None);
    assert_eq!(evaluate(&point(f32::NAN, 0.0)).to_bits(), colour(0.0, 0.0, 0.0, 250.0));
}

#[test]
fn shades_are_five_times_the_iteration() {
    assert_eq!(shade_of(None).to_bits(), colour(0.0, 0.0, 0.0, 250.0));
    assert_eq!(shade_of(Some(0)).to_bits(), colour(0.0, 0.0, 0.0, 250.0));
    for i in 0..MAX_ITER {
        let g = (i as f32) * 5.0;
        assert_eq!(shade_of(Some(i)).to_bits(), colour(g, g, 0.0, 250.0));
    }
    assert_eq!(shade_of(Some(255)).to_bits(), colour(1275.0, 1275.0, 0.0, 250.0));
    assert_eq!(shade_of(Some(1000)).to_bits(), colour(5000.0, 5000.0, 0.0, 250.0));
    assert_eq!(shade_of(Some(u32::MAX)).to_bits(), colour((u32::MAX as f32) * 5.0, (u32::MAX as f32) * 5.0, 0.0, 250.0));
}

#[test]
fn the_evaluator_matches_the_hardware() {
    let n = 48;
    for j in 0..n {
        for i in 0..n {
            let cx = -2.2 + 4.4 * (i as f32) / (n as f32);
            let cy = -2.2 + 4.4 * (j as f32) / (n as f32);
            let got = evaluate(&point(cx, cy)).to_bits();
            let want = reference(cx, cy).map(|x| x.to_bits());
            assert_eq!(got, want, "({}, {})", cx, cy);
        }
    }
}

#[test]
fn the_boundary_is_slow_to_escape() {
    let c = point(-0.75, 0.02);
    let want = reference(-0.75, 0.02);
    assert!(want[0] > 255.0);
    assert_eq!(evaluate(&c).to_bits(), want.map(|x| x.to_bits()));
    let t = escape_time(&c);
    assert!(matches!(t, Some(i) if i > 51 && (i as f32) * 5.0 == want[0]));
    // closer to the boundary the limit comes first
    assert_eq!(escape_time(&point(-0.75, 0.01)), None);
}

#[test]
fn a_batch_is_answered_in_order() {
    let batch = vec![point(0.0, 0.0), point(2.5, 2.5), point(-1.0, -1.0), point(1.0, 1.0), point(0.3, 0.6)];
    let res = solve_mandel(&batch);
    assert_eq!(res.len(), batch.len());
    for (c, r) in batch.iter().zip(res.iter()) {
        assert_eq!(*r, evaluate(c));
    }
    assert_eq!(res[2].to_bits(), colour(10.0, 10.0, 0.0, 250.0));
    assert_eq!(solve_mandel(&Vec::new()).len(), 0);
    assert_eq!(solve_mandel(&batch), solve_mandel(&batch));
}

#[test]
fn vectors_keep_their_components() {
    let v = Vector4::new(
        Binary32::from_bits(1),
        Binary32::from_bits(2),
        Binary32::from_bits(3),
        Binary32::from_bits(4),
    );
    assert_eq!(v.to_bits(), [1, 2, 3, 4]);
    assert_eq!(Vector4::from_bits([1, 2, 3, 4]), v);
    assert_eq!(v.x.to_bits(), 1);
    assert_eq!(v.w.to_bits(), 4);
}
