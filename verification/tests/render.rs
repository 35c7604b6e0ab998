use mandel::dispatch::DispatchError;
use mandel::evaluator::{evaluate, solve_mandel};
use mandel::plane::row_coordinates;
use mandel::render::{render_on_host, to_pixel, RenderError, Renderer};
use mandel::vector::Vector4;

#[test]
fn one_pixel_is_the_origin_and_bounded() {
    let renderer = Renderer::new(1, 1).unwrap();
    let batch = renderer.next_batch().unwrap();
    assert_eq!(batch.len(), 1);
    assert_eq!(batch[0].to_bits(), [0, 0, 0, 0]);
    let canvas = render_on_host(1, 1).unwrap();
    assert_eq!((canvas.width(), canvas.height()), (1, 1));
    assert_eq!(canvas.samples(), vec![0, 0, 0, 250]);
}

#[test]
fn two_by_two_escapes_everywhere() {
    let canvas = render_on_host(2, 2).unwrap();
    assert_eq!((canvas.width(), canvas.height()), (2, 2));
    let samples = canvas.samples();
    assert_eq!(samples, vec![10, 10, 0, 250, 5, 5, 0, 250, 10, 10, 0, 250, 5, 5, 0, 250]);
    for pixel in samples.chunks(4) {
        assert_ne!(pixel, [0, 0, 0, 0]);
        assert_ne!(pixel, [0, 0, 0, 250]);
    }
}

#[test]
fn rows_go_out_from_the_last_row_up() {
    let mut renderer = Renderer::new(3, 2).unwrap();
    assert_eq!((renderer.width(), renderer.height()), (3, 2));
    assert!(!renderer.is_finished());
    assert_eq!(renderer.next_row(), Some(1));
    assert_eq!(renderer.next_batch(), Some(row_coordinates(3, 2, 1)));
    assert!(renderer.accept(&Ok(solve_mandel(&row_coordinates(3, 2, 1)))));
    assert_eq!(renderer.next_row(), Some(0));
    assert_eq!(renderer.next_batch(), Some(row_coordinates(3, 2, 0)));
    assert!(renderer.accept(&Ok(solve_mandel(&row_coordinates(3, 2, 0)))));
    assert!(renderer.is_finished());
    assert_eq!(renderer.next_row(), None);
    assert_eq!(renderer.next_batch(), None);
    assert!(!renderer.accept(&Ok(vec![Vector4::from_bits([0, 0, 0, 0]); 3])));
    assert_eq!(renderer.into_canvas().samples(), render_on_host(3, 2).unwrap().samples());
}

#[test]
fn a_failed_row_stays_blank() {
    let mut renderer = Renderer::new(2, 2).unwrap();
    assert!(!renderer.accept(&Err(DispatchError::Backend)));
    assert!(renderer.accept(&Ok(solve_mandel(&row_coordinates(2, 2, 0)))));
    assert!(renderer.is_finished());
    let samples = renderer.into_canvas().samples();
    assert_eq!(samples, vec![10, 10, 0, 250, 5, 5, 0, 250, 0, 0, 0, 0, 0, 0, 0, 0]);
}

#[test]
fn results_of_another_length_are_not_drawn() {
    let mut renderer = Renderer::new(2, 1).unwrap();
    assert!(!renderer.accept(&Ok(vec![Vector4::from_bits([0, 0, 0, 0])])));
    assert!(renderer.is_finished());
    assert_eq!(renderer.into_canvas().samples(), vec![0; 8]);
    let mut renderer = Renderer::new(2, 1).unwrap();
    assert!(!renderer.accept(&Ok(vec![Vector4::from_bits([0, 0, 0, 0]); 3])));
    assert_eq!(renderer.into_canvas().samples(), vec![0; 8]);
}

#[test]
fn a_fresh_image_is_transparent_black() {
    let renderer = Renderer::new(4, 3).unwrap();
    let canvas = renderer.into_canvas();
    assert_eq!((canvas.width(), canvas.height()), (4, 3));
    assert_eq!(canvas.samples(), vec![0; 48]);
}

#[test]
fn sizes_are_checked_in_order() {
    assert_eq!(Renderer::new(0, 5).err(), Some(RenderError::EmptyImage));
    assert_eq!(Renderer::new(5, 0).err(), Some(RenderError::EmptyImage));
    assert_eq!(Renderer::new(0, 0).err(), Some(RenderError::EmptyImage));
    assert_eq!(Renderer::new(65537, 0).err(), Some(RenderError::EmptyImage));
    assert_eq!(Renderer::new(65537, 1).err(), Some(RenderError::RowTooWide));
    assert_eq!(Renderer::new(u32::MAX, u32::MAX).err(), Some(RenderError::RowTooWide));
    assert_eq!(render_on_host(0, 1).err(), Some(RenderError::EmptyImage));
    assert_eq!(render_on_host(70000, 1).err(), Some(RenderError::RowTooWide));
    assert!(Renderer::new(65536, 1).is_ok());
}

#[test]
fn brightness_wraps_past_the_byte() {
    let f = |x: f32| x.to_bits();
    assert_eq!(to_pixel(&Vector4::from_bits([f(0.0), f(0.0), f(0.0), f(250.0)])), [0, 0, 0, 250]);
    assert_eq!(to_pixel(&Vector4::from_bits([f(255.0), f(255.0), f(0.0), f(250.0)])), [255, 255, 0, 250]);
    assert_eq!(to_pixel(&Vector4::from_bits([f(260.0), f(260.0), f(0.0), f(250.0)])), [4, 4, 0, 250]);
    assert_eq!(to_pixel(&Vector4::from_bits([f(1275.0), f(1275.0), f(0.0), f(250.0)])), [251, 251, 0, 250]);
}

#[test]
fn every_pixel_is_the_sample_of_its_coordinate() {
    let (w, h) = (9u32, 7u32);
    let samples = render_on_host(w, h).unwrap().samples();
    assert_eq!(samples.len(), (4 * w * h) as usize);
    for row in 0..h {
        let batch = row_coordinates(w, h, row);
        for col in 0..w {
            let at = 4 * (row * w + col) as usize;
            assert_eq!(samples[at..at + 4], to_pixel(&evaluate(&batch[col as usize])));
        }
    }
}
