use raytracer::canvas::{write_color, Canvas};
use raytracer::camera::{Camera, CameraConfig, ConfigError};
use raytracer::ray::{Bounce, PathEnd, Ray};
use raytracer::vec3::v3;
use std::cell::{Cell, RefCell};

fn key(x: f64) -> i64 {
    let x = if x == 0.0 { 0.0 } else { x };
    let bits = x.to_bits() as i64;
    bits ^ ((((bits >> 63) as u64) >> 1) as i64)
}

fn config(img_width: usize, sample_times: usize, reflect_depth: usize, thread_count: usize) -> CameraConfig {
    CameraConfig { img_width, sample_times, reflect_depth, thread_count }
}

/// A colour as the image holds it: clamped, its square root taken, and
/// scaled to a byte.
fn rgb(c: [f64; 3]) -> [u8; 3] {
    let q = |x: f64| {
        let x = x.max(0.0).min(0.999);
        let g = if x > 0.0 { x.sqrt() } else { x };
        (g * 255.99) as u8
    };
    [q(c[0]), q(c[1]), q(c[2])]
}

#[test]
fn the_default_settings() {
    let cfg = CameraConfig::default();
    assert_eq!(cfg, config(100, 10, 10, 16));
    let cam = Camera::new(cfg, 100).unwrap();
    assert_eq!(cam.image_width, 100);
    assert_eq!(cam.image_height, 100);
    assert_eq!(cam.reflect_depth, 10);
    assert_eq!(cam.thread_count, 16);
    assert_eq!(cam.sample_sqrt_times, 3);
    assert_eq!(cam.sample_count(), 9);
}

#[test]
fn an_image_has_a_row_at_least() {
    let cam = Camera::new(config(400, 100, 50, 16), 0).unwrap();
    assert_eq!(cam.image_height, 1);
    let cam = Camera::new(config(400, 100, 50, 16), 225).unwrap();
    assert_eq!(cam.image_height, 225);
    assert_eq!(cam.sample_sqrt_times, 10);
    assert_eq!(cam.sample_count(), 100);
}

#[test]
fn the_sample_grid_goes_column_after_column() {
    let cam = Camera::new(config(10, 10, 1, 1), 10).unwrap();
    assert_eq!(
        cam.sample_grid(),
        vec![(0, 0), (0, 1), (0, 2), (1, 0), (1, 1), (1, 2), (2, 0), (2, 1), (2, 2)]
    );
    let cam = Camera::new(config(10, 1, 1, 1), 10).unwrap();
    assert_eq!(cam.sample_grid(), vec![(0, 0)]);
    let cam = Camera::new(config(10, 100, 1, 1), 10).unwrap();
    assert_eq!(cam.sample_grid().len(), cam.sample_count());
}

#[test]
fn settings_that_make_no_camera() {
    assert_eq!(Camera::new(config(0, 10, 10, 16), 10), Err(ConfigError::NoWidth));
    assert_eq!(Camera::new(config(0, 0, 10, 0), 10), Err(ConfigError::NoWidth));
    assert_eq!(Camera::new(config(10, 0, 10, 16), 10), Err(ConfigError::NoSamples));
    assert_eq!(Camera::new(config(10, 0, 10, 0), 10), Err(ConfigError::NoSamples));
    assert_eq!(Camera::new(config(10, 1, 10, 0), 10), Err(ConfigError::NoThreads));
    assert_eq!(Camera::new(config(usize::MAX, 1, 10, 1), 10), Err(ConfigError::TooLarge));
    assert_eq!(Camera::new(config(10, 1, 10, 1), usize::MAX), Err(ConfigError::TooLarge));
    assert_eq!(
        Camera::new(config(u32::MAX as usize, 1, 10, 1), u32::MAX as usize),
        Err(ConfigError::TooLarge)
    );
    assert!(Camera::new(config(10, 1, 0, 1), 10).is_ok());
}

#[test]
fn the_pixels_queue_up_row_after_row() {
    let cam = Camera::new(config(3, 1, 1, 1), 2).unwrap();
    let (q, _) = cam.queues();
    assert_eq!(q.capacity(), 6);
    assert_eq!(q.len(), 6);
    let mut got = Vec::new();
    while let Some(p) = q.pop() {
        got.push(p);
    }
    assert_eq!(got, vec![(0, 0), (1, 0), (2, 0), (0, 1), (1, 1), (2, 1)]);
}

#[test]
fn every_pixel_queues_up_once() {
    let cam = Camera::new(config(17, 4, 1, 2), 9).unwrap();
    let (q, _) = cam.queues();
    let mut seen = vec![false; 17 * 9];
    let mut k = 0;
    while let Some((i, j)) = q.pop() {
        assert!(i < 17 && j < 9);
        assert_eq!(j * 17 + i, k);
        assert!(!seen[k]);
        seen[k] = true;
        k += 1;
    }
    assert_eq!(k, 17 * 9);
}

#[test]
fn the_result_queue_is_empty_and_has_room_for_all() {
    let cam = Camera::new(config(5, 1, 1, 1), 4).unwrap();
    let (_, q) = cam.queues();
    assert!(q.is_empty());
    assert_eq!(q.capacity(), 20);
}

#[test]
fn results_go_to_the_pixels_they_name_in_whatever_order() {
    let cam = Camera::new(config(3, 1, 1, 1), 2).unwrap();
    let results = [
        ([10u8, 11, 12], 0usize, 0usize),
        ([20, 21, 22], 1, 0),
        ([30, 31, 32], 2, 0),
        ([40, 41, 42], 0, 1),
        ([50, 51, 52], 1, 1),
        ([60, 61, 62], 2, 1),
    ];
    let expected: Vec<u8> = vec![10, 11, 12, 20, 21, 22, 30, 31, 32, 40, 41, 42, 50, 51, 52, 60, 61, 62];
    for order in [[0usize, 1, 2, 3, 4, 5], [5, 4, 3, 2, 1, 0], [3, 0, 5, 1, 4, 2]] {
        let (_, mut q) = cam.queues();
        for k in order {
            q.push(results[k]).unwrap();
        }
        let raw = cam.develop(&mut q);
        assert_eq!(raw, expected);
        assert!(q.is_empty());
    }
}

#[test]
fn a_pixel_without_a_result_stays_black_and_a_later_result_wins() {
    let cam = Camera::new(config(2, 1, 1, 1), 2).unwrap();
    let (_, mut q) = cam.queues();
    q.push(([1, 2, 3], 1, 0)).unwrap();
    q.push(([9, 9, 9], 7, 0)).unwrap();
    q.push(([4, 5, 6], 1, 0)).unwrap();
    let raw = cam.develop(&mut q);
    assert_eq!(raw, vec![0, 0, 0, 4, 5, 6, 0, 0, 0, 0, 0, 0]);
}

#[test]
fn develop_takes_one_result_for_each_pixel_and_leaves_the_rest() {
    let cam = Camera::new(config(1, 1, 1, 1), 2).unwrap();
    let mut q = crossbeam::queue::ArrayQueue::new(5);
    q.push(([1, 1, 1], 0, 0)).unwrap();
    q.push(([2, 2, 2], 0, 1)).unwrap();
    q.push(([3, 3, 3], 0, 0)).unwrap();
    let raw = cam.develop(&mut q);
    assert_eq!(raw, vec![1, 1, 1, 2, 2, 2]);
    assert_eq!(q.len(), 1);
    assert_eq!(q.pop(), Some(([3, 3, 3], 0, 0)));
}

#[test]
fn write_color_sets_one_pixel() {
    let mut img = Canvas::new(3, 2).unwrap();
    write_color([1, 2, 3], &mut img, 2, 0);
    write_color([4, 5, 6], &mut img, 0, 1);
    write_color([7, 8, 9], &mut img, 3, 0);
    write_color([7, 8, 9], &mut img, 0, 2);
    assert_eq!(img.into_bytes(), vec![0, 0, 0, 0, 0, 0, 1, 2, 3, 4, 5, 6, 0, 0, 0, 0, 0, 0]);
}

#[test]
fn a_new_canvas_is_black() {
    assert_eq!(Canvas::new(2, 2).unwrap().into_bytes(), vec![0u8; 12]);
    assert_eq!(Canvas::new(0, 5).unwrap().into_bytes(), Vec::<u8>::new());
    assert!(Canvas::new(u32::MAX, u32::MAX).is_none());
}

#[test]
fn a_ray_sent_on_has_one_scattering_less() {
    let r = Ray::new(v3(1, 2, 3), v3(4, 5, 6), key(0.25), 50);
    assert_eq!((r.ori, r.dir, r.cnt, r.time), (v3(1, 2, 3), v3(4, 5, 6), 50, key(0.25)));
    let s = r.update(v3(7, 8, 9), v3(0, 0, 1));
    assert_eq!(s, Ray::new(v3(7, 8, 9), v3(0, 0, 1), key(0.25), 49));
    let last = Ray::new(v3(0, 0, 0), v3(0, 0, 1), 0, 1).update(v3(0, 0, 0), v3(0, 1, 0));
    assert_eq!(last.cnt, 0);
}

#[test]
fn a_spent_ray_does_not_ask_the_scene() {
    let asked = Cell::new(0);
    let r = Ray::new(v3(0, 0, 0), v3(0, 0, 1), 0, 0);
    let end = r.color(&|_r: &Ray| {
        asked.set(asked.get() + 1);
        Bounce::Escaped
    });
    assert_eq!(end, PathEnd::Spent);
    assert_eq!(asked.get(), 0);
}

#[test]
fn a_path_ends_where_the_ray_escapes_or_is_absorbed() {
    let r = Ray::new(v3(0, 0, 0), v3(0, 0, 1), 0, 5);
    assert_eq!(r.color(&|_r: &Ray| Bounce::Escaped), PathEnd::Escaped);
    assert_eq!(r.color(&|_r: &Ray| Bounce::Absorbed), PathEnd::Absorbed);
    // scattered twice, then out
    let seen = RefCell::new(Vec::new());
    let end = r.color(&|ray: &Ray| {
        seen.borrow_mut().push((ray.cnt, ray.ori, ray.time));
        if ray.cnt > 3 {
            Bounce::Scattered(v3(ray.cnt as i64, 0, 0), v3(0, 1, 0))
        } else {
            Bounce::Escaped
        }
    });
    assert_eq!(end, PathEnd::Escaped);
    assert_eq!(*seen.borrow(), vec![(5, v3(0, 0, 0), 0), (4, v3(5, 0, 0), 0), (3, v3(4, 0, 0), 0)]);
}

#[test]
fn a_path_is_spent_after_as_many_scatterings_as_it_is_allowed() {
    for depth in [1usize, 2, 10, 50] {
        let asked = Cell::new(0usize);
        let r = Ray::new(v3(0, 0, 0), v3(0, 0, 1), 0, depth);
        let end = r.color(&|_r: &Ray| {
            asked.set(asked.get() + 1);
            Bounce::Scattered(v3(0, 0, 0), v3(0, 0, 1))
        });
        assert_eq!(end, PathEnd::Spent);
        assert_eq!(asked.get(), depth);
    }
}

/// Renders with the library's queues and paths: `shade` says what a
/// scene does with the first ray through the middle of a pixel, and what
/// light the path brings home.
fn render(cam: &Camera, shade: &dyn Fn(usize, usize) -> (Bounce, [f64; 3]), background: [f64; 3]) -> Vec<u8> {
    let (pixels, mut results) = cam.queues();
    let n = cam.sample_count();
    while let Some((i, j)) = pixels.pop() {
        let mut sum = [0.0f64; 3];
        for _ in 0..n {
            let light = Cell::new([0.0f64; 3]);
            let ray = Ray::new(v3(0, 0, 0), v3(0, 0, key(-1.0)), 0, cam.reflect_depth);
            let end = ray.color(&|_r: &Ray| {
                let (bounce, emitted) = shade(i, j);
                light.set(emitted);
                bounce
            });
            let c = match end {
                PathEnd::Spent => [0.0; 3],
                PathEnd::Escaped => background,
                PathEnd::Absorbed => light.get(),
            };
            for k in 0..3 {
                sum[k] += c[k];
            }
        }
        let scale = 1.0 / n as f64;
        results.push((rgb([sum[0] * scale, sum[1] * scale, sum[2] * scale]), i, j)).unwrap();
    }
    cam.develop(&mut results)
}

#[test]
fn an_empty_scene_shows_the_background_in_every_pixel() {
    let background = [0.7, 0.8, 1.0];
    for samples in [1usize, 4, 10, 100] {
        let cam = Camera::new(config(4, samples, 10, 2), 3).unwrap();
        let raw = render(&cam, &|_i, _j| (Bounce::Escaped, [0.0; 3]), background);
        assert_eq!(raw.len(), 4 * 3 * 3);
        let expected = rgb(background);
        assert_eq!(expected, [214, 228, 255]);
        for px in raw.chunks(3) {
            assert_eq!(px, expected);
        }
    }
}

#[test]
fn a_light_before_a_black_background_shows_its_own_colour() {
    // a quad of light covers the two middle columns of a 4 by 2 image
    let emitted = [0.5, 0.25, 0.04];
    let cam = Camera::new(config(4, 1, 1, 1), 2).unwrap();
    let raw = render(
        &cam,
        &|i, _j| if i == 1 || i == 2 { (Bounce::Absorbed, emitted) } else { (Bounce::Escaped, [0.0; 3]) },
        [0.0, 0.0, 0.0],
    );
    let lit = rgb(emitted);
    assert_eq!(lit, [181, 127, 51]);
    for j in 0..2 {
        for i in 0..4 {
            let at = 3 * (j * 4 + i);
            let px = &raw[at..at + 3];
            if i == 1 || i == 2 {
                assert_eq!(px, lit);
            } else {
                assert_eq!(px, [0, 0, 0]);
            }
        }
    }
}
