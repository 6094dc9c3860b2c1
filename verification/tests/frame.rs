use path_tracer::ppm::{ImagePPM, RGB};
use path_tracer::render::render;
use path_tracer::scan::{Aim, Scan, Task};

fn tasks_of(width: u32, height: u32, samples: u32) -> Vec<Task> {
    let mut scan = Scan::new(width, height, samples);
    let mut tasks = Vec::new();
    loop {
        let task = scan.next();
        if task == Task::Done {
            assert!(scan.is_done());
            return tasks;
        }
        tasks.push(task);
    }
}

#[test]
fn scan_starts_at_the_top_left() {
    let scan = Scan::new(800, 600, 64);
    assert_eq!(scan, Scan { width: 800, height: 600, samples: 64, x: 0, y: 0, taken: 0 });
    assert!(!scan.is_done());
}

#[test]
fn scan_of_one_pixel() {
    let sample =
        Task::Sample { aim: Aim { u_num: 0, u_den: 0, v_num: 0, v_den: 0, jitter: true } };
    assert_eq!(tasks_of(1, 1, 2), vec![sample, sample, Task::Store { x: 0, y: 0, samples: 2 }]);
}

#[test]
fn single_sample_is_not_jittered() {
    let tasks = tasks_of(2, 1, 1);
    assert_eq!(
        tasks,
        vec![
            Task::Sample { aim: Aim { u_num: 0, u_den: 1, v_num: 0, v_den: 0, jitter: false } },
            Task::Store { x: 0, y: 0, samples: 1 },
            Task::Sample { aim: Aim { u_num: 1, u_den: 1, v_num: 0, v_den: 0, jitter: false } },
            Task::Store { x: 1, y: 0, samples: 1 },
        ]
    );
}

#[test]
fn scan_goes_row_by_row_from_the_top() {
    let tasks = tasks_of(2, 3, 0);
    assert_eq!(
        tasks,
        vec![
            Task::Store { x: 0, y: 0, samples: 0 },
            Task::Store { x: 1, y: 0, samples: 0 },
            Task::Store { x: 0, y: 1, samples: 0 },
            Task::Store { x: 1, y: 1, samples: 0 },
            Task::Store { x: 0, y: 2, samples: 0 },
            Task::Store { x: 1, y: 2, samples: 0 },
        ]
    );
}

#[test]
fn rows_count_down_to_zero() {
    let rows: Vec<(u32, u32)> = tasks_of(1, 3, 1)
        .into_iter()
        .filter_map(|task| match task {
            Task::Sample { aim } => Some((aim.v_num, aim.v_den)),
            _ => None,
        })
        .collect();
    assert_eq!(rows, vec![(2, 2), (1, 2), (0, 2)]);
}

#[test]
fn scan_has_samples_and_one_store_per_pixel() {
    for (w, h, n) in [(3u32, 2u32, 4u32), (1, 5, 1), (4, 4, 0), (2, 2, 3)] {
        let tasks = tasks_of(w, h, n);
        assert_eq!(tasks.len() as u32, w * h * (n + 1));
        let stores = tasks.iter().filter(|t| matches!(t, Task::Store { .. })).count();
        assert_eq!(stores as u32, w * h);
        for (k, task) in tasks.iter().enumerate() {
            let pixel = k as u32 / (n + 1);
            let (x, y) = (pixel % w, pixel / w);
            if k as u32 % (n + 1) < n {
                let aim =
                    Aim { u_num: x, u_den: w - 1, v_num: h - 1 - y, v_den: h - 1, jitter: n > 1 };
                assert_eq!(*task, Task::Sample { aim });
            } else {
                assert_eq!(*task, Task::Store { x, y, samples: n });
            }
        }
    }
}

#[test]
fn empty_frames_are_done_at_once() {
    assert_eq!(tasks_of(0, 5, 3), Vec::new());
    assert_eq!(tasks_of(5, 0, 3), Vec::new());
    assert_eq!(tasks_of(0, 0, 0), Vec::new());
    assert!(Scan::new(0, 5, 3).is_done());
}

#[test]
fn done_scan_stays_done() {
    let mut scan = Scan::new(1, 1, 0);
    assert_eq!(scan.next(), Task::Store { x: 0, y: 0, samples: 0 });
    let end = scan;
    assert_eq!(scan.next(), Task::Done);
    assert_eq!(scan.next(), Task::Done);
    assert_eq!(scan, end);
}

#[test]
fn every_store_fits_the_image() {
    let (w, h) = (5u32, 4u32);
    let mut image = ImagePPM::new_filled(w, h, RGB { r: 0, g: 0, b: 0 });
    let mut count: u8 = 0;
    for task in tasks_of(w, h, 2) {
        if let Task::Store { x, y, .. } = task {
            count += 1;
            image.set_pixel(x, y, RGB { r: count, g: 0, b: 0 });
        }
    }
    let filled: Vec<u8> = image.pixels.iter().map(|p| p.r).collect();
    assert_eq!(filled, (1..=20).collect::<Vec<u8>>());
}

#[test]
fn render_sums_the_samples_of_each_pixel() {
    let image =
        render(3, 2, 4, 0u32, |sum, aim: Aim| sum + 10 * aim.v_num + aim.u_num, |sum, n| (sum, n));
    assert_eq!(image.width, 3);
    assert_eq!(image.height, 2);
    assert_eq!(
        image.pixels,
        vec![(4 * 10, 4), (4 * 11, 4), (4 * 12, 4), (0, 4), (4 * 1, 4), (4 * 2, 4)]
    );
}

#[test]
fn render_aims_every_sample_of_a_pixel_alike() {
    let image = render(2, 2, 3, 0usize, |count, _aim| count + 1, |count, n| (count, n));
    assert_eq!(image.pixels, vec![(3, 3); 4]);
    let aims = render(2, 2, 1, None, |_, aim: Aim| Some(aim), |last, _| last);
    assert_eq!(
        aims.pixels,
        vec![
            Some(Aim { u_num: 0, u_den: 1, v_num: 1, v_den: 1, jitter: false }),
            Some(Aim { u_num: 1, u_den: 1, v_num: 1, v_den: 1, jitter: false }),
            Some(Aim { u_num: 0, u_den: 1, v_num: 0, v_den: 1, jitter: false }),
            Some(Aim { u_num: 1, u_den: 1, v_num: 0, v_den: 1, jitter: false }),
        ]
    );
}

#[test]
fn render_jitters_only_with_several_samples() {
    let one = render(2, 1, 1, false, |any, aim: Aim| any || aim.jitter, |any, _| any);
    assert_eq!(one.pixels, vec![false, false]);
    let two = render(2, 1, 2, false, |any, aim: Aim| any || aim.jitter, |any, _| any);
    assert_eq!(two.pixels, vec![true, true]);
}

#[test]
fn render_without_samples_finishes_the_zero() {
    let image = render(2, 2, 0, 7u8, |sum, _aim| sum + 1, |sum, n| (sum, n));
    assert_eq!(image.pixels, vec![(7, 0); 4]);
}

#[test]
fn render_of_an_empty_frame() {
    let image = render(0, 3, 5, 0u8, |sum, _aim| sum, |sum, _| sum);
    assert_eq!((image.width, image.height, image.size()), (0, 3, 0));
    let image = render(3, 0, 5, 0u8, |sum, _aim| sum, |sum, _| sum);
    assert_eq!((image.width, image.height, image.size()), (3, 0, 0));
}

#[test]
fn render_averages_and_tone_maps() {
    let image = render(
        1,
        1,
        4,
        0.0f32,
        |sum, _aim| sum + 0.25,
        |sum, n| (sum * (1.0 / n as f32)).sqrt(),
    );
    assert_eq!(image.get_pixel(0, 0), 0.5);
}

#[test]
fn render_twice_gives_the_same_frame() {
    let shade = |sum: u64, aim: Aim| {
        sum.wrapping_mul(31).wrapping_add(u64::from(aim.u_num) * 7 + u64::from(aim.v_num))
    };
    let first = render(5, 4, 3, 1u64, shade, |sum, n| sum / u64::from(n));
    let second = render(5, 4, 3, 1u64, shade, |sum, n| sum / u64::from(n));
    assert_eq!(first.pixels, second.pixels);
    assert_eq!((first.width, first.height), (second.width, second.height));
}

#[test]
fn aims_span_the_image_plane() {
    let (w, h) = (4u32, 3u32);
    let image = render(w, h, 1, (0.0f32, 0.0f32), |_, aim: Aim| {
        assert!(!aim.jitter);
        (aim.u_num as f32 / aim.u_den as f32, aim.v_num as f32 / aim.v_den as f32)
    }, |uv, _| uv);
    assert_eq!(image.get_pixel(0, 0), (0.0, 1.0));
    assert_eq!(image.get_pixel(w - 1, 0), (1.0, 1.0));
    assert_eq!(image.get_pixel(0, h - 1), (0.0, 0.0));
    assert_eq!(image.get_pixel(w - 1, h - 1), (1.0, 0.0));
    assert_eq!(image.get_pixel(1, 1), (1.0 / 3.0, 0.5));
    for y in 0..h {
        for x in 0..w {
            let (u, v) = image.get_pixel(x, y);
            assert!((0.0..=1.0).contains(&u) && (0.0..=1.0).contains(&v));
            if x > 0 {
                assert!(image.get_pixel(x - 1, y).0 < u);
            }
            if y > 0 {
                assert!(image.get_pixel(x, y - 1).1 > v);
            }
        }
    }
}
