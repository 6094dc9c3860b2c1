use path_tracer::integrator::{closest, distance_key, nearest, trace, Ending, Event, Path};

#[test]
fn nearest_of_nothing() {
    assert_eq!(nearest(&Vec::new()), None);
    assert_eq!(nearest(&vec![None, None, None]), None);
}

#[test]
fn nearest_picks_the_smallest_key() {
    assert_eq!(nearest(&vec![Some(30), Some(10), Some(20)]), Some(1));
    assert_eq!(nearest(&vec![None, Some(5)]), Some(1));
    assert_eq!(nearest(&vec![Some(5), None]), Some(0));
    assert_eq!(nearest(&vec![Some(0)]), Some(0));
    assert_eq!(nearest(&vec![Some(u32::MAX), None, Some(u32::MAX - 1)]), Some(2));
}

#[test]
fn nearest_keeps_the_first_of_equals() {
    assert_eq!(nearest(&vec![Some(4), Some(2), None, Some(2), Some(3)]), Some(1));
    assert_eq!(nearest(&vec![None, Some(0), Some(0)]), Some(1));
}

#[test]
fn nearest_orders_distances_by_their_bits() {
    let distances: [f32; 4] = [2.5, 0.5, 0.001, 10.0];
    let keys: Vec<Option<u32>> = distances.iter().map(|d| Some(d.to_bits())).collect();
    assert_eq!(nearest(&keys), Some(2));
}

#[test]
fn path_without_budget_is_black() {
    assert_eq!(Path::start(0), Path::Finished { ending: Ending::Black });
    assert!(Path::start(0).is_finished());
}

#[test]
fn path_starts_with_its_budget() {
    assert_eq!(Path::start(50), Path::Tracing { remaining: 50 });
    assert!(!Path::start(50).is_finished());
}

#[test]
fn escaped_ray_sees_the_sky() {
    let path = Path::start(1).advance(Event::Escaped);
    assert_eq!(path, Path::Finished { ending: Ending::Sky });
}

#[test]
fn absorbed_ray_is_black() {
    let path = Path::start(3).advance(Event::Absorbed);
    assert_eq!(path, Path::Finished { ending: Ending::Black });
}

#[test]
fn scatter_spends_one_bounce() {
    let path = Path::start(3).advance(Event::Scattered);
    assert_eq!(path, Path::Tracing { remaining: 2 });
}

#[test]
fn last_bounce_ends_in_black() {
    let path = Path::start(1).advance(Event::Scattered);
    assert_eq!(path, Path::Finished { ending: Ending::Black });
    let path = Path::start(2).advance(Event::Scattered).advance(Event::Scattered);
    assert_eq!(path, Path::Finished { ending: Ending::Black });
}

#[test]
fn escape_after_bounces_sees_the_sky() {
    let path = Path::start(3)
        .advance(Event::Scattered)
        .advance(Event::Scattered)
        .advance(Event::Escaped);
    assert_eq!(path, Path::Finished { ending: Ending::Sky });
}

#[test]
fn finished_path_stays_finished() {
    let sky = Path::Finished { ending: Ending::Sky };
    let black = Path::Finished { ending: Ending::Black };
    for event in [Event::Escaped, Event::Absorbed, Event::Scattered] {
        assert_eq!(sky.advance(event), sky);
        assert_eq!(black.advance(event), black);
    }
}

#[test]
fn budget_bounds_the_path() {
    for depth in 0..6u32 {
        let mut path = Path::start(depth);
        let mut steps = 0;
        while !path.is_finished() {
            path = path.advance(Event::Scattered);
            steps += 1;
        }
        assert_eq!(steps, depth);
        assert_eq!(path, Path::Finished { ending: Ending::Black });
    }
}

#[test]
fn nearest_distance_does_not_depend_on_the_order() {
    let scene = vec![Some(7), None, Some(3), Some(9), Some(3), None];
    let shuffled = vec![None, Some(3), Some(9), None, Some(7), Some(3)];
    let first = nearest(&scene).unwrap();
    let second = nearest(&shuffled).unwrap();
    assert_eq!(first, 2);
    assert_eq!(second, 1);
    assert_eq!(scene[first], shuffled[second]);
}

#[test]
fn trace_follows_the_events() {
    let script = [Event::Scattered, Event::Scattered, Event::Escaped, Event::Absorbed];
    let (ending, steps) = trace(50, 0usize, |step| (script[step], step + 1));
    assert_eq!((ending, steps), (Ending::Sky, 3));
    let script = [Event::Scattered, Event::Absorbed, Event::Escaped];
    let (ending, steps) = trace(50, 0usize, |step| (script[step], step + 1));
    assert_eq!((ending, steps), (Ending::Black, 2));
}

#[test]
fn trace_stops_when_the_budget_is_spent() {
    for depth in 0..5u32 {
        let (ending, bounces) = trace(depth, 0u32, |count| (Event::Scattered, count + 1));
        assert_eq!((ending, bounces), (Ending::Black, depth));
    }
}

#[test]
fn trace_of_a_miss_sends_one_ray() {
    let (ending, rays) = trace(1, 0u32, |count| (Event::Escaped, count + 1));
    assert_eq!((ending, rays), (Ending::Sky, 1));
}

#[test]
fn trace_multiplies_the_attenuation() {
    let (ending, (bounces, attenuation)) = trace(10, (0u32, 1.0f32), |(bounces, attenuation)| {
        if bounces < 3 {
            (Event::Scattered, (bounces + 1, attenuation * 0.5))
        } else {
            (Event::Escaped, (bounces, attenuation))
        }
    });
    assert_eq!(ending, Ending::Sky);
    assert_eq!(bounces, 3);
    assert_eq!(attenuation, 0.125);
}

#[test]
fn closest_returns_the_nearest_hit() {
    let scene = vec![("far", 9.0f32), ("near", 0.5), ("mid", 2.0)];
    let found = closest(&scene, |surface: &(&str, f32)| Some((surface.1.to_bits(), surface.0)));
    assert_eq!(found, Some((0.5f32.to_bits(), "near")));
}

#[test]
fn closest_skips_the_misses() {
    let scene = vec![None, Some(7u32), None, Some(4), None];
    let found = closest(&scene, |surface: &Option<u32>| surface.map(|key| (key, key + 100)));
    assert_eq!(found, Some((4, 104)));
}

#[test]
fn closest_keeps_the_first_of_equals() {
    let scene = vec![(3u32, 'a'), (1, 'b'), (1, 'c'), (2, 'd')];
    let found = closest(&scene, |surface: &(u32, char)| Some(*surface));
    assert_eq!(found, Some((1, 'b')));
}

#[test]
fn closest_of_nothing() {
    let empty: Vec<u32> = Vec::new();
    assert_eq!(closest(&empty, |key: &u32| Some((*key, ()))), None);
    let scene = vec![1u32, 2, 3];
    assert_eq!(closest(&scene, |_: &u32| None::<(u32, ())>), None);
}

#[test]
fn closest_asks_every_surface_once_and_in_order() {
    let asked = std::cell::RefCell::new(Vec::new());
    let scene = vec![10u32, 20, 30];
    let found = closest(&scene, |key: &u32| {
        asked.borrow_mut().push(*key);
        Some((100 - *key, *key))
    });
    assert_eq!(found, Some((70, 30)));
    assert_eq!(*asked.borrow(), vec![10, 20, 30]);
}

#[test]
fn closest_agrees_with_nearest() {
    let keys = vec![Some(8u32), None, Some(2), Some(2), Some(5)];
    let index = nearest(&keys).unwrap();
    let found = closest(&(0..keys.len()).collect(), |i: &usize| keys[*i].map(|key| (key, *i)));
    assert_eq!(found, Some((2, index)));
}

#[test]
fn trace_twice_gives_the_same_path() {
    let bounce = |seed: u32| {
        let next = seed.wrapping_mul(1_664_525).wrapping_add(1_013_904_223);
        let event = if next % 7 == 0 { Event::Escaped } else { Event::Scattered };
        (event, next)
    };
    for seed in 0..20u32 {
        assert_eq!(trace(50, seed, bounce), trace(50, seed, bounce));
    }
}

#[test]
fn distance_key_admits_finite_distances() {
    for distance in [0.0f32, 0.001, 0.5, 1.0, 10.0, f32::MIN_POSITIVE, f32::MAX] {
        assert_eq!(distance_key(distance.to_bits()), Some(distance.to_bits()));
    }
    assert_eq!(distance_key(0), Some(0));
    assert_eq!(distance_key(0x7f7f_ffff), Some(0x7f7f_ffff));
}

#[test]
fn distance_key_refuses_what_is_no_distance() {
    for other in [-0.0f32, -0.001, -10.0, f32::INFINITY, f32::NEG_INFINITY, f32::NAN, -f32::NAN] {
        assert_eq!(distance_key(other.to_bits()), None);
    }
    assert_eq!(distance_key(0x7f80_0000), None);
    assert_eq!(distance_key(0x7f80_0001), None);
    assert_eq!(distance_key(0x8000_0000), None);
    assert_eq!(distance_key(u32::MAX), None);
}

#[test]
fn distance_keys_are_ordered_as_the_distances() {
    let distances = [0.0f32, f32::MIN_POSITIVE, 0.001, 0.0010001, 0.5, 1.0, 1.5, 2.0, 10.0, 1e30];
    for a in distances {
        for b in distances {
            let (ka, kb) = (distance_key(a.to_bits()).unwrap(), distance_key(b.to_bits()).unwrap());
            assert_eq!(a < b, ka < kb);
            assert_eq!(a == b, ka == kb);
        }
    }
}
