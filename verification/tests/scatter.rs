use led_patterns::lifecycle::Palette;
use led_patterns::scatter::{assign, random, random_col, scaled, shaded, Scatter};

fn dark(n: usize) -> Vec<[u8; 4]> {
    vec![[0, 0, 0, 0]; n]
}

/// Runs `ticks` ticks that offer the pixels 0, 1, 2, ... in turn, all in
/// the same colour.
fn warmed_up(n: usize, ticks: usize, colour: (u8, u8, u8)) -> (Scatter, Vec<[u8; 4]>) {
    let mut engine = Scatter::new(n);
    let mut leds = dark(n);
    for t in 0..ticks {
        engine.tick(t % n, colour, &mut leds);
    }
    (engine, leds)
}

#[test]
fn scaling_truncates() {
    assert_eq!(scaled(125, 200), 98);
    assert_eq!(scaled(250, 255), 250);
    assert_eq!(scaled(25, 255), 25);
    assert_eq!(scaled(25, 10), 0);
    assert_eq!(scaled(225, 51), 45);
    assert_eq!(scaled(0, 255), 0);
    assert_eq!(scaled(255, 255), 255);
    assert_eq!(scaled(250, 1), 0);
}

#[test]
fn shading_scales_each_channel() {
    assert_eq!(shaded((200, 100, 50), 125), [98, 49, 24, 0]);
    assert_eq!(shaded((255, 255, 255), 75), [75, 75, 75, 0]);
    assert_eq!(shaded((9, 8, 7), 0), [0, 0, 0, 0]);
}

#[test]
fn new_engine_is_idle() {
    let engine = Scatter::new(80);
    assert_eq!(engine.num_leds(), 80);
    assert_eq!(engine.processing_len(), 0);
    assert_eq!(engine.held_len(), 0);
    for i in 0..80 {
        assert!(!engine.is_processing(i));
        assert!(!engine.is_held(i));
        assert_eq!(engine.colour_of(i), None);
    }
}

#[test]
fn offer_admits_an_idle_pixel() {
    let mut engine = Scatter::new(80);
    assert!(engine.offer(7, (10, 20, 30)));
    assert!(engine.is_processing(7));
    assert_eq!(engine.processing_len(), 1);
    assert_eq!(engine.admitting_ramp(7), Some(0));
    assert_eq!(engine.retiring_ramp(7), None);
    assert_eq!(engine.colour_of(7), Some((10, 20, 30)));
    assert!(!engine.is_held(7));
}

#[test]
fn offer_skips_a_pixel_that_is_processed() {
    let mut engine = Scatter::new(80);
    assert!(engine.offer(7, (10, 20, 30)));
    assert!(!engine.offer(7, (1, 2, 3)));
    assert_eq!(engine.processing_len(), 1);
    assert_eq!(engine.colour_of(7), Some((10, 20, 30)));
    assert_eq!(engine.admitting_ramp(7), Some(0));
}

#[test]
fn offer_stops_at_twenty() {
    let mut engine = Scatter::new(80);
    for i in 0..20 {
        assert!(engine.offer(i, (1, 1, 1)));
    }
    assert_eq!(engine.processing_len(), 20);
    assert!(!engine.offer(20, (1, 1, 1)));
    assert_eq!(engine.processing_len(), 20);
    assert!(!engine.is_processing(20));
    assert_eq!(engine.colour_of(20), None);
}

#[test]
fn advance_moves_every_ramp_by_25() {
    let mut engine = Scatter::new(80);
    engine.offer(3, (1, 2, 3));
    engine.advance();
    assert_eq!(engine.admitting_ramp(3), Some(25));
    engine.offer(4, (1, 2, 3));
    engine.advance();
    assert_eq!(engine.admitting_ramp(3), Some(50));
    assert_eq!(engine.admitting_ramp(4), Some(25));
}

#[test]
fn admission_takes_ten_ticks() {
    let mut engine = Scatter::new(80);
    let mut leds = dark(80);
    engine.tick(5, (200, 100, 50), &mut leds);
    for k in 1..10u8 {
        assert_eq!(engine.admitting_ramp(5), Some(25 * k));
        assert!(!engine.is_held(5));
        assert_eq!(leds[5], shaded((200, 100, 50), 25 * k));
        // Offering a pixel that is processed changes nothing.
        engine.tick(5, (0, 0, 0), &mut leds);
    }
    assert_eq!(engine.admitting_ramp(5), None);
    assert!(engine.is_held(5));
    assert!(engine.is_processing(5));
    assert_eq!(leds[5], shaded((200, 100, 50), 250));
    assert_eq!(leds[5], [196, 98, 49, 0]);
}

#[test]
fn select_waits_for_ten_held() {
    let (mut engine, _) = warmed_up(80, 18, (9, 9, 9));
    assert_eq!(engine.held_len(), 9);
    assert_eq!(engine.select(), None);
    assert_eq!(engine.held_len(), 9);
    let (mut engine, _) = warmed_up(80, 19, (9, 9, 9));
    assert_eq!(engine.held_len(), 10);
    assert_eq!(engine.select(), Some(9));
    assert_eq!(engine.held_len(), 9);
    assert!(!engine.is_held(9));
    assert_eq!(engine.retiring_ramp(9), Some(250));
    assert!(engine.is_processing(9));
    assert_eq!(engine.select(), None);
}

#[test]
fn retirement_takes_ten_ticks() {
    let (mut engine, mut leds) = warmed_up(80, 19, (255, 128, 0));
    assert_eq!(engine.held_len(), 10);
    engine.tick(19, (255, 128, 0), &mut leds);
    for k in 1..10u8 {
        assert_eq!(engine.retiring_ramp(9), Some(250 - 25 * k));
        assert!(!engine.is_held(9));
        assert!(engine.is_processing(9));
        assert_eq!(engine.colour_of(9), Some((255, 128, 0)));
        assert_eq!(leds[9], shaded((255, 128, 0), 250 - 25 * k));
        engine.tick(9, (1, 1, 1), &mut leds);
    }
    assert_eq!(engine.retiring_ramp(9), None);
    assert!(!engine.is_processing(9));
    assert_eq!(engine.colour_of(9), None);
    assert_eq!(leds[9], [0, 0, 0, 0]);
    // The pixel is free again and is admitted by the next tick that
    // offers it.
    engine.tick(9, (1, 1, 1), &mut leds);
    assert_eq!(engine.admitting_ramp(9), Some(25));
    assert_eq!(engine.colour_of(9), Some((1, 1, 1)));
}

#[test]
fn processing_stalls_at_twenty() {
    let mut engine = Scatter::new(80);
    let mut leds = dark(80);
    for t in 1..=20usize {
        engine.tick(t - 1, (50, 60, 70), &mut leds);
        assert_eq!(engine.processing_len(), t);
    }
    // The twentieth tick started with ten held pixels and retired one.
    assert_eq!(engine.retiring_ramp(9), Some(225));
    for t in 21..=28usize {
        engine.tick(t - 1, (50, 60, 70), &mut leds);
        assert_eq!(engine.processing_len(), 20);
        assert!(!engine.is_processing(t - 1));
    }
    assert_eq!(engine.retiring_ramp(9), Some(25));
    engine.tick(28, (50, 60, 70), &mut leds);
    assert_eq!(engine.processing_len(), 19);
    assert!(!engine.is_processing(9));
    assert!(!engine.is_processing(28));
    engine.tick(29, (50, 60, 70), &mut leds);
    assert!(engine.is_processing(29));
}

#[test]
fn one_held_pixel_is_retired_per_tick() {
    let (mut engine, mut leds) = warmed_up(80, 19, (9, 9, 9));
    let held_before: Vec<usize> = (0..80).filter(|i| engine.is_held(*i)).collect();
    assert_eq!(held_before.len(), 10);
    engine.tick(19, (9, 9, 9), &mut leds);
    let moved: Vec<usize> = held_before
        .iter()
        .copied()
        .filter(|i| !engine.is_held(*i))
        .collect();
    assert_eq!(moved, vec![9]);
    assert_eq!(engine.retiring_ramp(9), Some(225));
}

#[test]
fn colour_stays_for_the_whole_lifecycle() {
    let mut engine = Scatter::new(80);
    let mut leds = dark(80);
    for t in 0..9 {
        engine.tick(t, (99, 98, 97), &mut leds);
    }
    // The tenth pixel is the one that is retired first.
    engine.tick(9, (11, 22, 33), &mut leds);
    let mut ticks = 10;
    while engine.is_processing(9) {
        assert_eq!(engine.colour_of(9), Some((11, 22, 33)));
        engine.tick(ticks % 80, (99, 98, 97), &mut leds);
        ticks += 1;
        assert!(ticks < 200);
    }
    assert_eq!(ticks, 29);
    assert_eq!(engine.colour_of(9), None);
}

#[test]
fn frame_shows_the_state() {
    let (engine, leds) = warmed_up(80, 25, (250, 100, 20));
    for i in 0..80 {
        let expected = if engine.is_held(i) {
            shaded((250, 100, 20), 250)
        } else if let Some(r) = engine.admitting_ramp(i) {
            shaded((250, 100, 20), r)
        } else if let Some(r) = engine.retiring_ramp(i) {
            shaded((250, 100, 20), r)
        } else {
            [0, 0, 0, 0]
        };
        assert_eq!(leds[i], expected);
        if !engine.is_processing(i) {
            assert_eq!(leds[i], [0, 0, 0, 0]);
        }
    }
}

#[test]
fn paint_clears_what_was_there() {
    let mut engine = Scatter::new(4);
    engine.offer(2, (255, 255, 255));
    engine.advance();
    let mut leds = vec![[7, 7, 7, 7]; 4];
    engine.paint(&mut leds);
    assert_eq!(
        leds,
        vec![[0, 0, 0, 0], [0, 0, 0, 0], [25, 25, 25, 0], [0, 0, 0, 0]]
    );
}

fn check_invariants(engine: &Scatter, leds: &[[u8; 4]]) {
    let n = engine.num_leds();
    let mut processed = 0;
    for i in 0..n {
        let phases = [
            engine.is_held(i),
            engine.admitting_ramp(i).is_some(),
            engine.retiring_ramp(i).is_some(),
        ];
        let count = phases.iter().filter(|p| **p).count();
        assert!(count <= 1);
        assert_eq!(engine.is_processing(i), count == 1);
        assert_eq!(engine.colour_of(i).is_some(), count == 1);
        if let Some(r) = engine.admitting_ramp(i) {
            assert!(r % 25 == 0 && r < 250);
        }
        if let Some(r) = engine.retiring_ramp(i) {
            assert!(r % 25 == 0 && 0 < r && r <= 250);
        }
        if count == 1 {
            processed += 1;
        } else {
            assert_eq!(leds[i], [0, 0, 0, 0]);
        }
    }
    assert_eq!(processed, engine.processing_len());
    assert!(engine.processing_len() <= 20);
}

#[test]
fn random_ticks_keep_the_invariant() {
    let mut rng = rand::thread_rng();
    let mut engine = Scatter::new(80);
    let mut leds = dark(80);
    for _ in 0..2000 {
        engine.step(&mut rng, Palette::Vivid, &mut leds);
        check_invariants(&engine, &leds);
    }
}

#[test]
fn random_ticks_stay_on_a_short_strip() {
    let mut rng = rand::thread_rng();
    for n in 1..6usize {
        let mut engine = Scatter::new(n);
        let mut leds = dark(n);
        for _ in 0..300 {
            engine.step(&mut rng, Palette::Pastel, &mut leds);
            assert_eq!(leds.len(), n);
            check_invariants(&engine, &leds);
        }
    }
}

#[test]
fn random_ticks_reach_every_pixel() {
    let mut rng = rand::thread_rng();
    let mut engine = Scatter::new(8);
    let mut leds = dark(8);
    let mut seen = [false; 8];
    for _ in 0..5000 {
        engine.step(&mut rng, Palette::White, &mut leds);
        for i in 0..8 {
            if engine.is_processing(i) {
                seen[i] = true;
            }
        }
    }
    assert_eq!(seen, [true; 8]);
}

#[test]
fn retirement_picks_at_random() {
    let mut rng = rand::thread_rng();
    let mut picked = [false; 10];
    for _ in 0..400 {
        let (mut engine, mut leds) = warmed_up(80, 19, (9, 9, 9));
        engine.step(&mut rng, Palette::White, &mut leds);
        let moved: Vec<usize> = (0..10).filter(|i| !engine.is_held(*i)).collect();
        assert_eq!(moved.len(), 1);
        assert_eq!(engine.retiring_ramp(moved[0]), Some(225));
        // One pixel left the held ones and the eleventh joined them.
        assert_eq!(engine.held_len(), 10);
        assert!(engine.is_held(10));
        picked[moved[0]] = true;
    }
    assert!(picked.iter().filter(|p| **p).count() >= 2);
}

#[test]
fn white_palette_is_white() {
    let mut rng = rand::thread_rng();
    for _ in 0..10 {
        assert_eq!(assign(&mut rng, Palette::White), (255, 255, 255));
    }
}

#[test]
fn vivid_colours_are_vivid() {
    let mut rng = rand::thread_rng();
    let mut lit = [0usize; 3];
    let mut off = [0usize; 3];
    let mut not_lowest = false;
    for _ in 0..5000 {
        let (r, g, b) = assign(&mut rng, Palette::Vivid);
        assert!(r != 0 || g != 0 || b != 0);
        for (k, c) in [r, g, b].iter().enumerate() {
            assert!(*c == 0 || (50 <= *c && *c < 255));
            if *c == 0 {
                off[k] += 1;
            } else {
                lit[k] += 1;
                if *c != 50 {
                    not_lowest = true;
                }
            }
        }
    }
    assert!(lit.iter().all(|n| *n > 0));
    assert!(off.iter().all(|n| *n > 0));
    assert!(not_lowest);
}

#[test]
fn pastel_colours_vary() {
    let mut rng = rand::thread_rng();
    let first = assign(&mut rng, Palette::Pastel);
    let mut differs = false;
    for _ in 0..200 {
        if assign(&mut rng, Palette::Pastel) != first {
            differs = true;
        }
    }
    assert!(differs);
}

#[test]
fn random_lights_in_white() {
    let mut rng = rand::thread_rng();
    let mut engine = Scatter::new(80);
    let mut leds = dark(80);
    for _ in 0..500 {
        random(&mut engine, &mut rng, &mut leds);
        check_invariants(&engine, &leds);
        for i in 0..80 {
            if engine.is_processing(i) {
                assert_eq!(engine.colour_of(i), Some((255, 255, 255)));
            }
            if let Some(r) = engine.admitting_ramp(i) {
                assert_eq!(leds[i], [r, r, r, 0]);
            }
            if let Some(r) = engine.retiring_ramp(i) {
                assert_eq!(leds[i], [r, r, r, 0]);
            }
            if engine.is_held(i) {
                assert_eq!(leds[i], [250, 250, 250, 0]);
            }
        }
    }
    assert!(engine.processing_len() > 0);
}

#[test]
fn random_col_follows_the_palette() {
    let mut rng = rand::thread_rng();
    let mut engine = Scatter::new(80);
    let mut leds = dark(80);
    for _ in 0..500 {
        random_col(&mut engine, &mut rng, &mut leds, false);
        check_invariants(&engine, &leds);
        for i in 0..80 {
            if let Some((r, g, b)) = engine.colour_of(i) {
                assert!(r != 0 || g != 0 || b != 0);
                for c in [r, g, b] {
                    assert!(c == 0 || (50 <= c && c < 255));
                }
            }
        }
    }
    let mut engine = Scatter::new(80);
    for _ in 0..500 {
        random_col(&mut engine, &mut rng, &mut leds, true);
        check_invariants(&engine, &leds);
    }
    assert!(engine.processing_len() > 0);
}
