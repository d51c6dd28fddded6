use led_patterns::colour::{clear, wheel, Colour, NUM_LEDS};
use led_patterns::explode::{rainbow_explode, EXPLODE_FRAMES};
use led_patterns::patterns::{
    bands, colour, next_counter, rainbow, theatre, wipe, WIPE_FRAMES,
};
use led_patterns::tracer::{tail_position, tracer};

const OFF: [u8; 4] = [0, 0, 0, 0];
const WHITE: [u8; 4] = [255, 255, 255, 0];

fn strip() -> Vec<[u8; 4]> {
    vec![[1, 2, 3, 4]; NUM_LEDS]
}

#[test]
fn colour_new_keeps_the_channels() {
    let c = Colour::<u8>::new(1, 2, 3);
    assert_eq!((c.r, c.g, c.b), (1, 2, 3));
    let c = Colour::<u32>::new(70000, 2, 3);
    assert_eq!((c.r, c.g, c.b), (70000, 2, 3));
}

#[test]
fn colour_to_array_pads_with_zero() {
    assert_eq!(Colour::<u8>::new(1, 2, 3).to_array(), [1, 2, 3, 0]);
    assert_eq!(Colour::<u16>::new(300, 2, 3).to_array(), [300, 2, 3, 0]);
}

#[test]
fn wheel_goes_round() {
    assert_eq!(wheel(0), [0, 255, 0, 0]);
    assert_eq!(wheel(10), [30, 225, 0, 0]);
    assert_eq!(wheel(84), [252, 3, 0, 0]);
    assert_eq!(wheel(85), [255, 0, 0, 0]);
    assert_eq!(wheel(100), [210, 0, 45, 0]);
    assert_eq!(wheel(169), [3, 0, 252, 0]);
    assert_eq!(wheel(170), [0, 0, 255, 0]);
    assert_eq!(wheel(200), [0, 90, 165, 0]);
    assert_eq!(wheel(255), [0, 255, 0, 0]);
}

#[test]
fn clear_turns_everything_off() {
    let mut leds = strip();
    clear(&mut leds);
    assert_eq!(leds, vec![OFF; NUM_LEDS]);
    let mut none: Vec<[u8; 4]> = Vec::new();
    clear(&mut none);
    assert!(none.is_empty());
}

#[test]
fn wipe_fills_and_empties() {
    let mut leds = strip();
    wipe(&mut leds, 0);
    assert_eq!(leds, vec![OFF; NUM_LEDS]);
    wipe(&mut leds, 1);
    assert_eq!(leds[0], WHITE);
    assert_eq!(leds[1], OFF);
    wipe(&mut leds, 30);
    for i in 0..NUM_LEDS {
        assert_eq!(leds[i], if i < 30 { WHITE } else { OFF });
    }
    wipe(&mut leds, 80);
    assert_eq!(leds, vec![WHITE; NUM_LEDS]);
    wipe(&mut leds, 81);
    assert_eq!(leds[78], WHITE);
    assert_eq!(leds[79], OFF);
    wipe(&mut leds, 100);
    for i in 0..NUM_LEDS {
        assert_eq!(leds[i], if i < 60 { WHITE } else { OFF });
    }
    wipe(&mut leds, 159);
    assert_eq!(leds[0], WHITE);
    assert_eq!(leds[1], OFF);
    wipe(&mut leds, WIPE_FRAMES - 1);
    assert_eq!(leds, vec![OFF; NUM_LEDS]);
    wipe(&mut leds, 1000);
    assert_eq!(leds, vec![OFF; NUM_LEDS]);
}

#[test]
fn wipe_leaves_a_longer_strip_dark_beyond_eighty() {
    let mut leds = vec![[9, 9, 9, 9]; 100];
    wipe(&mut leds, 80);
    for i in 0..100 {
        assert_eq!(leds[i], if i < 80 { WHITE } else { OFF });
    }
}

#[test]
fn theatre_lights_every_third() {
    let mut leds = strip();
    theatre(&mut leds, 0);
    for i in 0..NUM_LEDS {
        assert_eq!(leds[i], if i % 3 == 0 { WHITE } else { OFF });
    }
    theatre(&mut leds, 1);
    for i in 0..NUM_LEDS {
        assert_eq!(leds[i], if (i + 1) % 3 == 0 { WHITE } else { OFF });
    }
    theatre(&mut leds, 255);
    for i in 0..NUM_LEDS {
        assert_eq!(leds[i], if (i + 255) % 3 == 0 { WHITE } else { OFF });
    }
}

#[test]
fn rainbow_lays_the_wheel_along_the_strip() {
    let mut leds = strip();
    for j in [0u8, 7, 100, 255] {
        rainbow(&mut leds, j);
        for i in 0..NUM_LEDS {
            let pos = ((i * 256 / NUM_LEDS + j as usize) & 255) as u8;
            assert_eq!(leds[i], wheel(pos));
        }
    }
    rainbow(&mut leds, 7);
    assert_eq!(leds[3], [48, 207, 0, 0]);
    assert_eq!(leds[79], [9, 246, 0, 0]);
}

#[test]
fn rainbow_on_a_long_strip() {
    let mut leds = vec![OFF; 1000];
    rainbow(&mut leds, 3);
    for i in 0..1000usize {
        let pos = ((i * 256 / NUM_LEDS + 3) & 255) as u8;
        assert_eq!(leds[i], wheel(pos));
    }
}

#[test]
fn bands_alternate() {
    let red = [255, 0, 0, 0];
    let green = [0, 255, 0, 0];
    let mut leds = strip();
    bands(&mut leds, 0, true, 4);
    for i in 0..NUM_LEDS {
        assert_eq!(leds[i], if (i / 4) % 2 == 0 { red } else { green });
    }
    bands(&mut leds, 1, true, 4);
    for i in 0..NUM_LEDS {
        assert_eq!(leds[i], if ((i + 1) / 4) % 2 == 0 { red } else { green });
    }
    assert_eq!(leds[2], red);
    assert_eq!(leds[3], green);
    bands(&mut leds, 1, false, 4);
    for i in 0..NUM_LEDS {
        assert_eq!(leds[i], if (i / 4 + 1) % 2 == 0 { red } else { green });
    }
    assert_eq!(leds[0], green);
    assert_eq!(leds[4], red);
    bands(&mut leds, 200, false, 1);
    for i in 0..NUM_LEDS {
        assert_eq!(leds[i], if (i + 200) % 2 == 0 { red } else { green });
    }
    bands(&mut leds, 9, true, 100);
    assert_eq!(leds, vec![red; NUM_LEDS]);
}

#[test]
fn colour_fills_the_strip() {
    let mut leds = strip();
    colour(&mut leds, Colour::new(5, 6, 7));
    assert_eq!(leds, vec![[5, 6, 7, 0]; NUM_LEDS]);
}

#[test]
fn counter_wraps_at_250() {
    assert_eq!(next_counter(0), 1);
    assert_eq!(next_counter(248), 249);
    assert_eq!(next_counter(249), 0);
    assert_eq!(next_counter(250), 251);
    assert_eq!(next_counter(254), 255);
    assert_eq!(next_counter(255), 0);
}

#[test]
fn tail_follows_the_head() {
    assert_eq!(tail_position(40, 1), 39);
    assert_eq!(tail_position(40, 9), 31);
    assert_eq!(tail_position(9, 9), 0);
    assert_eq!(tail_position(79, 5), 74);
}

#[test]
fn tail_near_the_start_falls_short_of_the_end() {
    assert_eq!(tail_position(0, 1), 15);
    assert_eq!(tail_position(0, 9), 7);
    assert_eq!(tail_position(3, 4), 15);
    assert_eq!(tail_position(8, 9), 15);
    for pos in 0..NUM_LEDS {
        for b in 1..10u8 {
            assert_eq!(
                tail_position(pos, b),
                pos.wrapping_sub(b as usize) % NUM_LEDS
            );
        }
    }
}

#[test]
fn tracer_draws_two_heads_with_tails() {
    let mut leds = strip();
    tracer(&mut leds, 50, (255, 0, 0), (0, 255, 0));
    for i in 0..NUM_LEDS {
        let expected = if i == 50 {
            [255, 0, 0, 0]
        } else if 41 <= i && i < 50 {
            [205u8.saturating_sub(25 * (50 - i) as u8), 0, 0, 0]
        } else if i == 10 {
            [0, 255, 0, 0]
        } else if 1 <= i && i < 10 {
            [0, 205u8.saturating_sub(25 * (10 - i) as u8), 0, 0]
        } else {
            OFF
        };
        assert_eq!(leds[i], expected);
    }
}

#[test]
fn tracer_fades_to_nothing() {
    let mut leds = strip();
    tracer(&mut leds, 20, (100, 60, 40), (255, 255, 255));
    assert_eq!(leds[20], [100, 60, 40, 0]);
    assert_eq!(leds[19], [25, 0, 0, 0]);
    assert_eq!(leds[18], [0, 0, 0, 0]);
    assert_eq!(leds[60], [255, 255, 255, 0]);
    assert_eq!(leds[59], [180, 180, 180, 0]);
    assert_eq!(leds[52], [5, 5, 5, 0]);
    assert_eq!(leds[51], [0, 0, 0, 0]);
}

#[test]
fn tracer_counter_wraps_round_the_strip() {
    let mut a = strip();
    let mut b = strip();
    tracer(&mut a, 3, (255, 0, 0), (0, 255, 0));
    tracer(&mut b, 83, (255, 0, 0), (0, 255, 0));
    assert_eq!(a, b);
    assert_eq!(a[3], [255, 0, 0, 0]);
    assert_eq!(a[2], [180, 0, 0, 0]);
    assert_eq!(a[0], [130, 0, 0, 0]);
    assert_eq!(a[15], [105, 0, 0, 0]);
    assert_eq!(a[10], [0, 0, 0, 0]);
    assert_eq!(a[43], [0, 255, 0, 0]);
    assert_eq!(a[79], OFF);
}

#[test]
fn explode_flares_up() {
    let mut leds = strip();
    for f in 0..10usize {
        assert_eq!(rainbow_explode(&mut leds, f), 75);
        let v = 20 * f as u8;
        assert_eq!(leds[0], [v, v, v, 0]);
        for i in 1..NUM_LEDS {
            assert_eq!(leds[i], OFF);
        }
    }
}

#[test]
fn explode_shoots_along_the_strip() {
    let mut leds = strip();
    assert_eq!(rainbow_explode(&mut leds, 10), 25);
    assert_eq!(leds[0], WHITE);
    assert_eq!(leds[15], [100, 100, 100, 0]);
    assert_eq!(leds[7], [20, 20, 20, 0]);
    assert_eq!(leds[1], OFF);
    assert_eq!(rainbow_explode(&mut leds, 60), 12);
    for i in 0..NUM_LEDS {
        let expected = if i == 50 {
            WHITE
        } else if 41 <= i && i < 50 {
            let v = 200 / (50 - i + 1) as u8;
            [v, v, v, 0]
        } else {
            OFF
        };
        assert_eq!(leds[i], expected);
    }
    assert_eq!(rainbow_explode(&mut leds, 89), 5);
    assert_eq!(leds[79], WHITE);
    assert_eq!(leds[78], [100, 100, 100, 0]);
    assert_eq!(leds[70], [20, 20, 20, 0]);
    assert_eq!(leds[69], OFF);
}

#[test]
fn explode_settles_at_the_end() {
    let mut leds = strip();
    assert_eq!(rainbow_explode(&mut leds, 90), 75);
    for i in 0..NUM_LEDS {
        assert_eq!(leds[i], if i >= 69 { [10, 10, 10, 0] } else { OFF });
    }
}

#[test]
fn explode_bursts_into_bands() {
    let mut leds = strip();
    assert_eq!(rainbow_explode(&mut leds, 91), 100);
    assert_eq!(leds[79], [255, 0, 0, 0]);
    assert_eq!(leds[78], [250, 150, 0, 0]);
    assert_eq!(leds[77], [250, 250, 0, 0]);
    assert_eq!(leds[76], [0, 250, 0, 0]);
    assert_eq!(leds[75], [0, 0, 250, 0]);
    assert_eq!(leds[74], [50, 0, 250, 0]);
    assert_eq!(leds[73], [250, 0, 250, 0]);
    assert_eq!(leds[72], OFF);
    assert_eq!(rainbow_explode(&mut leds, 92), 150);
    assert_eq!(leds[79], [127, 0, 0, 0]);
    assert_eq!(leds[78], [127, 0, 0, 0]);
    assert_eq!(leds[77], [125, 75, 0, 0]);
    assert_eq!(leds[66], [125, 0, 125, 0]);
    assert_eq!(leds[65], OFF);
    assert_eq!(rainbow_explode(&mut leds, 101), 600);
    assert_eq!(leds[79], [42, 0, 0, 0]);
    assert_eq!(leds[69], [42, 0, 0, 0]);
    assert_eq!(leds[68], [41, 25, 0, 0]);
    assert_eq!(leds[14], [8, 0, 41, 0]);
    assert_eq!(leds[3], [41, 0, 41, 0]);
    assert_eq!(leds[2], OFF);
}

#[test]
fn explode_dies_down() {
    let mut leds = strip();
    assert_eq!(rainbow_explode(&mut leds, 102), 150);
    assert_eq!(leds[79], [23, 0, 0, 0]);
    assert_eq!(leds[68], [22, 13, 0, 0]);
    assert_eq!(leds[3], [22, 0, 22, 0]);
    assert_eq!(leds[2], OFF);
    assert_eq!(rainbow_explode(&mut leds, EXPLODE_FRAMES - 1), 150);
    assert_eq!(leds[79], [15, 0, 0, 0]);
    assert_eq!(leds[68], [15, 9, 0, 0]);
    assert_eq!(leds[20], [3, 0, 15, 0]);
    let last = leds.clone();
    assert_eq!(rainbow_explode(&mut leds, EXPLODE_FRAMES), 150);
    assert_eq!(leds, last);
}
