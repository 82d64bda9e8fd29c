use whoa::anim::saturn::romparse::BackgroundEntry;
use whoa::anim::saturn::{cycle_palette, effect_expired, modulo, palette_cycles_at, rotate_palette};

fn background(c1: (u8, u8), c2: (u8, u8), speed: u8) -> BackgroundEntry {
    BackgroundEntry {
        graphics_index: 0,
        palette_index: 0,
        bpp: 2,
        cycle_type: 0,
        cycle1_start: c1.0,
        cycle1_end: c1.1,
        cycle2_start: c2.0,
        cycle2_end: c2.1,
        cycle_speed: speed,
        movement: [0; 4],
        effects: [0; 4],
    }
}

fn palette(n: u8) -> Vec<[u8; 3]> {
    (0..n).map(|i| [i, i, i]).collect()
}

fn firsts(p: &[[u8; 3]]) -> Vec<u8> {
    p.iter().map(|c| c[0]).collect()
}

#[test]
fn modulo_wraps_negative_numbers() {
    assert_eq!(modulo(-1, 256), 255);
    assert_eq!(modulo(300, 256), 44);
    assert_eq!(modulo(-256, 256), 0);
    assert_eq!(modulo(-12, 256), 244);
    assert_eq!(modulo(0, 7), 0);
    assert_eq!(modulo(13, 5), 3);
}

#[test]
fn rotate_palette_moves_range_forward() {
    let mut p = palette(6);
    rotate_palette(&mut p, 1, 4);
    assert_eq!(firsts(&p), vec![0, 4, 1, 2, 3, 5]);
}

#[test]
fn rotating_a_range_as_often_as_it_has_colors_comes_round() {
    let mut p = palette(8);
    for _ in 0..5 {
        rotate_palette(&mut p, 2, 6);
    }
    assert_eq!(p, palette(8));
}

#[test]
fn palette_cycles_on_multiples_of_the_period() {
    // speed 9: every 6 ticks
    assert!(palette_cycles_at(0, 9));
    assert!(palette_cycles_at(12, 9));
    assert!(!palette_cycles_at(13, 9));
    // speed 0: never
    assert!(!palette_cycles_at(0, 0));
    // speed 1: period 0, only tick 0
    assert!(palette_cycles_at(0, 1));
    assert!(!palette_cycles_at(5, 1));
    // speed 2: period 1, every tick
    assert!(palette_cycles_at(5, 2));
}

#[test]
fn cycle_palette_rotates_both_ranges() {
    let bg = background((0, 2), (3, 5), 3);
    let mut p = palette(6);
    cycle_palette(&mut p, &bg, 4);
    assert_eq!(firsts(&p), vec![2, 0, 1, 5, 3, 4]);
    // tick 5 is not a multiple of 2
    cycle_palette(&mut p, &bg, 5);
    assert_eq!(firsts(&p), vec![2, 0, 1, 5, 3, 4]);
}

#[test]
fn cycle_palette_skips_empty_ranges() {
    let bg = background((2, 2), (4, 1), 3);
    let mut p = palette(6);
    cycle_palette(&mut p, &bg, 0);
    assert_eq!(p, palette(6));
}

#[test]
fn effect_runs_out_after_its_duration() {
    assert!(!effect_expired(0, 0));
    assert!(!effect_expired(1199, 1));
    assert!(effect_expired(1200, 1));
    // a negative duration never runs out
    assert!(!effect_expired(usize::MAX / 2, -1));
}

#[test]
fn palette_cycling_only_reorders_colors() {
    let mut p = palette(10);
    rotate_palette(&mut p, 3, 7);
    let mut sorted = p.clone();
    sorted.sort();
    assert_eq!(sorted, palette(10));
    assert_eq!(firsts(&p), vec![0, 1, 2, 7, 3, 4, 5, 6, 8, 9]);
}

#[test]
fn palette_cycling_with_overlapping_ranges_only_reorders_colors() {
    let bg = background((1, 4), (3, 6), 3);
    let mut p = palette(8);
    cycle_palette(&mut p, &bg, 0);
    // first 1..=4 rotates: [0,4,1,2,3,5,6,7]; then 3..=6: [0,4,1,6,2,3,5,7]
    assert_eq!(firsts(&p), vec![0, 4, 1, 6, 2, 3, 5, 7]);
    let mut sorted = p.clone();
    sorted.sort();
    assert_eq!(sorted, palette(8));
    assert_eq!(p[0], [0, 0, 0]);
    assert_eq!(p[7], [7, 7, 7]);
}
