use whoa::anim::conway::{life_fates, Conway, Fate, Inheritance};

fn board(rows: &[&str]) -> Vec<Vec<bool>> {
    rows.iter().map(|r| r.chars().map(|c| c == '#').collect()).collect()
}

#[test]
fn blinker_turns() {
    let fates = life_fates(&board(&["...", "###", "..."]));
    assert_eq!(fates.len(), 3);
    assert_eq!(fates[0][1], Fate::Born([(1, 0), (1, 1), (1, 2)]));
    assert_eq!(fates[2][1], Fate::Born([(1, 0), (1, 1), (1, 2)]));
    assert_eq!(fates[1][0], Fate::Dies);
    assert_eq!(fates[1][1], Fate::Stays);
    assert_eq!(fates[1][2], Fate::Dies);
    assert_eq!(fates[0][0], Fate::Stays);
    assert_eq!(fates[2][2], Fate::Stays);
}

#[test]
fn block_is_still() {
    let fates = life_fates(&board(&["....", ".##.", ".##.", "...."]));
    for row in fates.iter() {
        for f in row.iter() {
            assert_eq!(*f, Fate::Stays);
        }
    }
}

#[test]
fn birth_lists_parents_in_reading_order() {
    // an L of three cells: the empty corner gets a child of all three
    let fates = life_fates(&board(&["#.", "##"]));
    assert_eq!(fates[0][1], Fate::Born([(0, 0), (1, 0), (1, 1)]));
    assert_eq!(fates[0][0], Fate::Stays);
    assert_eq!(fates[1][1], Fate::Stays);
}

#[test]
fn lonely_and_crowded_cells_die() {
    let fates = life_fates(&board(&["#..", "...", "..."]));
    assert_eq!(fates[0][0], Fate::Dies);
    let fates = life_fates(&board(&["###", "###", "..."]));
    // the middle of the top row has 5 live neighbours
    assert_eq!(fates[0][1], Fate::Dies);
    // the middle cell has 5
    assert_eq!(fates[1][1], Fate::Dies);
    assert_eq!(fates[0][0], Fate::Stays);
}

#[test]
fn empty_board_has_no_fates() {
    assert!(life_fates(&vec![]).is_empty());
    let fates = life_fates(&vec![vec![], vec![]]);
    assert_eq!(fates.len(), 2);
    assert!(fates[0].is_empty());
}

#[test]
fn conway_defaults() {
    let c = Conway::new();
    assert_eq!(c.tick_rate, 10);
    assert_eq!(c.stale_ticks, 15);
    assert!(!c.is_stale);
    assert!(c.state_cache.is_empty());
    let d = Conway::default();
    assert_eq!(d.stale_ticks, 15);
}

#[test]
fn conway_goes_stale_after_repeats() {
    let mut c = Conway::new();
    c.configure(Some(3), None);
    c.hash_frame(42);
    c.hash_frame(7);
    c.hash_frame(42);
    assert!(!c.is_done());
    c.hash_frame(42);
    assert!(c.is_done());
    assert_eq!(c.state_cache.get(&42), Some(&3));
    assert_eq!(c.state_cache.get(&7), Some(&1));
    // stays stale
    c.hash_frame(1);
    assert!(c.is_done());
}

#[test]
fn conway_configure_takes_defaults_and_wraps() {
    let mut c = Conway::new();
    c.configure(None, Some(30));
    assert_eq!(c.stale_ticks, 15);
    assert_eq!(c.tick_rate, 30);
    c.configure(Some(4), None);
    assert_eq!(c.stale_ticks, 4);
    assert_eq!(c.tick_rate, 10);
    c.configure(Some(-1), Some(-1));
    assert_eq!(c.stale_ticks, usize::MAX);
    assert_eq!(c.tick_rate, u64::MAX as usize);
}

#[test]
fn conway_inherit_takes_the_chosen_parents() {
    let parents = [(0, 0), (0, 1), (1, 0)];
    let child = Conway::inherit(&parents, 2, 1, 0, 2);
    assert_eq!(
        child,
        Inheritance { glyph_from: (1, 0), fg_from: (0, 1), bg_from: (0, 0), flags_from: (1, 0) }
    );
}

#[test]
fn conway_reproduce_takes_every_trait_from_a_parent() {
    let parents = [(3, 4), (5, 6), (7, 8)];
    for _ in 0..20 {
        let child = Conway::reproduce(&parents);
        for from in [child.glyph_from, child.fg_from, child.bg_from, child.flags_from] {
            assert!(parents.contains(&from));
        }
    }
}
