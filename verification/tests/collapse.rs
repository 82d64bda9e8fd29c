use whoa::anim::collapse::{sweep_line_back, sweep_line_forward, Collapse, Direction, GridCell, SweepRule};

fn cell(c: char) -> GridCell<char> {
    GridCell { empty: c == '_', content: c }
}

fn grid(rows: &[&str]) -> Vec<Vec<GridCell<char>>> {
    rows.iter().map(|r| r.chars().map(cell).collect()).collect()
}

fn text(g: &[Vec<GridCell<char>>]) -> Vec<String> {
    g.iter().map(|r| r.iter().map(|c| c.content).collect()).collect()
}

#[test]
fn collapse_down_moves_everything_above_a_gap() {
    let mut c = Collapse::new();
    c.ticks_without_motion = 7;
    let mut g = grid(&["A_", "_B", "__"]);
    c.update_towards(&mut g, Direction::Down);
    assert_eq!(text(&g), vec!["__", "A_", "_B"]);
    assert_eq!(c.ticks_without_motion, 0);
}

#[test]
fn collapse_up_moves_everything_below_a_gap() {
    let mut c = Collapse::new();
    let mut g = grid(&["__", "A_", "_B"]);
    c.update_towards(&mut g, Direction::Up);
    assert_eq!(text(&g), vec!["A_", "_B", "__"]);
    assert_eq!(c.ticks_without_motion, 0);
}

#[test]
fn collapse_right_packs_glyphs_one_step() {
    let mut c = Collapse::new();
    let mut g = grid(&["A_B_", "____"]);
    c.update_towards(&mut g, Direction::Right);
    assert_eq!(text(&g), vec!["_A_B", "____"]);
    assert_eq!(c.ticks_without_motion, 0);
}

#[test]
fn collapse_left_packs_glyphs_one_step() {
    let mut c = Collapse::new();
    let mut g = grid(&["_A_B"]);
    c.update_towards(&mut g, Direction::Left);
    assert_eq!(text(&g), vec!["A_B_"]);
}

#[test]
fn collapse_blank_screen_counts_as_motion_downwards_but_not_sideways() {
    // falling down or up, an empty cell swaps with the one next to it even
    // when that one is empty too, which counts as motion
    let mut c = Collapse::new();
    let mut g = grid(&["__", "__"]);
    c.ticks_without_motion = 3;
    c.update_towards(&mut g, Direction::Down);
    assert_eq!(c.ticks_without_motion, 0);
    c.ticks_without_motion = 3;
    c.update_towards(&mut g, Direction::Right);
    assert_eq!(c.ticks_without_motion, 4);
}

#[test]
fn collapse_settled_text_is_done_after_fifty_still_ticks() {
    let mut c = Collapse::new();
    let mut g = grid(&["AB__", "C___"]);
    for _ in 0..49 {
        c.update_towards(&mut g, Direction::Left);
        assert!(!c.is_done());
    }
    c.update_towards(&mut g, Direction::Left);
    assert_eq!(c.ticks_without_motion, 50);
    assert!(c.is_done());
    assert_eq!(text(&g), vec!["AB__", "C___"]);
}

#[test]
fn collapse_empty_frame_is_left_alone() {
    let mut c = Collapse::new();
    c.ticks_without_motion = 5;
    let mut g: Vec<Vec<GridCell<char>>> = vec![];
    c.update_towards(&mut g, Direction::Down);
    assert!(g.is_empty());
    assert_eq!(c.ticks_without_motion, 5);
}

#[test]
fn collapse_keeps_every_glyph() {
    let mut c = Collapse::new();
    c.direction = Direction::Random;
    let mut g = grid(&["AB_C", "_D__", "E__F"]);
    for _ in 0..20 {
        c.update(&mut g);
        let mut glyphs: Vec<char> = g.iter().flatten().map(|x| x.content).filter(|&x| x != '_').collect();
        glyphs.sort();
        assert_eq!(glyphs, vec!['A', 'B', 'C', 'D', 'E', 'F']);
        assert_eq!(g.len(), 3);
        assert!(g.iter().all(|r| r.len() == 4));
    }
    assert_eq!(c.direction, Direction::Random);
}

#[test]
fn sweep_line_back_under_each_rule() {
    let mut line = grid(&["A_B_"]).remove(0);
    assert!(sweep_line_back(&mut line, SweepRule::SecondEmptyFirstFull));
    assert_eq!(text(&[line]), vec!["_A_B"]);

    let mut line = grid(&["AB"]).remove(0);
    assert!(!sweep_line_back(&mut line, SweepRule::SecondEmpty));
    assert_eq!(text(&[line]), vec!["AB"]);

    let mut line = grid(&["A"]).remove(0);
    assert!(!sweep_line_back(&mut line, SweepRule::FirstEmpty));
}

#[test]
fn sweep_line_forward_under_each_rule() {
    let mut line = grid(&["_A_B"]).remove(0);
    assert!(sweep_line_forward(&mut line, SweepRule::FirstEmptySecondFull));
    assert_eq!(text(&[line]), vec!["A_B_"]);

    let mut line = grid(&["_AB"]).remove(0);
    assert!(sweep_line_forward(&mut line, SweepRule::FirstEmpty));
    assert_eq!(text(&[line]), vec!["AB_"]);

    let mut line = grid(&["AB"]).remove(0);
    assert!(!sweep_line_forward(&mut line, SweepRule::FirstEmpty));
}

#[test]
fn direction_parses_each_name() {
    assert_eq!(Direction::parse("up"), Ok(Direction::Up));
    assert_eq!(Direction::parse("down"), Ok(Direction::Down));
    assert_eq!(Direction::parse("left"), Ok(Direction::Left));
    assert_eq!(Direction::parse("right"), Ok(Direction::Right));
    assert_eq!(Direction::parse("random"), Ok(Direction::Random));
    assert_eq!("left".parse::<Direction>(), Ok(Direction::Left));
}

#[test]
fn direction_refuses_other_names() {
    assert_eq!(Direction::parse("sideways"), Err("Invalid direction: sideways".to_string()));
    assert_eq!(Direction::parse("Up"), Err("Invalid direction: Up".to_string()));
    assert_eq!(Direction::parse(""), Err("Invalid direction: ".to_string()));
}

#[test]
fn direction_default_is_down() {
    assert_eq!(Direction::default(), Direction::Down);
    let c = Collapse::default();
    assert_eq!(c.direction, Direction::Down);
    assert_eq!(c.ticks_without_motion, 0);
}

#[test]
fn direction_resolve_with_each_pick() {
    assert_eq!(Direction::Random.resolve_with(0), Direction::Down);
    assert_eq!(Direction::Random.resolve_with(1), Direction::Up);
    assert_eq!(Direction::Random.resolve_with(2), Direction::Left);
    assert_eq!(Direction::Random.resolve_with(3), Direction::Right);
    assert_eq!(Direction::Up.resolve_with(2), Direction::Up);
    for _ in 0..20 {
        assert_ne!(Direction::Random.resolve(), Direction::Random);
    }
    assert_eq!(Direction::Left.resolve(), Direction::Left);
}

#[test]
fn collapse_configure_direction() {
    let mut c = Collapse::new();
    assert_eq!(c.configure(Some("left")), Ok(()));
    assert_eq!(c.direction, Direction::Left);
    assert_eq!(c.configure(Some("diagonal")), Err("Invalid direction: diagonal".to_string()));
    assert_eq!(c.direction, Direction::Left);
    assert_eq!(c.configure(None), Ok(()));
    assert_eq!(c.direction, Direction::Left);
}

#[test]
fn collapse_moves_each_glyph_with_room_one_step_and_keeps_their_order() {
    let mut c = Collapse::new();
    let mut g = grid(&["AB_C_D"]);
    c.update_towards(&mut g, Direction::Right);
    assert_eq!(text(&g), vec!["_AB_CD"]);
    let mut g = grid(&["A_BC_D"]);
    c.update_towards(&mut g, Direction::Left);
    assert_eq!(text(&g), vec!["ABC_D_"]);
    let mut g = grid(&["A", "B", "_", "C"]);
    c.update_towards(&mut g, Direction::Down);
    assert_eq!(text(&g), vec!["_", "A", "B", "C"]);
}
