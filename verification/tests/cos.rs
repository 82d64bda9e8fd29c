use whoa::anim::cos::roll_columns;

fn grid(rows: &[&str]) -> Vec<Vec<char>> {
    rows.iter().map(|r| r.chars().collect()).collect()
}

fn text(g: &[Vec<char>]) -> Vec<String> {
    g.iter().map(|r| r.iter().collect()).collect()
}

#[test]
fn roll_columns_wraps_each_column_round() {
    let rolled = roll_columns(&grid(&["ab", "cd", "ef"]), &vec![1, 5]);
    assert_eq!(text(&rolled), vec!["ed", "af", "cb"]);
}

#[test]
fn roll_columns_by_zero_or_a_full_turn_keeps_the_frame() {
    let g = grid(&["abc", "def"]);
    assert_eq!(roll_columns(&g, &vec![0, 2, 4]), g);
}

#[test]
fn roll_columns_of_an_empty_frame() {
    assert!(roll_columns::<char>(&vec![], &vec![3, 1]).is_empty());
    let g: Vec<Vec<char>> = vec![vec![], vec![]];
    assert_eq!(roll_columns(&g, &vec![]), g);
}
