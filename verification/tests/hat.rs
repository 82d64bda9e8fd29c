use whoa::{pull_seed_content, Hat};

#[test]
fn hat_draws_each_item_once_per_round() {
    let mut hat = Hat::new(vec![10, 20, 30, 40, 50]);
    assert_eq!(hat.len(), 5);
    assert!(!hat.is_empty());
    for _round in 0..3 {
        let mut drawn: Vec<i32> = (0..5).map(|_| hat.next().unwrap()).collect();
        drawn.sort();
        assert_eq!(drawn, vec![10, 20, 30, 40, 50]);
    }
}

#[test]
fn empty_hat_gives_nothing() {
    let mut hat: Hat<String> = Hat::new(vec![]);
    assert!(hat.is_empty());
    assert_eq!(hat.len(), 0);
    assert_eq!(hat.next(), None);
    assert_eq!(hat.next(), None);
}

#[test]
fn single_item_hat_repeats_it() {
    let mut hat = Hat::new(vec!["only".to_string()]);
    for _ in 0..4 {
        assert_eq!(hat.next(), Some("only".to_string()));
    }
}

#[test]
fn pull_seed_content_gives_seed_texts() {
    let seeds = vec!["alpha".to_string(), "beta".to_string()];
    let mut hat = Hat::new(seeds.clone());
    let a = pull_seed_content(&mut hat);
    let b = pull_seed_content(&mut hat);
    assert!(seeds.contains(&a));
    assert!(seeds.contains(&b));
    assert_ne!(a, b);
    let c = pull_seed_content(&mut hat);
    assert!(seeds.contains(&c));
}

#[test]
fn hat_rounds_never_repeat_within_a_round() {
    let items: Vec<u32> = (0..20).collect();
    let mut hat = Hat::new(items.clone());
    for _ in 0..4 {
        let mut round: Vec<u32> = (0..20).map(|_| hat.next().unwrap()).collect();
        round.sort();
        assert_eq!(round, items);
    }
}
