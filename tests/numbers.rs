use rucman::managers::NumberManager;

#[test]
fn new_manager_values() {
    let n = NumberManager::new();
    assert_eq!(n.get_level(), 1);
    assert_eq!(n.get_score(), 0);
    assert_eq!(n.get_one_up_score(), 1000);
    assert_eq!(n.get_lives(), 3);
    assert_eq!(n.get_scatter_interval(), 40);
    assert!(n.is_vulnerability_over());
}

#[test]
fn reaching_one_up_score_gives_a_life() {
    let mut n = NumberManager::new();
    n.add_score(999);
    assert_eq!((n.get_score(), n.get_lives(), n.get_one_up_score()), (999, 3, 1000));
    n.add_score(1);
    assert_eq!((n.get_score(), n.get_lives(), n.get_one_up_score()), (1000, 4, 2000));
    n.add_score(0);
    assert_eq!(n.get_score(), 1000);
}

#[test]
fn score_holds_at_its_bounds() {
    let mut n = NumberManager::new();
    n.remove_score(10);
    assert_eq!(n.get_score(), 0);
    n.add_score(u32::MAX);
    n.add_score(5);
    assert_eq!(n.get_score(), u32::MAX);
}

#[test]
fn losing_a_life_costs_points() {
    let mut n = NumberManager::new();
    n.add_score(400);
    n.lose_life();
    assert_eq!((n.get_lives(), n.get_score()), (2, 250));
    n.lose_life();
    n.lose_life();
    assert_eq!((n.get_lives(), n.get_score()), (0, 0));
    n.lose_life();
    assert_eq!(n.get_lives(), 0);
}

#[test]
fn level_up_adjusts_timers() {
    let mut n = NumberManager::new();
    n.level_up();
    assert_eq!(n.get_score(), 1000);
    assert_eq!(n.get_lives(), 4);
    assert_eq!(n.get_scatter_interval(), 80);
    n.start_vulnerability_timer();
    for _ in 0..23 {
        n.tick_vulernability_timer();
    }
    assert!(!n.is_vulnerability_over());
    n.tick_vulernability_timer();
    assert!(n.is_vulnerability_over());
    n.level_up();
    assert_eq!(n.get_scatter_interval(), 120);
}

#[test]
fn vulnerability_window_floors_at_two_seconds() {
    let mut n = NumberManager::new();
    for _ in 0..10 {
        n.shorten_vulnerability();
    }
    n.start_vulnerability_timer();
    for _ in 0..7 {
        n.tick_vulernability_timer();
    }
    assert!(!n.is_vulnerability_over());
    n.tick_vulernability_timer();
    assert!(n.is_vulnerability_over());
    n.tick_vulernability_timer();
    assert!(n.is_vulnerability_over());
}
