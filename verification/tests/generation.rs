use blackbox::{new_game, new_game_seeded, GameParams, GameState};

#[test]
fn new_game_state() {
    assert_eq!(
        new_game_seeded(GameParams::new(3, 3, 1, 3), 1234),
        GameState {
            width: 3,
            height: 3,
            n_balls: 1,
            grid: vec![
                vec![false, false, false],
                vec![false, false, false],
                vec![false, true, false]
            ]
        }
    )
}

#[test]
fn params_fields() {
    let p = GameParams::new(8, 9, 1, 2);
    assert_eq!(p.width, 8);
    assert_eq!(p.height, 9);
    assert_eq!(p.min_balls, 1);
    assert_eq!(p.max_balls, 2);
}

#[test]
fn seeded_reproducibility() {
    let a = new_game_seeded(GameParams::new(5, 7, 2, 9), 0xDEADBEEF);
    let b = new_game_seeded(GameParams::new(5, 7, 2, 9), 0xDEADBEEF);
    assert_eq!(a, b);
}

#[test]
fn ball_count_bounds_and_cardinality() {
    let mut counts = Vec::new();
    for seed in 0..50u64 {
        let s = new_game_seeded(GameParams::new(6, 5, 3, 12), seed);
        assert!(3 <= s.n_balls && s.n_balls <= 12);
        assert_eq!(s.width, 6);
        assert_eq!(s.height, 5);
        assert_eq!(s.grid.len(), 6);
        for row in &s.grid {
            assert_eq!(row.len(), 5);
        }
        let occupied = s.grid.iter().flatten().filter(|&&b| b).count();
        assert_eq!(occupied, s.n_balls);
        counts.push(s.n_balls);
    }
    let first = counts[0];
    assert!(counts.iter().any(|&c| c != first));
}

#[test]
fn full_board() {
    let s = new_game_seeded(GameParams::new(3, 2, 6, 6), 42);
    assert_eq!(s.n_balls, 6);
    assert!(s.grid.iter().flatten().all(|&b| b));
}

#[test]
fn zero_balls() {
    let s = new_game_seeded(GameParams::new(4, 4, 0, 0), 7);
    assert_eq!(s.n_balls, 0);
    assert!(s.grid.iter().flatten().all(|&b| !b));
}

#[test]
fn non_seeded_variance() {
    let mut boards = Vec::new();
    for _ in 0..20 {
        boards.push(new_game(GameParams::new(4, 4, 8, 8)));
    }
    let first = &boards[0];
    assert!(boards.iter().any(|b| b != first));
}
