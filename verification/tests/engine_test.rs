use uttt::board::{GameResult, Position, Side};
use uttt::mcts::{MCTSWorker, random_bits, rng_from_seed};
use uttt::search::{Manager, StopFlag, best_move, brute_force_search, init_engine};

#[test]
fn best_move_is_legal_and_consistent() {
    let (_bt, st) = init_engine();
    let pos = Position::new();
    let (mov, score) = best_move(&st, 2, &pos);
    assert!(pos.legal_moves().contains(mov));
    // the two searches agree on the value of a depth the brute force can
    // also reach, when alpha-beta searches without a window
    let mut pos2 = Position::new();
    let bf = brute_force_search(&st, 1, &mut pos2);
    let (_m1, s1) = best_move(&st, 1, &pos);
    assert_eq!(s1, bf);
    let _ = score;
}

#[test]
fn best_move_finds_the_winning_capture() {
    let (_bt, st) = init_engine();
    // X holds blocks 0 and 1 and two cells of block 2's top row; play is
    // forced into block 2, where cell 20 completes the block and with it
    // the meta row
    let pos = Position::from_bgn("2 1ff/1ff/3/0/0/0/0/0/0 0/0/0/0/0/0/0/0/0 2 X").unwrap();
    let (mov, score) = best_move(&st, 1, &pos);
    assert_eq!(mov, 20);
    assert_eq!(score, 100000000);
    let mut after = pos;
    after.make_move(mov);
    assert_eq!(after.get_result(), GameResult::XWon);
}

#[test]
fn cancelled_search_returns_legal_move() {
    let (_bt, st) = init_engine();
    let pos = Position::from_move_list("0, 3, 27, 4, 36, 5, 46, 13, 37, 12, 28, 14").unwrap();
    let manager = Manager::from_position(pos);
    let stop = StopFlag::new();
    // cancel before the search even starts: it must still return, and the
    // move it falls back to must be legal in the original position
    stop.set();
    let res = manager.search_cancellable(&st, &stop);
    assert!(pos.legal_moves().contains(res.best_move));
}

#[test]
fn mcts_returns_legal_move() {
    let pos = Position::new();
    let rng = rng_from_seed(12345);
    let mut worker = MCTSWorker::new(pos, 55705, rng);
    let res = worker.go(200);
    assert!(pos.legal_moves().contains(res.best_move));
}

#[test]
fn mcts_visits_never_decrease() {
    let pos = Position::new();
    let rng = rng_from_seed(98765);
    let mut worker = MCTSWorker::new(pos, 55705, rng);
    let r1 = worker.go(100);
    let r2 = worker.go(100);
    let r3 = worker.go(100);
    // the reported best child is the most visited; with more simulations
    // that maximum never drops
    assert!(r2.visits >= r1.visits);
    assert!(r3.visits >= r2.visits);
}

#[test]
fn mcts_pv_moves_are_playable() {
    let pos = Position::new();
    let rng = rng_from_seed(4242);
    let mut worker = MCTSWorker::new(pos, 55705, rng);
    let _ = worker.go(500);
    let pv = worker.pv();
    let mut cur = pos;
    for step in pv.iter() {
        assert!(cur.legal_moves().contains(step.best_move));
        cur.make_move(step.best_move);
    }
}

#[test]
fn game_results_follow_play() {
    let pos = Position::new();
    assert_eq!(pos.get_result(), GameResult::Ongoing);
    assert!(!pos.is_over());
    assert!(!pos.is_won(Side::X));
    assert!(!pos.is_won(Side::O));
    assert!(!pos.is_drawn());
    assert_eq!(pos.side_to_move(), Side::X);
    assert_eq!(pos.cur_ply(), 0);
}

#[test]
fn move_set_operations() {
    let pos = Position::new();
    let mut moves = pos.legal_moves();
    assert_eq!(moves.size(), 81);
    assert!(moves.contains(0));
    assert!(moves.contains(80));
    assert!(!moves.contains(81));
    assert_eq!(moves.any(), 0);
    assert_eq!(moves.nth_move(40), 40);
    moves.remove(0);
    assert_eq!(moves.size(), 80);
    assert_eq!(moves.any(), 1);
    moves.add(0);
    assert_eq!(moves.size(), 81);
    let other = pos.legal_moves();
    assert_eq!(moves.intersect(other).size(), 81);
    assert_eq!(moves.subtract(other).size(), 0);
}

#[test]
fn forced_block_follows_cell() {
    let mut pos = Position::new();
    pos.make_move(40);
    // cell 40 is cell 4 of block 4: the answer is forced to block 4
    let moves = pos.legal_moves();
    assert_eq!(moves.size(), 8);
    assert!(moves.contains(36));
    assert!(!moves.contains(40));
    assert!(!moves.contains(0));
    assert_eq!(pos.side_to_move(), Side::O);
}

#[test]
fn random_bits_sets_exactly_n() {
    let mut rng = rng_from_seed(7);
    for n in [0u8, 1, 5, 40, 80] {
        let m = random_bits(&mut rng, n);
        assert_eq!(m.count_ones() as u8, n);
        assert_eq!(m >> 81, 0);
    }
}
