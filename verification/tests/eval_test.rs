use uttt::board::{Position, perft};
use uttt::eval::{basic_eval, eval, eval_block, get_double_max_score};
use uttt::search::init_engine;

#[test]
fn basic_search() {
    let mut pos = Position::new();
    assert_eq!(perft(6, &mut pos), 33782544);
}

#[test]
fn temp() {
    let (_bt, st) = init_engine();
    let a = eval_block(&st, 0b111111111, 0b000000000);
    println!("{}", a);
}

#[test]
fn out_test_basic_eval() {
    let pos = Position::new();
    basic_eval(&pos);
}

#[test]
fn eval_test_basic_eval() {
    let pos = Position::new();
    basic_eval(&pos);
}

#[test]
fn eval_block_values() {
    let (_bt, st) = init_engine();
    // a captured block against an empty one: 800 for the winner, 10 for
    // the opponent who still needs three cells on two live lines
    assert_eq!(eval_block(&st, 0b111, 0), 790);
    // symmetric situations cancel
    assert_eq!(eval_block(&st, 0, 0), 0);
    assert_eq!(eval_block(&st, 0b111111111, 0), 800);
    assert_eq!(get_double_max_score(), 22400);
}

#[test]
fn eval_empty_is_zero() {
    let (_bt, st) = init_engine();
    let pos = Position::new();
    assert_eq!(eval(&st, &pos), 0);
    assert_eq!(basic_eval(&pos), 0);
}
