use uttt::block::{get_block_won, init_moves};

#[test]
fn moves_test_blockwon() {
    let _table = init_moves();
    assert!(get_block_won(0b111111111));
    assert!(get_block_won(0b111000000));
    assert!(!get_block_won(0b000000000));
}

#[test]
fn out_test_blockwon() {
    let _table = init_moves();
    assert!(get_block_won(0b111111111));
    assert!(get_block_won(0b111000000));
    assert!(!get_block_won(0b000000000));
}

#[test]
fn block_state_classification() {
    let table = init_moves();
    // a completely captured block needs nothing more, on all eight lines
    let full = table.get_block_state(0b111111111, 0);
    assert_eq!(full.min_needed(), 0);
    assert_eq!(full.n_routes(), 8);
    // each single completed line needs nothing more
    let row = table.get_block_state(0b111, 0);
    assert_eq!(row.min_needed(), 0);
    assert_eq!(row.n_routes(), 1);
    // an empty block needs three cells, on every line, and is neither
    // captured nor hopeless
    let empty = table.get_block_state(0, 0);
    assert_eq!(empty.min_needed(), 3);
    assert_eq!(empty.n_routes(), 8);
    assert!(empty.min_needed() != 0 && empty.min_needed() != 4);
    // one own stone in the corner: two cells missing on its three lines
    let corner = table.get_block_state(0b1, 0);
    assert_eq!(corner.min_needed(), 2);
    assert_eq!(corner.n_routes(), 3);
    // the opponent everywhere: hopeless
    let dead = table.get_block_state(0, 0b111111111);
    assert_eq!(dead.min_needed(), 4);
    assert_eq!(dead.n_routes(), 0);
}
