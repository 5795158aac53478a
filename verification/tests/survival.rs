use psicode_sim::survival::{
    alive_stripe_count, row_survival, stripe_survival, surviving_payload_bits,
};
use psicode_sim::symbol::{symbol_size_px, PAYLOAD_CELLS, PAYLOAD_COLS, PAYLOAD_ROWS};
use psicode_sim::tally::{GoodputTally, SurvivalTally};

const ROWS: [usize; 8] = [7, 7, 7, 7, 7, 7, 7, 6];

#[test]
fn everything_survives_a_perfect_channel() {
    let cells = vec![3u8; PAYLOAD_CELLS];
    assert_eq!(alive_stripe_count(&cells, &cells, &ROWS), 8);
    assert_eq!(stripe_survival(&cells, &cells, &ROWS), (8, 8));
    assert_eq!(row_survival(&cells, &cells), (55, 55));
    assert_eq!(surviving_payload_bits(&cells, &cells, 5, &ROWS), (PAYLOAD_CELLS * 5, false));
}

#[test]
fn one_wrong_cell_kills_its_stripe_and_its_row() {
    let sent = vec![0u8; PAYLOAD_CELLS];
    for c in [0usize, 7 * PAYLOAD_COLS - 1, 7 * PAYLOAD_COLS, PAYLOAD_CELLS - 1] {
        let mut got = sent.clone();
        got[c] = 1;
        assert_eq!(alive_stripe_count(&sent, &got, &ROWS), 7);
        assert_eq!(row_survival(&sent, &got), (54, 55));
        let dead = ROWS[c / PAYLOAD_COLS / 7];
        assert_eq!(
            surviving_payload_bits(&sent, &got, 2, &ROWS),
            ((PAYLOAD_ROWS - dead) * PAYLOAD_COLS * 2, false)
        );
    }
}

#[test]
fn a_frame_is_dead_when_all_stripes_are() {
    let sent = vec![0u8; PAYLOAD_CELLS];
    let mut got = sent.clone();
    for s in 0..8 {
        got[s * 7 * PAYLOAD_COLS] = 1;
    }
    assert_eq!(surviving_payload_bits(&sent, &got, 2, &ROWS), (0, true));
    assert_eq!(row_survival(&sent, &got), (47, 55));
}

#[test]
fn goodput_totals_add_up() {
    let sent = vec![0u8; PAYLOAD_CELLS];
    let mut got = sent.clone();
    for s in 0..8 {
        got[s * 7 * PAYLOAD_COLS] = 1;
    }
    let mut t = GoodputTally::new();
    t.record(&sent, &sent, 2, &ROWS);
    t.record(&sent, &got, 2, &ROWS);
    assert_eq!(
        t,
        GoodputTally { bits: 2 * PAYLOAD_CELLS, wrong: 8, cells: 2 * PAYLOAD_CELLS, dead: 1 }
    );
}

#[test]
fn survival_totals_add_up() {
    let sent = vec![0u8; PAYLOAD_CELLS];
    let mut got = sent.clone();
    got[100] = 1;
    let mut t = SurvivalTally::new();
    t.record(&sent, &sent, 1, &ROWS);
    t.record(&sent, &got, 1, &ROWS);
    assert_eq!((t.wrong, t.cells), (1, 2 * PAYLOAD_CELLS));
    assert_eq!((t.stripes_alive, t.stripes), (15, 16));
    assert_eq!((t.rows_alive, t.rows), (109, 110));
}

#[test]
fn size_of_a_symbol() {
    assert_eq!(symbol_size_px(4, 16), 69 * 16);
    assert_eq!(symbol_size_px(0, 1), 61);
}
