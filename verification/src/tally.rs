//! Running totals over the trials of a sweep point.

use vstd::prelude::*;

use crate::framed::FramedTrial;
use crate::pipeline::{common, compare_cells, count_wrong, lemma_error_counts};
use crate::survival::{
    alive_rows, alive_stripes, lemma_alive_and_wrong_stripes, row_survival, rows_in_alive_stripes, stripe_alive, stripe_survival,
    stripes_fit, surviving_payload_bits,
};
use crate::symbol::{PAYLOAD_COLS, PAYLOAD_ROWS};

verus! {

/// What survived of the frames of a point, for its goodput.
#[derive(Clone, Copy, Debug, PartialEq, Eq, Structural)]
pub struct GoodputTally {
    /// Bits in stripes that are alive.
    pub bits: usize,
    /// Cells that came back wrong.
    pub wrong: usize,
    /// All cells.
    pub cells: usize,
    /// Frames without any stripe alive.
    pub dead: usize,
}

impl GoodputTally {
    /// The totals before the first frame.
    pub fn new() -> (t: Self)
        ensures
            t == (GoodputTally { bits: 0, wrong: 0, cells: 0, dead: 0 }),
    {
        GoodputTally { bits: 0, wrong: 0, cells: 0, dead: 0 }
    }

    /// Adds one frame.
    pub fn record(&mut self, sent: &[u8], got: &[u8], bpc: u32, stripe_rows: &[usize])
        requires
            bpc < 32,
            stripes_fit(sent@, got@, stripe_rows@),
            sent@.len() * bpc <= u32::MAX,
            old(self).bits + rows_in_alive_stripes(sent@, got@, stripe_rows@) * PAYLOAD_COLS * bpc
                <= usize::MAX,
            old(self).wrong + sent@.len() <= usize::MAX,
            old(self).cells + sent@.len() <= usize::MAX,
            old(self).dead < usize::MAX,
        ensures
            final(self).bits == old(self).bits + rows_in_alive_stripes(sent@, got@, stripe_rows@)
                * PAYLOAD_COLS * bpc,
            final(self).wrong == old(self).wrong + count_wrong(sent@, got@),
            final(self).cells == old(self).cells + sent@.len(),
            final(self).dead == old(self).dead + if forall|i: int|
                0 <= i < stripe_rows@.len() ==> !#[trigger] stripe_alive(
                    sent@,
                    got@,
                    stripe_rows@,
                    i,
                ) {
                1int
            } else {
                0
            },
            final(self).dead == old(self).dead <==> alive_stripes(sent@, got@, stripe_rows@) > 0,
    {
        proof {
            lemma_alive_and_wrong_stripes(sent@, got@, stripe_rows@);
            assert(common(sent@, got@) * bpc <= sent@.len() * bpc) by (nonlinear_arith)
                requires
                    common(sent@, got@) <= sent@.len(),
                    bpc >= 0,
            ;
            lemma_error_counts(sent@, got@, bpc);
        }
        let (bits, dead) = surviving_payload_bits(sent, got, bpc, stripe_rows);
        let (wrong, _wrong_bits, _total_bits) = compare_cells(sent, got, bpc);
        self.bits = self.bits + bits;
        self.wrong = self.wrong + wrong;
        self.cells = self.cells + sent.len();
        if dead {
            self.dead = self.dead + 1;
        }
    }
}

/// What survived of the frames of a point, cell by cell, stripe by stripe and
/// row by row.
#[derive(Clone, Copy, Debug, PartialEq, Eq, Structural)]
pub struct SurvivalTally {
    pub wrong: usize,
    pub cells: usize,
    pub stripes_alive: usize,
    pub stripes: usize,
    pub rows_alive: usize,
    pub rows: usize,
}

impl SurvivalTally {
    /// The totals before the first frame.
    pub fn new() -> (t: Self)
        ensures
            t == (SurvivalTally {
                wrong: 0,
                cells: 0,
                stripes_alive: 0,
                stripes: 0,
                rows_alive: 0,
                rows: 0,
            }),
    {
        SurvivalTally { wrong: 0, cells: 0, stripes_alive: 0, stripes: 0, rows_alive: 0, rows: 0 }
    }

    /// No part outgrows its whole.
    pub open spec fn wf(self) -> bool {
        &&& self.wrong <= self.cells
        &&& self.stripes_alive <= self.stripes
        &&& self.rows_alive <= self.rows
    }

    /// Adds one frame.
    pub fn record(&mut self, sent: &[u8], got: &[u8], bpc: u32, stripe_rows: &[usize])
        requires
            old(self).wf(),
            bpc < 32,
            stripes_fit(sent@, got@, stripe_rows@),
            PAYLOAD_ROWS * PAYLOAD_COLS <= sent@.len(),
            PAYLOAD_ROWS * PAYLOAD_COLS <= got@.len(),
            sent@.len() * bpc <= u32::MAX,
            old(self).cells + sent@.len() <= usize::MAX,
            old(self).stripes + stripe_rows@.len() <= usize::MAX,
            old(self).rows + PAYLOAD_ROWS <= usize::MAX,
        ensures
            final(self).wf(),
            final(self).wrong == old(self).wrong + count_wrong(sent@, got@),
            final(self).cells == old(self).cells + sent@.len(),
            final(self).stripes_alive == old(self).stripes_alive + alive_stripes(
                sent@,
                got@,
                stripe_rows@,
            ),
            final(self).stripes == old(self).stripes + stripe_rows@.len(),
            final(self).rows_alive == old(self).rows_alive + alive_rows(
                sent@,
                got@,
                PAYLOAD_ROWS as nat,
            ),
            final(self).rows == old(self).rows + PAYLOAD_ROWS,
    {
        proof {
            assert(common(sent@, got@) * bpc <= sent@.len() * bpc) by (nonlinear_arith)
                requires
                    common(sent@, got@) <= sent@.len(),
                    bpc >= 0,
            ;
            lemma_error_counts(sent@, got@, bpc);
        }
        let (wrong, _wrong_bits, _total_bits) = compare_cells(sent, got, bpc);
        let (stripes_alive, stripes) = stripe_survival(sent, got, stripe_rows);
        let (rows_alive, rows) = row_survival(sent, got);
        self.wrong = self.wrong + wrong;
        self.cells = self.cells + sent.len();
        self.stripes_alive = self.stripes_alive + stripes_alive;
        self.stripes = self.stripes + stripes;
        self.rows_alive = self.rows_alive + rows_alive;
        self.rows = self.rows + rows;
    }
}

/// What was saved of the frames of a point, with and without decoding torn
/// snapshots in part.
#[derive(Clone, Copy, Debug, PartialEq, Eq, Structural)]
pub struct FramedTally {
    pub lost: usize,
    pub useful_off: usize,
    pub useful_on: usize,
}

impl FramedTally {
    /// The totals before the first frame.
    pub fn new() -> (t: Self)
        ensures
            t == (FramedTally { lost: 0, useful_off: 0, useful_on: 0 }),
    {
        FramedTally { lost: 0, useful_off: 0, useful_on: 0 }
    }

    /// Adds one frame.
    pub fn record(&mut self, trial: &FramedTrial)
        requires
            old(self).lost < usize::MAX,
            old(self).useful_off + trial.useful_off <= usize::MAX,
            old(self).useful_on + trial.useful_on <= usize::MAX,
        ensures
            final(self).lost == old(self).lost + if trial.frame_lost {
                1int
            } else {
                0
            },
            final(self).useful_off == old(self).useful_off + trial.useful_off,
            final(self).useful_on == old(self).useful_on + trial.useful_on,
            final(self).lost == old(self).lost <==> !trial.frame_lost,
    {
        if trial.frame_lost {
            self.lost = self.lost + 1;
        }
        self.useful_off = self.useful_off + trial.useful_off;
        self.useful_on = self.useful_on + trial.useful_on;
    }
}

} // verus!
