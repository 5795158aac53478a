//! How small a cell may get: the sweeps over cell size, camera pixels per cell
//! and sampling aperture.

use vstd::prelude::*;

use crate::pipeline::{common, compare_cells, count_wrong};
use crate::profile::{reference, BorderMode, CalibProfile, ChromaMode};
use crate::survival::{
    alive_stripe_count, alive_stripes, rows_in_alive_stripes, stripes_fit, surviving_payload_bits,
};
use crate::symbol::PAYLOAD_COLS;
use crate::text::same_text;

verus! {

/// The profile that a sweep shows: cells of `cell` pixels (the low byte of the
/// number), one bit of luma, and one bit of chroma at constant luma where
/// `chroma` holds.
pub open spec fn sweep_profile(chroma: bool, cell: usize) -> CalibProfile {
    CalibProfile {
        cell_size_px: cell as u8,
        luma_bits: 1,
        chroma_mode: if chroma {
            ChromaMode::ConstLuma1
        } else {
            ChromaMode::Mono
        },
        border: BorderMode::ExtrudedStrips,
        ..reference()
    }
}

/// The transmitter's profile.
pub fn tx_profile(chroma: bool, cell: usize) -> (p: CalibProfile)
    ensures
        p == sweep_profile(chroma, cell),
{
    CalibProfile {
        cell_size_px: cell as u8,
        frame_hold_periods: 6,
        luma_bits: 1,
        chroma_mode: if chroma {
            ChromaMode::ConstLuma1
        } else {
            ChromaMode::Mono
        },
        gamma_g_q: 28,
        gamma_r_delta_q: 8,
        gamma_b_delta_q: 10,
        white_level_q: 15,
        black_level_q: 2,
        noise_sigma_q: 12,
        mtf_limit_px: 6,
        torn_frames_q: 5,
        crosstalk_rg_q: 3,
        crosstalk_gb_q: 4,
        quiet_zone: 1,
        fec_overhead: 2,
        border: BorderMode::ExtrudedStrips,
    }
}

/// The receiver's profile: it knows the mode, not the size of the cells shown.
pub fn rx_profile(chroma: bool) -> (p: CalibProfile)
    ensures
        p == sweep_profile(chroma, 16),
{
    tx_profile(chroma, 16)
}

/// The demodulators a capture may be handed to.
#[derive(Clone, Copy, Debug, PartialEq, Eq, Structural)]
pub enum Demod {
    /// Local thresholds on raw samples.
    Local,
    /// Local thresholds with an equaliser for the neighbours.
    LocalEqualised,
    /// Linear samples, decisions before equalising.
    Linear,
    /// Linear samples with an equaliser for the neighbours.
    LinearEqualised,
}

/// The demodulator for a profile: one bit of luma alone goes by local
/// thresholds, everything else by linear samples.
pub fn demod_for(luma_bits: u8, chroma_bits: u8, isi: bool) -> (d: Demod)
    ensures
        d == if luma_bits == 1 && chroma_bits == 0 {
            if isi {
                Demod::LocalEqualised
            } else {
                Demod::Local
            }
        } else if isi {
            Demod::LinearEqualised
        } else {
            Demod::Linear
        },
        isi <==> d == Demod::LocalEqualised || d == Demod::LinearEqualised,
        luma_bits == 1 && chroma_bits == 0 <==> d == Demod::Local || d == Demod::LocalEqualised,
{
    let mono: bool = luma_bits == 1 && chroma_bits == 0;
    if isi {
        if mono {
            Demod::LocalEqualised
        } else {
            Demod::LinearEqualised
        }
    } else if mono {
        Demod::Local
    } else {
        Demod::Linear
    }
}

/// What came out of one capture.
#[derive(Clone, Copy, Debug)]
pub struct Shot {
    pub wrong: usize,
    pub total: usize,
    pub alive_stripes: usize,
    pub surviving_bits: usize,
    pub total_bits: usize,
}

/// Scores the cells of one capture.
pub fn score_shot(sent: &[u8], got: &[u8], bpc: u32, stripe_rows: &[usize]) -> (shot: Shot)
    requires
        bpc < 32,
        stripes_fit(sent@, got@, stripe_rows@),
        sent@.len() * bpc <= u32::MAX,
    ensures
        shot.wrong == count_wrong(sent@, got@),
        shot.total == sent@.len(),
        shot.alive_stripes == alive_stripes(sent@, got@, stripe_rows@),
        shot.surviving_bits == rows_in_alive_stripes(sent@, got@, stripe_rows@) * PAYLOAD_COLS
            * bpc,
        shot.total_bits == sent@.len() * bpc,
{
    proof {
        assert(common(sent@, got@) * bpc <= sent@.len() * bpc) by (nonlinear_arith)
            requires
                common(sent@, got@) <= sent@.len(),
                bpc >= 0,
        ;
    }
    let (wrong, _wrong_bits, _total_bits) = compare_cells(sent, got, bpc);
    let (bits, _dead) = surviving_payload_bits(sent, got, bpc, stripe_rows);
    let alive: usize = alive_stripe_count(sent, got, stripe_rows);
    Shot {
        wrong,
        total: sent.len(),
        alive_stripes: alive,
        surviving_bits: bits,
        total_bits: sent.len() * bpc as usize,
    }
}

/// 1 for true.
pub open spec fn flag(b: bool) -> int {
    if b {
        1
    } else {
        0
    }
}

/// Running totals over the captures of a point.
#[derive(Clone, Copy, Debug, PartialEq, Eq, Structural)]
pub struct ShotTally {
    pub wrong: usize,
    pub total: usize,
    /// Captures with all eight stripes alive.
    pub full: usize,
    pub alive_stripes: usize,
    pub surviving_bits: usize,
    pub total_bits: usize,
}

impl ShotTally {
    /// The totals before the first capture.
    pub fn new() -> (t: Self)
        ensures
            t == (ShotTally {
                wrong: 0,
                total: 0,
                full: 0,
                alive_stripes: 0,
                surviving_bits: 0,
                total_bits: 0,
            }),
    {
        ShotTally { wrong: 0, total: 0, full: 0, alive_stripes: 0, surviving_bits: 0, total_bits: 0 }
    }

    /// Adds one capture.
    pub fn record(&mut self, shot: &Shot)
        requires
            old(self).wrong + shot.wrong <= usize::MAX,
            old(self).total + shot.total <= usize::MAX,
            old(self).full < usize::MAX,
            old(self).alive_stripes + shot.alive_stripes <= usize::MAX,
            old(self).surviving_bits + shot.surviving_bits <= usize::MAX,
            old(self).total_bits + shot.total_bits <= usize::MAX,
        ensures
            final(self).wrong == old(self).wrong + shot.wrong,
            final(self).total == old(self).total + shot.total,
            final(self).full == old(self).full + flag(shot.alive_stripes == 8),
            final(self).alive_stripes == old(self).alive_stripes + shot.alive_stripes,
            final(self).surviving_bits == old(self).surviving_bits + shot.surviving_bits,
            final(self).total_bits == old(self).total_bits + shot.total_bits,
            shot.alive_stripes == 8 ==> final(self).full == old(self).full + 1,
            shot.alive_stripes != 8 ==> final(self).full == old(self).full,
    {
        self.wrong = self.wrong + shot.wrong;
        self.total = self.total + shot.total;
        if shot.alive_stripes == 8 {
            self.full = self.full + 1;
        }
        self.alive_stripes = self.alive_stripes + shot.alive_stripes;
        self.surviving_bits = self.surviving_bits + shot.surviving_bits;
        self.total_bits = self.total_bits + shot.total_bits;
    }
}

/// Index of a point of the anchor table.
pub open spec fn anchor_index(i: int) -> int {
    900 + i
}

/// Index of a point of the sweep over shown and seen cell size.
pub open spec fn sep_index(chroma: bool, isi: bool, ppc: int, j: int) -> int {
    1000 + flag(chroma) * 400 + flag(isi) * 200 + ppc * 10 + j
}

/// Index of a point of the sweep over cell size.
pub open spec fn floor_index(chroma: bool, isi: bool, j: int) -> int {
    2000 + flag(chroma) * 100 + flag(isi) * 50 + j
}

/// Index of a point of the sweep over apertures.
pub open spec fn aperture_index(chroma: bool, isi: bool, shape: int, j: int) -> int {
    3000 + flag(chroma) * 400 + flag(isi) * 200 + shape * 20 + j
}

/// A point of one of the sweeps.
#[derive(Clone, Copy, Debug, PartialEq, Eq, Structural)]
pub enum SweepPoint {
    /// Entry `i` of the anchor table.
    Anchor { i: usize },
    /// `ppc` whole camera pixels per cell, entry `j` of the cell sizes.
    Sep { chroma: bool, isi: bool, ppc: usize, j: usize },
    /// Entry `j` of the cell sizes.
    Floor { chroma: bool, isi: bool, j: usize },
    /// Aperture `shape`, entry `j` of the cell sizes.
    Aperture { chroma: bool, isi: bool, shape: usize, j: usize },
}

impl SweepPoint {
    /// The sizes of the tables that the sweeps go through.
    pub open spec fn in_tables(self) -> bool {
        match self {
            SweepPoint::Anchor { i } => i < 6,
            SweepPoint::Sep { ppc, j, .. } => ppc < 12 && j < 8,
            SweepPoint::Floor { j, .. } => j < 11,
            SweepPoint::Aperture { shape, j, .. } => shape < 7 && j < 6,
        }
    }

    /// The index that seeds the trials of the point.
    pub open spec fn index_of(self) -> int {
        match self {
            SweepPoint::Anchor { i } => anchor_index(i as int),
            SweepPoint::Sep { chroma, isi, ppc, j } => sep_index(chroma, isi, ppc as int, j as int),
            SweepPoint::Floor { chroma, isi, j } => floor_index(chroma, isi, j as int),
            SweepPoint::Aperture { chroma, isi, shape, j } => aperture_index(
                chroma,
                isi,
                shape as int,
                j as int,
            ),
        }
    }

    /// The index that seeds the trials of the point.
    pub fn index(self) -> (r: usize)
        requires
            self.in_tables(),
        ensures
            r == self.index_of(),
    {
        match self {
            SweepPoint::Anchor { i } => 900 + i,
            SweepPoint::Sep { chroma, isi, ppc, j } => {
                let by_mode: usize = if chroma { 400 } else { 0 };
                let by_isi: usize = if isi { 200 } else { 0 };
                1000 + by_mode + by_isi + ppc * 10 + j
            },
            SweepPoint::Floor { chroma, isi, j } => {
                let by_mode: usize = if chroma { 100 } else { 0 };
                let by_isi: usize = if isi { 50 } else { 0 };
                2000 + by_mode + by_isi + j
            },
            SweepPoint::Aperture { chroma, isi, shape, j } => {
                let by_mode: usize = if chroma { 400 } else { 0 };
                let by_isi: usize = if isi { 200 } else { 0 };
                3000 + by_mode + by_isi + shape * 20 + j
            },
        }
    }
}

/// No two points of the sweeps share an index, so no two share a seed.
pub proof fn lemma_points_distinct(a: SweepPoint, b: SweepPoint)
    requires
        a.in_tables(),
        b.in_tables(),
        a.index_of() == b.index_of(),
    ensures
        a == b,
{
}

/// The sweeps that can be asked for.
#[derive(Clone, Copy, Debug, PartialEq, Eq, Structural)]
pub enum Sweep {
    Anchor,
    Probe,
    Sep,
    Floor,
    Aperture,
}

/// The sweep of that name.
pub open spec fn sweep_of(name: Seq<char>) -> Option<Sweep> {
    if name == "anchor"@ {
        Some(Sweep::Anchor)
    } else if name == "probe"@ {
        Some(Sweep::Probe)
    } else if name == "sep"@ {
        Some(Sweep::Sep)
    } else if name == "floor"@ {
        Some(Sweep::Floor)
    } else if name == "aperture"@ {
        Some(Sweep::Aperture)
    } else {
        None
    }
}

/// The sweep that the arguments ask for: the one named first, by default the
/// one over cell size, none for an unknown name.
pub fn sweep_asked(args: &[String]) -> (r: Option<Sweep>)
    ensures
        args@.len() == 0 ==> r == Some(Sweep::Floor),
        args@.len() > 0 ==> r == sweep_of(args@[0]@),
{
    if args.len() == 0 {
        return Some(Sweep::Floor);
    }
    let name: &str = args[0].as_str();
    if same_text(name, "anchor") {
        Some(Sweep::Anchor)
    } else if same_text(name, "probe") {
        Some(Sweep::Probe)
    } else if same_text(name, "sep") {
        Some(Sweep::Sep)
    } else if same_text(name, "floor") {
        Some(Sweep::Floor)
    } else if same_text(name, "aperture") {
        Some(Sweep::Aperture)
    } else {
        None
    }
}

/// The sampling apertures that can be asked for by name.
#[derive(Clone, Copy, Debug, PartialEq, Eq, Structural)]
pub enum ApertureName {
    /// The four points a quarter of a cell off the centre.
    Standard,
    Point,
    HalfBox,
    FullBox,
    Grid3,
    Gauss25,
    Gauss35,
    /// Four points, their distance from the centre following the letter.
    Quad,
}

/// The aperture of that name.
pub open spec fn aperture_of(name: Seq<char>) -> ApertureName {
    if name == "point"@ {
        ApertureName::Point
    } else if name == "box05"@ {
        ApertureName::HalfBox
    } else if name == "box10"@ {
        ApertureName::FullBox
    } else if name == "grid3"@ {
        ApertureName::Grid3
    } else if name == "g025"@ {
        ApertureName::Gauss25
    } else if name == "g035"@ {
        ApertureName::Gauss35
    } else if name.len() > 0 && name[0] == 'q' {
        ApertureName::Quad
    } else {
        ApertureName::Standard
    }
}

/// The aperture of that name; an unknown name is the standard one.
pub fn aperture_asked(name: &str) -> (r: ApertureName)
    ensures
        r == aperture_of(name@),
{
    if same_text(name, "point") {
        ApertureName::Point
    } else if same_text(name, "box05") {
        ApertureName::HalfBox
    } else if same_text(name, "box10") {
        ApertureName::FullBox
    } else if same_text(name, "grid3") {
        ApertureName::Grid3
    } else if same_text(name, "g025") {
        ApertureName::Gauss25
    } else if same_text(name, "g035") {
        ApertureName::Gauss35
    } else if name.unicode_len() > 0 && name.get_char(0) == 'q' {
        ApertureName::Quad
    } else {
        ApertureName::Standard
    }
}

/// How the index of a point moves: by one with the entry of a table, by ten
/// with a pixel per cell, by twenty with an aperture, and by a fixed amount
/// with the colour and with the equaliser. The sweeps begin a thousand apart.
pub proof fn lemma_index_moves(chroma: bool, isi: bool, a: usize, j: usize)
    requires
        a < 100,
        j < 100,
    ensures
        (SweepPoint::Anchor { i: 0 }).index_of() == 900,
        (SweepPoint::Sep { chroma: false, isi: false, ppc: 0, j: 0 }).index_of() == 1000,
        (SweepPoint::Floor { chroma: false, isi: false, j: 0 }).index_of() == 2000,
        (SweepPoint::Aperture { chroma: false, isi: false, shape: 0, j: 0 }).index_of() == 3000,
        (SweepPoint::Anchor { i: (j + 1) as usize }).index_of() == (SweepPoint::Anchor {
            i: j,
        }).index_of() + 1,
        (SweepPoint::Sep { chroma, isi, ppc: (a + 1) as usize, j }).index_of() == (
        SweepPoint::Sep { chroma, isi, ppc: a, j }).index_of() + 10,
        (SweepPoint::Sep { chroma, isi, ppc: a, j: (j + 1) as usize }).index_of() == (
        SweepPoint::Sep { chroma, isi, ppc: a, j }).index_of() + 1,
        (SweepPoint::Sep { chroma: true, isi, ppc: a, j }).index_of() == (SweepPoint::Sep {
            chroma: false,
            isi,
            ppc: a,
            j,
        }).index_of() + 400,
        (SweepPoint::Sep { chroma, isi: true, ppc: a, j }).index_of() == (SweepPoint::Sep {
            chroma,
            isi: false,
            ppc: a,
            j,
        }).index_of() + 200,
        (SweepPoint::Floor { chroma, isi, j: (j + 1) as usize }).index_of() == (
        SweepPoint::Floor { chroma, isi, j }).index_of() + 1,
        (SweepPoint::Floor { chroma: true, isi, j }).index_of() == (SweepPoint::Floor {
            chroma: false,
            isi,
            j,
        }).index_of() + 100,
        (SweepPoint::Floor { chroma, isi: true, j }).index_of() == (SweepPoint::Floor {
            chroma,
            isi: false,
            j,
        }).index_of() + 50,
        (SweepPoint::Aperture { chroma, isi, shape: (a + 1) as usize, j }).index_of() == (
        SweepPoint::Aperture { chroma, isi, shape: a, j }).index_of() + 20,
        (SweepPoint::Aperture { chroma, isi, shape: a, j: (j + 1) as usize }).index_of() == (
        SweepPoint::Aperture { chroma, isi, shape: a, j }).index_of() + 1,
        (SweepPoint::Aperture { chroma: true, isi, shape: a, j }).index_of() == (
        SweepPoint::Aperture { chroma: false, isi, shape: a, j }).index_of() + 400,
        (SweepPoint::Aperture { chroma, isi: true, shape: a, j }).index_of() == (
        SweepPoint::Aperture { chroma, isi: false, shape: a, j }).index_of() + 200,
{
}

/// A sweep shows the reference configuration but for the size of its cells,
/// its bits and its border; colour alone tells two sweeps of one size apart.
pub proof fn lemma_sweep_profile(chroma: bool, cell: usize)
    requires
        cell <= 255,
    ensures
        sweep_profile(chroma, cell).cell_size_px == cell,
        sweep_profile(chroma, cell).luma_bits == 1,
        sweep_profile(true, cell).chroma_mode == ChromaMode::ConstLuma1,
        sweep_profile(false, cell).chroma_mode == ChromaMode::Mono,
        sweep_profile(chroma, cell).border == BorderMode::ExtrudedStrips,
        (CalibProfile {
            cell_size_px: 16,
            luma_bits: 3,
            chroma_mode: ChromaMode::Chroma2,
            border: BorderMode::LegacyInverted,
            ..sweep_profile(chroma, cell)
        }) == reference(),
{
}

/// A sweep has one name, and a text that is not the name of a sweep names none.
pub proof fn lemma_sweep_names(a: Seq<char>, b: Seq<char>)
    requires
        sweep_of(a) is Some,
        sweep_of(a) == sweep_of(b),
    ensures
        a == b,
{
}

/// A name that begins with the letter of the four points asks for them, and no
/// other name does. Every other aperture but the standard one has one name.
pub proof fn lemma_aperture_names(a: Seq<char>, b: Seq<char>)
    ensures
        aperture_of(a) == ApertureName::Quad <==> a.len() > 0 && a[0] == 'q',
        aperture_of(a) == aperture_of(b) && aperture_of(a) != ApertureName::Quad && aperture_of(a)
            != ApertureName::Standard ==> a == b,
{
    reveal_strlit("point");
    reveal_strlit("box05");
    reveal_strlit("box10");
    reveal_strlit("grid3");
    reveal_strlit("g025");
    reveal_strlit("g035");
}

} // verus!
