//! Calibration profiles: what the transmitter shows and what the receiver
//! believes of the channel, as the quantised fields that travel in a symbol.

use vstd::prelude::*;

verus! {

/// How a cell carries bits in colour.
#[derive(Clone, Copy, Debug, PartialEq, Eq, Structural)]
pub enum ChromaMode {
    Mono,
    Chroma1,
    Chroma2,
    Chroma3,
    GreenOnly,
    ConstLuma1,
    ConstLuma2,
    ConstLuma3,
}

/// How the border around the payload is drawn.
#[derive(Clone, Copy, Debug, PartialEq, Eq, Structural)]
pub enum BorderMode {
    LegacyInverted,
    ExtrudedStrips,
}

/// The fields of a profile, as quantised in the symbol.
#[derive(Clone, Copy, Debug, PartialEq, Eq, Structural)]
pub struct CalibProfile {
    pub cell_size_px: u8,
    pub frame_hold_periods: u8,
    pub luma_bits: u8,
    pub chroma_mode: ChromaMode,
    pub gamma_g_q: u8,
    pub gamma_r_delta_q: u8,
    pub gamma_b_delta_q: u8,
    pub white_level_q: u8,
    pub black_level_q: u8,
    pub noise_sigma_q: u8,
    pub mtf_limit_px: u8,
    pub torn_frames_q: u8,
    pub crosstalk_rg_q: u8,
    pub crosstalk_gb_q: u8,
    pub quiet_zone: u8,
    pub fec_overhead: u8,
    pub border: BorderMode,
}

/// The reference configuration: 16 px cells, 3 bits of luma and 2 of chroma.
pub open spec fn reference() -> CalibProfile {
    CalibProfile {
        cell_size_px: 16,
        frame_hold_periods: 6,
        luma_bits: 3,
        chroma_mode: ChromaMode::Chroma2,
        gamma_g_q: 28,
        gamma_r_delta_q: 8,
        gamma_b_delta_q: 10,
        white_level_q: 15,
        black_level_q: 2,
        noise_sigma_q: 12,
        mtf_limit_px: 6,
        torn_frames_q: 5,
        crosstalk_rg_q: 3,
        crosstalk_gb_q: 4,
        quiet_zone: 1,
        fec_overhead: 2,
        border: BorderMode::LegacyInverted,
    }
}

/// `q` moved by `dq`, held between 0 and `top`.
pub open spec fn shifted(q: u8, dq: int, top: int) -> int {
    if q + dq < 0 {
        0
    } else if q + dq > top {
        top
    } else {
        q + dq
    }
}

/// The reference configuration.
pub fn reference_profile() -> (p: CalibProfile)
    ensures
        p == reference(),
{
    CalibProfile {
        cell_size_px: 16,
        frame_hold_periods: 6,
        luma_bits: 3,
        chroma_mode: ChromaMode::Chroma2,
        gamma_g_q: 28,
        gamma_r_delta_q: 8,
        gamma_b_delta_q: 10,
        white_level_q: 15,
        black_level_q: 2,
        noise_sigma_q: 12,
        mtf_limit_px: 6,
        torn_frames_q: 5,
        crosstalk_rg_q: 3,
        crosstalk_gb_q: 4,
        quiet_zone: 1,
        fec_overhead: 2,
        border: BorderMode::LegacyInverted,
    }
}

/// The profile with other numbers of luma and chroma levels.
pub fn config_profile(base: &CalibProfile, luma: u8, chroma: ChromaMode) -> (p: CalibProfile)
    ensures
        p == (CalibProfile { luma_bits: luma, chroma_mode: chroma, ..*base }),
{
    let mut p: CalibProfile = *base;
    p.luma_bits = luma;
    p.chroma_mode = chroma;
    p
}

/// `q` moved by `dq`, held between 0 and `top`.
fn shift(q: u8, dq: i32, top: u8) -> (r: u8)
    requires
        q + dq <= i32::MAX,
    ensures
        r == shifted(q, dq as int, top as int),
{
    let v: i32 = q as i32 + dq;
    if v < 0 {
        0
    } else if v > top as i32 {
        top
    } else {
        v as u8
    }
}

/// A receiver that believes in gammas off by `dq` quanta. The offsets of red
/// and blue stay, so all three gammas move together.
pub fn with_gamma_shift(p: &CalibProfile, dq: i32) -> (r: CalibProfile)
    requires
        p.gamma_g_q + dq <= i32::MAX,
    ensures
        r == (CalibProfile { gamma_g_q: shifted(p.gamma_g_q, dq as int, 63) as u8, ..*p }),
        p.gamma_g_q + dq >= 63 ==> r.gamma_g_q == 63,
        p.gamma_g_q + dq <= 0 ==> r.gamma_g_q == 0,
        0 <= p.gamma_g_q + dq <= 63 ==> r.gamma_g_q == p.gamma_g_q + dq,
{
    let mut r: CalibProfile = *p;
    r.gamma_g_q = shift(p.gamma_g_q, dq, 63);
    r
}

/// A receiver that believes in a white level off by `dq` quanta.
pub fn with_white_shift(p: &CalibProfile, dq: i32) -> (r: CalibProfile)
    requires
        p.white_level_q + dq <= i32::MAX,
    ensures
        r == (CalibProfile { white_level_q: shifted(p.white_level_q, dq as int, 15) as u8, ..*p }),
        p.white_level_q + dq >= 15 ==> r.white_level_q == 15,
        p.white_level_q + dq <= 0 ==> r.white_level_q == 0,
        0 <= p.white_level_q + dq <= 15 ==> r.white_level_q == p.white_level_q + dq,
{
    let mut r: CalibProfile = *p;
    r.white_level_q = shift(p.white_level_q, dq, 15);
    r
}

/// Short label of a chroma mode.
pub open spec fn short_label(m: ChromaMode) -> Seq<char> {
    match m {
        ChromaMode::Mono => "Mono"@,
        ChromaMode::Chroma1 => "C1"@,
        ChromaMode::Chroma2 => "C2"@,
        ChromaMode::Chroma3 => "C3"@,
        ChromaMode::GreenOnly => "G"@,
        ChromaMode::ConstLuma1 => "CL1"@,
        ChromaMode::ConstLuma2 => "CL2"@,
        ChromaMode::ConstLuma3 => "CL3"@,
    }
}

/// Short label of a chroma mode, for tables.
pub fn chroma_short(m: ChromaMode) -> (r: &'static str)
    ensures
        r@ == short_label(m),
{
    match m {
        ChromaMode::Mono => "Mono",
        ChromaMode::Chroma1 => "C1",
        ChromaMode::Chroma2 => "C2",
        ChromaMode::Chroma3 => "C3",
        ChromaMode::GreenOnly => "G",
        ChromaMode::ConstLuma1 => "CL1",
        ChromaMode::ConstLuma2 => "CL2",
        ChromaMode::ConstLuma3 => "CL3",
    }
}

/// A shift by nothing changes nothing of a profile whose fields are in range,
/// and two shifts that stay in range add up.
pub proof fn lemma_shift_adds(q: u8, a: int, b: int, top: u8)
    requires
        q <= top,
    ensures
        shifted(q, 0, top as int) == q,
        0 <= q + a <= top ==> shifted(shifted(q, a, top as int) as u8, b, top as int) == shifted(
            q,
            a + b,
            top as int,
        ),
{
}

/// A shifted field stays in its range, follows the shift in order, and moves
/// by exactly the shift as long as there is room.
pub proof fn lemma_shift_in_range(q: u8, a: int, b: int, top: u8)
    requires
        q <= top,
        a <= b,
    ensures
        0 <= shifted(q, a, top as int) <= shifted(q, b, top as int) <= top,
        0 <= q + a <= top ==> shifted(q, a, top as int) == q + a,
        shifted(q, b, top as int) < top ==> q + b <= shifted(q, b, top as int),
        shifted(q, a, top as int) > 0 ==> shifted(q, a, top as int) <= q + a,
{
}

} // verus!
