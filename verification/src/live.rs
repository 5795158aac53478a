//! The known load of a single test frame, against which a photograph of the
//! screen is scored.

use vstd::prelude::*;

use crate::profile::{reference, BorderMode, CalibProfile, ChromaMode};
use crate::rng::{lemma_splitmix_injective, splitmix, splitmix64, words, GOLDEN};

verus! {

/// Seed of the load.
pub const SINGLE_SEED: u64 = 0x0D15_EA5E_5EED_1234;

/// The profile that a single test frame is drawn with.
pub fn tx_profile() -> (p: CalibProfile)
    ensures
        p == (CalibProfile { luma_bits: 2, chroma_mode: ChromaMode::Chroma1, ..reference() }),
{
    CalibProfile {
        cell_size_px: 16,
        frame_hold_periods: 6,
        luma_bits: 2,
        chroma_mode: ChromaMode::Chroma1,
        gamma_g_q: 28,
        gamma_r_delta_q: 8,
        gamma_b_delta_q: 10,
        white_level_q: 15,
        black_level_q: 2,
        noise_sigma_q: 12,
        mtf_limit_px: 6,
        torn_frames_q: 5,
        crosstalk_rg_q: 3,
        crosstalk_gb_q: 4,
        quiet_zone: 1,
        fec_overhead: 2,
        border: BorderMode::LegacyInverted,
    }
}

/// The mask that keeps the low `bpc` bits of a 16-bit word.
pub open spec fn cell_mask(bpc: u32) -> u16 {
    if bpc >= 16 {
        u16::MAX
    } else {
        ((1u16 << bpc) - 1) as u16
    }
}

/// The word that cell `i` is cut out of.
pub open spec fn single_word(i: int) -> u64 {
    splitmix(((SINGLE_SEED + i * GOLDEN) % words()) as u64)
}

/// The value of cell `i`.
pub open spec fn single_cell(i: int, bpc: u32) -> u8 {
    (((single_word(i) >> 24) as u16) & cell_mask(bpc)) as u8
}

/// The first `n` cells of a single test frame with `bpc` bits per cell.
pub fn tx_single_cells(bpc: u32, n: usize) -> (cells: Vec<u8>)
    ensures
        cells@.len() == n,
        forall|i: int| 0 <= i < n ==> #[trigger] cells@[i] == single_cell(i, bpc),
{
    let mask: u16 = if bpc >= 16 {
        u16::MAX
    } else {
        assert(1u16 << bpc >= 1) by (bit_vector)
            requires
                bpc < 16,
        ;
        (1u16 << bpc) - 1
    };
    let mut state: u64 = SINGLE_SEED;
    let mut cells: Vec<u8> = Vec::new();
    let mut i: usize = 0;
    while i < n
        invariant
            i <= n,
            mask == cell_mask(bpc),
            state == (SINGLE_SEED + i * GOLDEN) % words(),
            cells@.len() == i,
            forall|j: int| 0 <= j < i ==> #[trigger] cells@[j] == single_cell(j, bpc),
        decreases n - i,
    {
        let z: u64 = splitmix64(state);
        cells.push((((z >> 24) as u16) & mask) as u8);
        proof {
            let a = SINGLE_SEED + i * GOLDEN;
            assert((i + 1) * GOLDEN == i * GOLDEN + GOLDEN) by (nonlinear_arith);
            vstd::arithmetic::div_mod::lemma_add_mod_noop(a, GOLDEN as int, words());
            assert(state.wrapping_add(GOLDEN) == (a + GOLDEN) % words());
        }
        state = state.wrapping_add(GOLDEN);
        i = i + 1;
    }
    cells
}

/// A cell is cut out of its word from place 24 on: with up to eight bits it is
/// the remainder of what lies there, and with more it is the whole byte.
pub proof fn lemma_cell_cut(i: int, bpc: u32)
    ensures
        bpc <= 8 ==> single_cell(i, bpc) == (single_word(i) / 0x100_0000) as nat
            % vstd::arithmetic::power2::pow2(bpc as nat),
        bpc >= 8 ==> single_cell(i, bpc) == (single_word(i) / 0x100_0000) % 256,
{
    let w = single_word(i);
    let n: nat = if bpc >= 8 {
        8
    } else {
        bpc as nat
    };
    vstd::arithmetic::power2::lemma2_to64();
    vstd::bits::lemma_u64_shr_is_div(w, 24);
    vstd::arithmetic::power2::lemma_pow2_pos(n);
    if n < 8 {
        vstd::arithmetic::power2::lemma_pow2_strictly_increases(n, 8);
    }
    vstd::bits::lemma_u64_shl_is_mul(1, n as u64);
    vstd::bits::lemma_u64_low_bits_mask_is_mod(w >> 24, n);
    assert((((w >> 24) as u16) & (if bpc >= 16 {
        0xFFFFu16
    } else {
        ((1u16 << bpc) - 1) as u16
    })) as u8 == (w >> 24) & (if bpc >= 8 {
        255u64
    } else {
        ((1u64 << (bpc as u64)) - 1) as u64
    })) by (bit_vector);
    assert(vstd::bits::low_bits_mask(n) == vstd::arithmetic::power2::pow2(n) - 1);
}

/// Consecutive cells are cut out of words whose states lie the golden constant
/// apart, from the seed of the load on.
pub proof fn lemma_words_in_golden_steps(i: int, state: u64)
    requires
        i >= 0,
        single_word(i) == splitmix(state),
    ensures
        single_word(0) == splitmix(0x0D15_EA5E_5EED_1234),
        single_word(i + 1) == splitmix(((state + 0x9E37_79B9_7F4A_7C15) % words()) as u64),
{
    let a = SINGLE_SEED + i * GOLDEN;
    lemma_splitmix_injective((a % words()) as u64, state);
    assert((i + 1) * GOLDEN == i * GOLDEN + GOLDEN) by (nonlinear_arith);
    vstd::arithmetic::div_mod::lemma_add_mod_noop(a, GOLDEN as int, words());
}

} // verus!
