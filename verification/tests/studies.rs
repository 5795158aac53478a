use psicode_sim::bits::{count_ones, count_ones_long};
use psicode_sim::cellfloor::{
    aperture_asked, demod_for, rx_profile, score_shot, sweep_asked, tx_profile, ApertureName, Demod,
    ShotTally, Sweep, SweepPoint,
};
use psicode_sim::command::{dump_dir, dump_files, live_cell, parse_command, Command, DumpFile};
use psicode_sim::grid::{clamp_idx, tap_indices, transpose};
use psicode_sim::live;
use psicode_sim::profile::{
    chroma_short, config_profile, reference_profile, with_gamma_shift, with_white_shift,
    BorderMode, ChromaMode,
};
use psicode_sim::symbol::PAYLOAD_CELLS;

fn args(words: &[&str]) -> Vec<String> {
    words.iter().map(|w| w.to_string()).collect()
}

#[test]
fn shifted_profiles() {
    let p = reference_profile();
    assert_eq!(with_gamma_shift(&p, 0), p);
    assert_eq!(with_gamma_shift(&p, -8).gamma_g_q, 20);
    assert_eq!(with_gamma_shift(&p, 1000).gamma_g_q, 63);
    assert_eq!(with_gamma_shift(&p, -1000).gamma_g_q, 0);
    assert_eq!(with_gamma_shift(&p, 4).gamma_r_delta_q, p.gamma_r_delta_q);
    assert_eq!(with_white_shift(&p, 3).white_level_q, 15);
    assert_eq!(with_white_shift(&p, -4).white_level_q, 11);
    assert_eq!(with_gamma_shift(&with_gamma_shift(&p, 5), -9), with_gamma_shift(&p, -4));
}

#[test]
fn configured_profiles() {
    let p = config_profile(&reference_profile(), 4, ChromaMode::Mono);
    assert_eq!((p.luma_bits, p.chroma_mode, p.cell_size_px), (4, ChromaMode::Mono, 16));
    assert_eq!(chroma_short(ChromaMode::Chroma2), "C2");
    assert_eq!(chroma_short(ChromaMode::ConstLuma3), "CL3");
    let t = tx_profile(true, 8);
    assert_eq!((t.cell_size_px, t.luma_bits, t.chroma_mode), (8, 1, ChromaMode::ConstLuma1));
    assert_eq!(t.border, BorderMode::ExtrudedStrips);
    assert_eq!(tx_profile(false, 300).cell_size_px, 44);
    assert_eq!(rx_profile(false), tx_profile(false, 16));
    assert_eq!(live::tx_profile().chroma_mode, ChromaMode::Chroma1);
    assert_eq!(live::tx_profile().luma_bits, 2);
}

#[test]
fn single_frames_carry_a_known_load() {
    assert_eq!(live::tx_single_cells(3, 8), vec![3, 0, 6, 5, 4, 0, 0, 2]);
    let wide = live::tx_single_cells(20, 64);
    let narrow = live::tx_single_cells(3, 64);
    assert!(wide.iter().zip(&narrow).all(|(w, n)| w & 7 == *n));
    assert_eq!(live::tx_single_cells(0, 2), vec![0, 0]);
}

#[test]
fn demodulators() {
    assert_eq!(demod_for(1, 0, false), Demod::Local);
    assert_eq!(demod_for(1, 0, true), Demod::LocalEqualised);
    assert_eq!(demod_for(1, 1, false), Demod::Linear);
    assert_eq!(demod_for(2, 0, true), Demod::LinearEqualised);
}

#[test]
fn shots_are_scored() {
    let rows = [7usize, 7, 7, 7, 7, 7, 7, 6];
    let sent = vec![1u8; PAYLOAD_CELLS];
    let mut got = sent.clone();
    got[3134] = 0;
    let s = score_shot(&sent, &got, 2, &rows);
    assert_eq!((s.wrong, s.total, s.alive_stripes), (1, 3135, 7));
    assert_eq!((s.surviving_bits, s.total_bits), (49 * 57 * 2, 6270));
    let mut sum = ShotTally::new();
    sum.record(&s);
    sum.record(&score_shot(&sent, &sent, 2, &rows));
    let want = ShotTally {
        wrong: 1,
        total: 6270,
        full: 1,
        alive_stripes: 15,
        surviving_bits: 49 * 57 * 2 + 6270,
        total_bits: 12540,
    };
    assert_eq!(sum, want);
}

#[test]
fn sweep_points_never_collide() {
    let mut seen = Vec::new();
    for i in 0..6 {
        seen.push(SweepPoint::Anchor { i }.index());
    }
    for chroma in [false, true] {
        for isi in [false, true] {
            for ppc in [5usize, 7, 8, 10] {
                for j in 0..8 {
                    seen.push(SweepPoint::Sep { chroma, isi, ppc, j }.index());
                }
            }
            for j in 0..11 {
                seen.push(SweepPoint::Floor { chroma, isi, j }.index());
            }
            for shape in 0..7 {
                for j in 0..6 {
                    seen.push(SweepPoint::Aperture { chroma, isi, shape, j }.index());
                }
            }
        }
    }
    let n = seen.len();
    assert_eq!(SweepPoint::Sep { chroma: true, isi: false, ppc: 8, j: 3 }.index(), 1483);
    assert_eq!(SweepPoint::Floor { chroma: true, isi: true, j: 10 }.index(), 2160);
    seen.sort();
    seen.dedup();
    assert_eq!(seen.len(), n);
}

#[test]
fn sweeps_and_apertures_by_name() {
    assert_eq!(sweep_asked(&[]), Some(Sweep::Floor));
    assert_eq!(sweep_asked(&args(&["anchor"])), Some(Sweep::Anchor));
    assert_eq!(sweep_asked(&args(&["sep", "floor"])), Some(Sweep::Sep));
    assert_eq!(sweep_asked(&args(&["probe"])), Some(Sweep::Probe));
    assert_eq!(sweep_asked(&args(&["aperture"])), Some(Sweep::Aperture));
    assert_eq!(sweep_asked(&args(&["floors"])), None);
    assert_eq!(aperture_asked("box05"), ApertureName::HalfBox);
    assert_eq!(aperture_asked("q0.3"), ApertureName::Quad);
    assert_eq!(aperture_asked("quarter"), ApertureName::Quad);
    assert_eq!(aperture_asked(""), ApertureName::Standard);
    assert_eq!(aperture_asked("g035"), ApertureName::Gauss35);
}

#[test]
fn commands() {
    let names = [
        ("sweep", Command::Sweep),
        ("framed", Command::Framed),
        ("l3live", Command::L3live),
        ("modeb", Command::Modeb),
        ("transfer", Command::Transfer),
        ("live", Command::Live),
        ("dump", Command::Dump),
        ("readback", Command::Readback),
        ("goodput", Command::Goodput),
        ("exp", Command::Exp),
        ("gprobe", Command::Gprobe),
        ("probe", Command::Probe),
        ("tprobe", Command::Tprobe),
        ("finder", Command::Finder),
    ];
    for (name, cmd) in names {
        assert_eq!(parse_command(&args(&["psicode-sim", name])), Some(cmd));
    }
    assert_eq!(parse_command(&args(&["psicode-sim"])), None);
    assert_eq!(parse_command(&args(&["psicode-sim", "help"])), None);
    assert_eq!(dump_dir(&args(&["p", "dump", "out"])), "out");
    assert_eq!(dump_dir(&args(&["p", "dump"])), "psicode-sim-dump");
    assert_eq!(live_cell(&args(&["p", "live", "a.ppm", "12"])), Some(12));
    assert_eq!(live_cell(&args(&["p", "live", "a.ppm", "256"])), None);
    assert_eq!(live_cell(&args(&["p", "live", "a.ppm", "x"])), None);
    assert_eq!(live_cell(&args(&["p", "live", "a.ppm"])), None);
}

#[test]
fn files_of_a_dump() {
    let names: Vec<String> = dump_files().iter().map(|f| f.name()).collect();
    assert_eq!(
        names,
        vec!["clean.ppm", "channel_s1.ppm", "channel_s4.ppm", "channel_perspective.ppm"]
    );
    assert_eq!(DumpFile::Blurred { sigma: 10 }.name(), "channel_s10.ppm");
}

#[test]
fn indices_are_held_at_the_edge() {
    assert_eq!(clamp_idx(-3, 5), 0);
    assert_eq!(clamp_idx(2, 5), 2);
    assert_eq!(clamp_idx(9, 5), 4);
    assert_eq!(tap_indices(0, 4, 5), vec![0, 0, 0, 1, 2]);
    assert_eq!(tap_indices(3, 4, 3), vec![2, 3, 3]);
}

#[test]
fn transposing_twice_gives_the_original() {
    let src = vec![1, 2, 3, 4, 5, 6];
    let mut dst = vec![0; 6];
    transpose(&src, 3, 2, &mut dst);
    assert_eq!(dst, vec![1, 4, 2, 5, 3, 6]);
    let mut back = vec![0; 6];
    transpose(&dst, 2, 3, &mut back);
    assert_eq!(back, src);
}

#[test]
fn ones_are_counted() {
    for x in [0u32, 1, 0xF0F0, u32::MAX] {
        assert_eq!(count_ones(x), x.count_ones());
    }
    assert_eq!(count_ones_long(u64::MAX), 64);
    assert_eq!(count_ones_long(0x8000_0000_0000_0001), 2);
}
