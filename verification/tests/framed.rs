use psicode_sim::framed::{
    attribute_stripes, clean_useful_bytes, compose_torn, frame_symbol_bytes, plan_frame,
    stripe_caps, tear_row, torn_useful_bytes, Frame, HeaderFields, FRAME_HEADER_LEN,
    TRANSFER_INFO_LEN,
};
use psicode_sim::rng::{seed_for, Rng};
use psicode_sim::symbol::{PAYLOAD_ROWS, RING};
use psicode_sim::tally::FramedTally;

const ROWS: [usize; 8] = [7, 7, 7, 7, 7, 7, 7, 6];

fn header(seq: u32) -> Option<HeaderFields> {
    Some(HeaderFields { esi: plan_frame(seq).esi, count: 9 })
}

#[test]
fn clean_no_tear_full_salvage() {
    // Six bits per cell; frame 1 carries no transfer information. The outcome of
    // a clean channel is set by hand: all stripes valid, the counter that was sent.
    let caps = stripe_caps(&ROWS, 6);
    let plan = plan_frame(1);
    let r = attribute_stripes(false, [true; 8], header(1), plan.counter, &caps, plan.header_len);
    assert!(r.stripes_ok.iter().all(|&ok| ok));
    assert!(!r.frame_lost);
    assert!(!r.torn_detected);
    assert_eq!(r.useful_off, r.useful_on);
    let total: usize = caps.iter().sum();
    assert_eq!(r.useful_off, total - FRAME_HEADER_LEN);
}

#[test]
fn clean_tear_salvages_partial() {
    let caps = stripe_caps(&ROWS, 6);
    let (quiet, cell) = (4usize, 16usize);
    let mut found = false;
    // The outcome of a clean channel is set by hand: the stripe at the seam is
    // dead, the others are valid, and the counter is the next frame's.
    for t in 0..40usize {
        let plan = plan_frame(t as u32);
        let mut rng = Rng::new(seed_for(7, t));
        let row = tear_row(&mut rng, quiet, cell) / cell - quiet - RING - 1;
        assert!(row < PAYLOAD_ROWS);
        let mut stripes_ok = [true; 8];
        stripes_ok[row / 7] = false;
        let seen = if stripes_ok[0] { header(t as u32) } else { None };
        let r = attribute_stripes(true, stripes_ok, seen, plan.next_counter, &caps, plan.header_len);
        assert!(r.torn);
        if r.stripes_ok[0] {
            assert!(r.torn_detected);
            let dead = r.stripes_ok.iter().filter(|&&ok| !ok).count();
            assert_eq!(dead, 1);
            assert_eq!(r.useful_off, 0);
            assert!(r.useful_on > 0);
            assert!(!r.frame_lost);
            found = true;
            break;
        }
    }
    assert!(found);
}

#[test]
fn compose_torn_splits_rows() {
    let n = 16usize;
    let a = Frame { size_px: n, quiet_cells: 4, rgb: vec![[10; 3]; n * n] };
    let b = Frame { size_px: n, quiet_cells: 4, rgb: vec![[20; 3]; n * n] };
    let t = n / 2;
    let c = compose_torn(&a, &b, t);
    assert_eq!(c.rgb[(t - 1) * n], a.rgb[(t - 1) * n]);
    assert_eq!(c.rgb[t * n], b.rgb[t * n]);
    assert_eq!(c.size_px, n);
    assert_eq!(c.quiet_cells, 4);
    assert_eq!(c.rgb[t * n - 1], [10; 3]);
    // A seam above or below the frame leaves one of the two whole.
    assert_eq!(compose_torn(&a, &b, 0).rgb, b.rgb);
    assert_eq!(compose_torn(&a, &b, n + 5).rgb, a.rgb);
}

#[test]
fn capacities_of_stripes() {
    assert_eq!(stripe_caps(&ROWS, 6), [297, 297, 297, 297, 297, 297, 297, 254]);
    assert_eq!(stripe_caps(&ROWS, 1), [47, 47, 47, 47, 47, 47, 47, 40]);
}

#[test]
fn filler_bytes_are_known_and_differ_by_frame() {
    assert_eq!(frame_symbol_bytes(3, 6), vec![33, 161, 87, 67, 120, 214]);
    assert_eq!(frame_symbol_bytes(3, 0), Vec::<u8>::new());
    assert_ne!(frame_symbol_bytes(3, 16), frame_symbol_bytes(4, 16));
}

#[test]
fn plans_repeat_the_transfer_information_every_eight_frames() {
    let p = plan_frame(8);
    assert!(p.carries_info);
    assert_eq!(p.header_len, FRAME_HEADER_LEN + TRANSFER_INFO_LEN);
    assert_eq!((p.esi, p.next_esi), (72, 81));
    let q = plan_frame(9);
    assert!(!q.carries_info);
    assert_eq!(q.header_len, FRAME_HEADER_LEN);
    // Identifiers wrap at 24 bits, counters at a byte.
    let w = plan_frame(1_864_135);
    assert_eq!(w.esi, 16_777_215);
    assert_eq!(w.next_esi, 8);
    assert_eq!((w.counter, w.next_counter), (199, 200));
    assert_eq!((plan_frame(255).counter, plan_frame(255).next_counter), (255, 0));
}

#[test]
fn salvage_of_a_torn_frame_joins_both_runs() {
    let caps = [10usize, 20, 30, 40, 50, 60, 70, 80];
    let mut ok = [true; 8];
    assert_eq!(torn_useful_bytes(&ok, &caps, 4), 356);
    assert_eq!(clean_useful_bytes(&ok, &caps, 4), 356);
    ok[3] = false;
    assert_eq!(torn_useful_bytes(&ok, &caps, 4), 6 + 20 + 30 + 50 + 60 + 70 + 80);
    // Valid stripes between two dead ones belong to neither run.
    ok[5] = false;
    assert_eq!(torn_useful_bytes(&ok, &caps, 4), 6 + 20 + 30 + 70 + 80);
    assert_eq!(clean_useful_bytes(&ok, &caps, 4), 6 + 20 + 30 + 50 + 70 + 80);
    // A header longer than its stripe leaves nothing of it.
    assert_eq!(clean_useful_bytes(&[true; 8], &caps, 99), 350);
    assert_eq!(torn_useful_bytes(&[false; 8], &caps, 4), 0);
}

#[test]
fn lost_frames_and_seen_tears() {
    let caps = [10usize; 8];
    let mut no_header = [true; 8];
    no_header[0] = false;
    let r = attribute_stripes(false, no_header, None, 5, &caps, 4);
    assert!(r.frame_lost);
    assert!(r.torn_detected);
    assert_eq!((r.useful_off, r.useful_on), (0, 0));
    // Header of frame 2, counter of frame 3.
    let r = attribute_stripes(true, [true; 8], header(2), 3, &caps, 4);
    assert!(r.torn_detected && !r.frame_lost);
    assert_eq!((r.useful_off, r.useful_on), (0, 76));
    let r = attribute_stripes(true, [true; 8], header(2), 2, &caps, 4);
    assert!(!r.torn_detected);
    // A header without symbols announces frame 0.
    let empty = Some(HeaderFields { esi: 81, count: 0 });
    assert!(!attribute_stripes(false, [true; 8], empty, 0, &caps, 4).torn_detected);
}

#[test]
fn tears_fall_inside_payload_rows() {
    let mut rng = Rng::new(11);
    for _ in 0..1000 {
        let t = tear_row(&mut rng, 4, 16);
        let row = t / 16;
        assert!(row >= 4 + RING + 1 && row < 4 + RING + 1 + PAYLOAD_ROWS);
        assert_ne!(t % 16, 0);
    }
}

#[test]
fn framed_totals_add_up() {
    let caps = [10usize; 8];
    let mut tally = FramedTally::new();
    tally.record(&attribute_stripes(false, [true; 8], header(2), 2, &caps, 4));
    tally.record(&attribute_stripes(true, [true; 8], header(2), 3, &caps, 4));
    tally.record(&attribute_stripes(false, [false; 8], None, 0, &caps, 4));
    assert_eq!(tally, FramedTally { lost: 1, useful_off: 76, useful_on: 152 });
}

#[test]
fn frames_differ_within_five_bytes() {
    let base = frame_symbol_bytes(0, 5);
    assert!((1..2000u32).all(|seq| frame_symbol_bytes(seq, 5) != base));
    let (a, b) = (frame_symbol_bytes(150_287_233, 5), frame_symbol_bytes(1_849_570_002, 5));
    assert_eq!(a[..4].to_vec(), b[..4].to_vec());
    assert_ne!(a[4], b[4]);
}
