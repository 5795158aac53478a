use psicode_sim::args::{arg_flag, arg_usize, chars_of, find_value, has_arg};
use psicode_sim::dump::{
    histogram, parse_meta, percentile_bin, read_numbers, unpack_dump, unpack_plane,
    DumpMeta,
};
use psicode_sim::text::{parse_usize, push_decimal, same_text};

fn args(words: &[&str]) -> Vec<String> {
    words.iter().map(|w| w.to_string()).collect()
}

fn parse(s: &str) -> Option<usize> {
    parse_usize(&chars_of(s))
}

#[test]
fn decimals() {
    let mut s = "n=".to_string();
    push_decimal(&mut s, 0);
    push_decimal(&mut s, 9050);
    assert_eq!(s, "n=09050");
    for n in [0usize, 7, 10, 99, 100, 12345, usize::MAX] {
        let mut s = String::new();
        push_decimal(&mut s, n);
        assert_eq!(s, n.to_string());
        assert_eq!(parse(&s), Some(n));
    }
}

#[test]
fn numbers_parse_as_the_standard_library_does() {
    for s in [
        "", "+", "-", "0", "007", "+5", "-5", "12a", " 1", "18446744073709551615",
        "18446744073709551616", "99999999999999999999999", "5+", "٣",
    ] {
        assert_eq!(parse(s), s.parse::<usize>().ok(), "{s:?}");
    }
}

#[test]
fn texts_compare_by_characters() {
    assert!(same_text("ψ-код", "ψ-код"));
    assert!(!same_text("a", "ab"));
    assert!(!same_text("ab", "ac"));
    assert!(same_text("", ""));
}

#[test]
fn options_are_found_by_key() {
    let a = args(&["probe", "--n", "24", "--trials", "x", "--plain", "--n", "3"]);
    assert_eq!(find_value(&a, "--n").map(|s| s.as_str()), Some("24"));
    assert_eq!(arg_usize(&a, "--n", 7), 24);
    assert_eq!(arg_usize(&a, "--trials", 7), 7);
    assert_eq!(arg_usize(&a, "--w", 7), 7);
    assert!(has_arg(&a, "--plain"));
    assert!(!has_arg(&a, "--fast"));
    // A key at the very end has no value.
    let b = args(&["--n"]);
    assert!(find_value(&b, "--n").is_none());
}

#[test]
fn flags_say_yes_or_no() {
    for yes in ["1", "on", "true", "yes"] {
        assert!(arg_flag(&args(&["--k", yes]), "--k", false));
    }
    for no in ["0", "off", "TRUE", ""] {
        assert!(!arg_flag(&args(&["--k", no]), "--k", true));
    }
    assert!(arg_flag(&args(&[]), "--k", true));
}

#[test]
fn dump_headers() {
    let text = chars_of("1920 1080\n2048\t1024 2  7 9 x 5");
    assert_eq!(read_numbers(&text), vec![1920, 1080, 2048, 1024, 2, 7, 9, 5]);
    let m = parse_meta(&text).unwrap();
    assert_eq!((m.w, m.h, m.y_stride, m.u_stride, m.u_step), (1920, 1080, 2048, 1024, 2));
    assert_eq!((m.v_stride, m.v_step), (7, 9));
    assert!(parse_meta(&chars_of("1 2 3 4 5 6")).is_none());
    assert!(parse_meta(&chars_of("1 2 3 4 5 6 7")).is_some());
}

#[test]
fn planes_are_unpacked_by_stride() {
    let bytes: Vec<u8> = (0..12).collect();
    assert_eq!(unpack_plane(&bytes, 2, 2, 6, 2, 99), vec![0, 2, 6, 8]);
    assert_eq!(unpack_plane(&bytes, 3, 2, 10, 1, 99), vec![0, 1, 2, 10, 11, 99]);
}

#[test]
fn each_plane_of_a_dump_has_its_own_strides() {
    let meta = parse_meta(&chars_of("4 5 6 3 2 7 1 30 6 9")).unwrap();
    let bytes: Vec<u8> = (0..26).collect();
    let p = unpack_dump(&meta, &bytes, &bytes[..6], &bytes);
    assert_eq!((p.y.w, p.y.h, p.u.w, p.u.h, p.v.w, p.v.h), (4, 5, 2, 2, 2, 2));
    assert_eq!(p.y.data[..8].to_vec(), vec![0, 1, 2, 3, 6, 7, 8, 9]);
    // The last row runs past the end.
    assert_eq!(p.y.data[16..].to_vec(), vec![24, 25, 0, 0]);
    assert_eq!(p.u.data, vec![0, 2, 3, 5]);
    assert_eq!(p.v.data, vec![0, 1, 7, 8]);
    assert_eq!(unpack_dump(&meta, &[], &[], &[]).v.data, vec![128; 4]);
    assert!(meta.addressable());
    let max = usize::MAX;
    assert!(DumpMeta { w: max, h: 1, y_stride: 0, ..meta }.addressable());
    assert!(!DumpMeta { w: max, h: 2, ..meta }.addressable());
    assert!(!DumpMeta { y_stride: max / 2, ..meta }.addressable());
    assert!(!DumpMeta { u_stride: max, ..meta }.addressable());
    assert!(!DumpMeta { v_step: max / 2 + 1, ..meta }.addressable());
    // One row and one column of chrominance: only the sum counts.
    let slim = DumpMeta { w: 2, h: 2, v_stride: max - 1, v_step: 1, ..meta };
    assert!(slim.addressable());
    assert!(!DumpMeta { v_step: 2, ..slim }.addressable());
}

#[test]
fn percentiles() {
    let h = histogram(&[3, 3, 5, 255]);
    assert_eq!((h[3], h[5], h[255], h[0]), (2, 1, 1, 0));
    assert_eq!(percentile_bin(&h, 1), 3);
    assert_eq!(percentile_bin(&h, 3), 5);
    assert_eq!(percentile_bin(&h, 4), 255);
    assert_eq!(percentile_bin(&h, 9), 255);
    assert_eq!(percentile_bin(&h, 0), 0);
}
