use psicode_sim::report::{encode_ppm, head, parse_ppm, sig4_decimals, table_row};

/// A rate to four significant digits: the places of the library, the number
/// itself in floating point, as a program prints it.
fn sig4(x: f64) -> String {
    if x == 0.0 {
        return "0".to_string();
    }
    let rounded = format!("{x:.3e}");
    let decimals = sig4_decimals(rounded.rsplit('e').next().unwrap().parse().unwrap());
    format!("{x:.decimals$}")
}

#[test]
fn ppm_header_and_size_are_correct() {
    let w = 3;
    let h = 2;
    let pixels = vec![[1u8, 2, 3]; w * h];
    let bytes = encode_ppm(w, h, &pixels);
    let header = b"P6\n3 2\n255\n";
    assert!(bytes.starts_with(header), "bad header");
    assert_eq!(bytes.len(), header.len() + w * h * 3);
    assert_eq!(&bytes[header.len()..header.len() + 3], &[1, 2, 3]);
}

#[test]
fn sig4_gives_four_significant_digits() {
    assert_eq!(sig4(0.0), "0");
    assert_eq!(sig4(0.5), "0.5000");
    assert_eq!(sig4(0.1234567), "0.1235");
    assert_eq!(sig4(0.001234567), "0.001235");
    assert_eq!(sig4(0.99999), "1.000");
}

#[test]
fn decimals_are_held_in_range() {
    assert_eq!(sig4_decimals(0), 3);
    assert_eq!(sig4_decimals(7), 0);
    assert_eq!(sig4_decimals(-30), 12);
}

#[test]
fn ppm_files_read_back() {
    let pixels: Vec<[u8; 3]> = (0..6u8).map(|i| [i, 10, 255 - i]).collect();
    let bytes = encode_ppm(2, 3, &pixels);
    let (w, h, back) = parse_ppm(&bytes).unwrap();
    assert_eq!((w, h), (2, 3));
    assert_eq!(back, pixels);
    // Pixels that look like digits or line ends do not confuse the header.
    let tricky = vec![[b'\n', b'5', b' ']; 1];
    assert_eq!(parse_ppm(&encode_ppm(1, 1, &tricky)).unwrap().2, tricky);
    let (w, h, none) = parse_ppm(&encode_ppm(0, 7, &[])).unwrap();
    assert_eq!((w, h, none.len()), (0, 7, 0));
}

#[test]
fn damaged_ppm_files_are_refused() {
    let good = encode_ppm(2, 1, &[[1, 2, 3], [4, 5, 6]]);
    assert!(parse_ppm(&good).is_some());
    assert!(parse_ppm(&good[..good.len() - 1]).is_none());
    assert!(parse_ppm(&[]).is_none());
    let mut longer = good.clone();
    longer.push(0);
    assert!(parse_ppm(&longer).is_none());
    let mut wrong = good.clone();
    wrong[1] = b'5';
    assert!(parse_ppm(&wrong).is_none());
    assert!(parse_ppm(b"P6\n2 1\n254\n123456").is_none());
    assert!(parse_ppm(b"P6\n2\n255\n123456").is_none());
    assert!(parse_ppm(b"P6\n02 1\n255\n123456").is_none());
}

#[test]
fn tables() {
    let cells = vec!["0.1".to_string(), "0.2".to_string()];
    assert_eq!(table_row("sim | SER", &cells), "| sim | SER | 0.1 | 0.2 |");
    assert_eq!(table_row("x", &[]), "| x |");
    assert_eq!(head("mode", &cells), "| mode | 0.1 | 0.2 |\n|---|---|---|");
}
