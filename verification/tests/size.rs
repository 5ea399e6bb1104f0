use pdf_printer::size::format_size;

fn float_formatted(bytes: u64) -> String {
    if bytes < 1024 {
        format!("{bytes} B")
    } else if bytes < 1024 * 1024 {
        format!("{:.1} KB", bytes as f64 / 1024.0)
    } else if bytes < 1024 * 1024 * 1024 {
        format!("{:.1} MB", bytes as f64 / (1024.0 * 1024.0))
    } else {
        format!("{:.2} GB", bytes as f64 / (1024.0 * 1024.0 * 1024.0))
    }
}

#[test]
fn bytes_kilobytes_megabytes_gigabytes() {
    assert_eq!(format_size(0), "0 B");
    assert_eq!(format_size(1023), "1023 B");
    assert_eq!(format_size(1024), "1.0 KB");
    assert_eq!(format_size(1536), "1.5 KB");
    assert_eq!(format_size(1024 * 1024), "1.0 MB");
    assert_eq!(format_size(20 * 1024 * 1024), "20.0 MB");
    assert_eq!(format_size(1024 * 1024 * 1024), "1.00 GB");
    assert_eq!(format_size(1342177280), "1.25 GB");
}

#[test]
fn ties_round_to_even() {
    assert_eq!(format_size(1280), "1.2 KB");
    assert_eq!(format_size(1792), "1.8 KB");
}

#[test]
fn agrees_with_float_formatting_on_many_sizes() {
    let mut b: u64 = 0;
    while b < 3 * 1024 * 1024 {
        assert_eq!(format_size(b), float_formatted(b), "size {b}");
        b += 7;
    }
    let mut x: u64 = 1;
    for _ in 0..200000 {
        x = x.wrapping_mul(6364136223846793005).wrapping_add(1442695040888963407);
        for shift in [0u32, 10, 20, 24, 30, 34, 40, 44, 50, 54, 60] {
            let b = x >> shift;
            assert_eq!(format_size(b), float_formatted(b), "size {b}");
        }
    }
}

#[test]
fn largest_sizes_round_like_f64() {
    for b in [
        u64::MAX,
        u64::MAX - 1,
        (1u64 << 53) - 1,
        1u64 << 53,
        (1u64 << 53) + 1,
        (1u64 << 54) + 2,
        (1u64 << 54) + 6,
        (1u64 << 63) + 1024,
        (1u64 << 63) + 3072,
    ] {
        assert_eq!(format_size(b), float_formatted(b), "size {b}");
    }
}
