use pdf_printer::printer::{gray_to_bgra, rgba_to_bgra, PrintSettings, DMCOLLATE_FALSE, DMCOLLATE_TRUE};

#[test]
fn swaps_red_and_blue() {
    let rgba = vec![1, 2, 3, 4, 10, 20, 30, 40];
    assert_eq!(rgba_to_bgra(&rgba), vec![3, 2, 1, 4, 30, 20, 10, 40]);
    assert_eq!(rgba_to_bgra(&rgba_to_bgra(&rgba)), rgba);
}

#[test]
fn gray_keeps_alpha() {
    let rgba = vec![1, 2, 3, 4, 10, 20, 30, 40];
    assert_eq!(gray_to_bgra(&rgba, &vec![9, 8]), vec![9, 9, 9, 4, 8, 8, 8, 40]);
}

#[test]
fn devmode_from_settings() {
    let s = PrintSettings { paper_size: 9, orientation: 2, color_mode: 1, duplex: 3, collate: true, copies: 70000 };
    let d = s.devmode_values();
    assert_eq!(d.fields, 0x9903);
    assert_eq!(d.paper_size, 9);
    assert_eq!(d.orientation, 2);
    assert_eq!(d.color, 1);
    assert_eq!(d.duplex, 3);
    assert_eq!(d.collate, DMCOLLATE_TRUE);
    // The device makes one copy of each printed page; the run prints the page list `copies` times.
    assert_eq!(d.copies, 1);
    assert!(s.is_grayscale());
    let s = PrintSettings { collate: false, color_mode: 2, copies: 3, ..s };
    assert_eq!(s.devmode_values().collate, DMCOLLATE_FALSE);
    assert_eq!(s.devmode_values().copies, 1);
    assert!(!s.is_grayscale());
}

#[test]
fn converting_twice_gives_the_pixels_back() {
    let rgba: Vec<u8> = (0..64u8).collect();
    assert_eq!(rgba_to_bgra(&rgba_to_bgra(&rgba)), rgba);
}
