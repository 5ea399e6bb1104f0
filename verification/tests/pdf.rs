use base64::Engine;
use pdf_printer::pdf::{pdf_info, preview_data_url};

#[test]
fn info_of_a_document() {
    let info = pdf_info("C:/docs/a.pdf", 1536, 12);
    assert_eq!(info.path, "C:/docs/a.pdf");
    assert_eq!(info.size, "1.5 KB");
    assert_eq!(info.size_bytes, 1536);
    assert_eq!(info.pages, 12);
    assert_eq!(pdf_info("x", 0, -1).pages, u32::MAX);
}

#[test]
fn preview_is_a_png_data_url() {
    let rgba = vec![255, 0, 0, 255, 0, 255, 0, 128];
    let url = preview_data_url(2, 1, rgba.clone()).unwrap();
    let prefix = "data:image/png;base64,";
    assert!(url.starts_with(prefix));
    let png = base64::engine::general_purpose::STANDARD.decode(&url[prefix.len()..]).unwrap();
    assert_eq!(&png[..8], &[0x89, b'P', b'N', b'G', 0x0d, 0x0a, 0x1a, 0x0a]);
    let decoded = image::load_from_memory(&png).unwrap().to_rgba8();
    assert_eq!(decoded.dimensions(), (2, 1));
    assert_eq!(decoded.into_raw(), rgba);
}

#[test]
fn preview_of_empty_image_fails_with_encode_error() {
    assert_eq!(preview_data_url(0, 0, vec![]), Err("encode: Zero width not allowed".to_string()));
    assert_eq!(preview_data_url(0, 3, vec![]), Err("encode: Zero width not allowed".to_string()));
    assert_eq!(preview_data_url(2, 0, vec![]), Err("encode: Zero height not allowed".to_string()));
}

#[test]
fn preview_of_one_pixel_keeps_the_pixel() {
    let url = preview_data_url(1, 1, vec![1, 2, 3, 4]).unwrap();
    let png = base64::engine::general_purpose::STANDARD.decode(&url["data:image/png;base64,".len()..]).unwrap();
    let decoded = image::load_from_memory(&png).unwrap().to_rgba8();
    assert_eq!(decoded.into_raw(), vec![1, 2, 3, 4]);
}
