//! Title lookup, boot textures and the loader.

use std::io::Cursor;

use image::{ImageBuffer, Rgba};
use wiivci_core::assets::gametdb::{lookup_title, parse_wiitdb};
use wiivci_core::assets::images::{encode_tga, png_to_tga, BootTexture};
use wiivci_core::assets::nintendont::{accept_loader, MIN_LOADER_BYTES};

const SAMPLE: &str = "\
# comment line
AGSE01 = Donkey Kong Country Returns
RSPE01 = Rhythm Heaven Fever
SOUP01 = Super Mario Galaxy 2
";

const TGA_FOOTER_SIGNATURE: &[u8; 18] = b"TRUEVISION-XFILE.\0";

#[test]
fn finds_exact_match() {
    assert_eq!(
        parse_wiitdb(SAMPLE, "RSPE01"),
        Some("Rhythm Heaven Fever".to_string())
    );
}

#[test]
fn matches_case_insensitively() {
    assert_eq!(
        parse_wiitdb(SAMPLE, "rspe01"),
        Some("Rhythm Heaven Fever".to_string())
    );
}

#[test]
fn returns_none_when_missing() {
    assert_eq!(parse_wiitdb(SAMPLE, "ZZZZ99"), None);
}

#[test]
fn skips_comments_and_blank_lines() {
    assert_eq!(
        parse_wiitdb(SAMPLE, "SOUP01"),
        Some("Super Mario Galaxy 2".to_string())
    );
}

#[test]
fn a_title_is_trimmed_and_may_hold_equals_signs() {
    let text = "  RSPE01=  a = b  \r\nnothing here\n#RSPF01 = hidden\n";
    assert_eq!(parse_wiitdb(text, "RSPE01"), Some("a = b".to_string()));
    assert_eq!(parse_wiitdb(text, "RSPF01"), None);
    assert_eq!(parse_wiitdb("", "RSPE01"), None);
}

#[test]
fn a_lookup_without_a_database_finds_nothing() {
    assert_eq!(
        lookup_title(Some(SAMPLE), "SOUP01").unwrap(),
        Some("Super Mario Galaxy 2".to_string())
    );
    assert_eq!(lookup_title(Some(SAMPLE), "ZZZZ99").unwrap(), None);
    assert_eq!(lookup_title(None, "SOUP01").unwrap(), None);
}

fn solid_red_png() -> Vec<u8> {
    let img: ImageBuffer<Rgba<u8>, Vec<u8>> = ImageBuffer::from_pixel(4, 4, Rgba([255, 0, 0, 255]));
    let mut bytes = Vec::new();
    img.write_to(&mut Cursor::new(&mut bytes), image::ImageFormat::Png)
        .expect("encode png");
    bytes
}

fn assert_header(data: &[u8], tex: BootTexture) {
    let (w, h) = tex.dims();
    let bpp = tex.bpp();
    assert_eq!(data[0], 0, "id length");
    assert_eq!(data[1], 0, "color map type");
    assert_eq!(data[2], 2, "image type");
    assert_eq!(&data[3..8], &[0u8; 5], "color map spec");
    assert_eq!(u16::from_le_bytes([data[8], data[9]]), 0, "x origin");
    assert_eq!(u16::from_le_bytes([data[10], data[11]]), 0, "y origin");
    assert_eq!(u16::from_le_bytes([data[12], data[13]]), w as u16, "width");
    assert_eq!(u16::from_le_bytes([data[14], data[15]]), h as u16, "height");
    assert_eq!(data[16], bpp, "bpp");
    let expected_desc = if bpp == 32 { 0x08 } else { 0x00 };
    assert_eq!(data[17], expected_desc, "image descriptor");

    let expected_len = 18 + (w as usize * h as usize * (bpp as usize / 8)) + 26;
    assert_eq!(data.len(), expected_len, "total length");

    let footer = &data[data.len() - 18..];
    assert_eq!(footer, TGA_FOOTER_SIGNATURE, "footer signature");
}

#[test]
fn icon_texture_matches_format() {
    let png = solid_red_png();
    let tga = png_to_tga(&png, BootTexture::Icon).expect("convert");
    assert_header(&tga, BootTexture::Icon);
    // Solid red -> BGRA = 00 00 FF FF for every pixel, including the first.
    assert_eq!(&tga[18..22], &[0x00, 0x00, 0xFF, 0xFF]);
}

#[test]
fn boot_tv_texture_matches_format() {
    let png = solid_red_png();
    let tga = png_to_tga(&png, BootTexture::BootTv).expect("convert");
    assert_header(&tga, BootTexture::BootTv);
    assert_eq!(&tga[18..21], &[0x00, 0x00, 0xFF]);
}

#[test]
fn boot_drc_texture_matches_format() {
    let png = solid_red_png();
    let tga = png_to_tga(&png, BootTexture::BootDrc).expect("convert");
    assert_header(&tga, BootTexture::BootDrc);
    assert_eq!(&tga[18..21], &[0x00, 0x00, 0xFF]);
}

#[test]
fn boot_logo_texture_matches_format() {
    let png = solid_red_png();
    let tga = png_to_tga(&png, BootTexture::BootLogo).expect("convert");
    assert_header(&tga, BootTexture::BootLogo);
    assert_eq!(&tga[18..22], &[0x00, 0x00, 0xFF, 0xFF]);
}

#[test]
fn filenames_match_console_expectations() {
    assert_eq!(BootTexture::Icon.filename(), "iconTex.tga");
    assert_eq!(BootTexture::BootTv.filename(), "bootTvTex.tga");
    assert_eq!(BootTexture::BootDrc.filename(), "bootDrcTex.tga");
    assert_eq!(BootTexture::BootLogo.filename(), "bootLogoTex.tga");
}

#[test]
fn rows_are_written_bottom_up() {
    let (w, h) = BootTexture::BootLogo.dims();
    let mut rgba = vec![0u8; (w * h * 4) as usize];
    // The first pixel of the last row, which comes first in the file.
    let at = ((h - 1) * w * 4) as usize;
    rgba[at..at + 4].copy_from_slice(&[1, 2, 3, 4]);
    let tga = encode_tga(&rgba, BootTexture::BootLogo);
    assert_header(&tga, BootTexture::BootLogo);
    assert_eq!(&tga[18..22], &[3, 2, 1, 4]);
    assert!(tga[22..tga.len() - 26].iter().all(|&b| b == 0));
}

#[test]
fn a_picture_of_the_right_size_is_not_scaled() {
    let (w, h) = BootTexture::Icon.dims();
    let img: ImageBuffer<Rgba<u8>, Vec<u8>> =
        ImageBuffer::from_fn(w, h, |x, y| Rgba([x as u8, y as u8, 7, 200]));
    let mut png = Vec::new();
    img.write_to(&mut Cursor::new(&mut png), image::ImageFormat::Png)
        .expect("encode png");
    let tga = png_to_tga(&png, BootTexture::Icon).unwrap();
    assert_eq!(tga, encode_tga(img.as_raw(), BootTexture::Icon));
}

#[test]
fn what_is_no_picture_is_refused() {
    let err = png_to_tga(b"not a png", BootTexture::Icon).unwrap_err();
    assert!(err.message().contains("failed to decode PNG"), "{}", err.message());
}

#[test]
fn a_short_loader_is_refused() {
    let loader = vec![0u8; MIN_LOADER_BYTES];
    assert_eq!(accept_loader("u", loader.clone()).unwrap(), loader);
    assert!(accept_loader("u", vec![0u8; MIN_LOADER_BYTES - 1]).is_err());
}
