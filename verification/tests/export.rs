use screenforge::double::Double;
use screenforge::export::{avif_quality, encode, output_size, surface_to_rgba_image, ExportError};
use screenforge::import::{decode_image, decoded_image_from_texture, surface_from_decoded, DecodedImage, SourceFormat};
use screenforge::model::{CanvasSettings, ExportFormat};

fn num(v: f64) -> Double {
    Double::from_bits(v.to_bits())
}

fn canvas(width: u32, height: u32, target: u32) -> CanvasSettings {
    CanvasSettings {
        export_width: width,
        export_height: height,
        export_target_width: target,
        ..CanvasSettings::default()
    }
}

#[test]
fn an_export_is_scaled_to_its_target_width() {
    let size = output_size(&canvas(1000, 500, 1920));
    assert_eq!((size.width, size.height), (1920, 960));
    assert_eq!(size.scale, num(1.92));
    let tiny = output_size(&canvas(1000, 0, 0));
    assert_eq!((tiny.width, tiny.height), (1, 1));
    let odd = output_size(&canvas(0, 3, 2));
    assert_eq!((odd.width, odd.height), (2, 6));
}

#[test]
fn pixels_are_unpremultiplied_and_reordered() {
    // One opaque, one half-transparent and one clear pixel, then padding.
    let data = [10u8, 20, 30, 255, 64, 32, 16, 128, 0, 0, 0, 0, 9, 9, 9, 9];
    let out = surface_to_rgba_image(&data, 3, 1, 16);
    assert_eq!(&out[..4], &[30, 20, 10, 255]);
    assert_eq!(&out[4..8], &[32, 64, 128, 128]);
    assert_eq!(&out[8..], &[0, 0, 0, 0]);
}

fn picture() -> Vec<u8> {
    let mut pixels = Vec::new();
    for i in 0..32u32 * 24 {
        pixels.extend_from_slice(&[(i % 256) as u8, (i / 3 % 256) as u8, 77, 255]);
    }
    pixels
}

#[test]
fn every_encoder_writes_a_file_of_its_format() {
    let pixels = picture();
    let jpeg = encode(&pixels, 32, 24, ExportFormat::Jpeg, 90).unwrap().unwrap();
    assert_eq!(&jpeg[..3], &[0xFF, 0xD8, 0xFF]);
    let webp = encode(&pixels, 32, 24, ExportFormat::WebP, 90).unwrap().unwrap();
    assert_eq!((&webp[..4], &webp[8..12]), (&b"RIFF"[..], &b"WEBP"[..]));
    let avif = encode(&pixels, 32, 24, ExportFormat::Avif, 0).unwrap().unwrap();
    assert_eq!(&avif[..24], &b"\0\0\0\x18ftypavif\0\0\0\0mif1miaf"[..]);
    assert!(encode(&pixels, 32, 24, ExportFormat::Png, 90).unwrap().is_none());
}

#[test]
fn the_quality_decides_the_size_of_a_jpeg() {
    let pixels = picture();
    let rough = encode(&pixels, 32, 24, ExportFormat::Jpeg, 5).unwrap().unwrap();
    let fine = encode(&pixels, 32, 24, ExportFormat::Jpeg, 100).unwrap().unwrap();
    assert!(rough.len() < fine.len());
}

#[test]
fn the_quality_decides_the_size_of_an_avif() {
    let mut pixels = picture();
    pixels[3] = 128;
    let rough = encode(&pixels, 32, 24, ExportFormat::Avif, 5).unwrap().unwrap();
    let fine = encode(&pixels, 32, 24, ExportFormat::Avif, 100).unwrap().unwrap();
    assert!(rough.len() < fine.len());
    assert_eq!(rough[..24], fine[..24]);
}

#[test]
fn a_side_that_the_format_cannot_have_is_an_error() {
    let wide = vec![0u8; 4 * 65536];
    assert!(matches!(encode(&wide, 65536, 1, ExportFormat::Jpeg, 90), Err(ExportError::Encode(_))));
    assert!(matches!(encode(&wide, 65536, 1, ExportFormat::WebP, 90), Err(ExportError::Encode(_))));
    assert!(encode(&wide[..4 * 65535].to_vec(), 65535, 1, ExportFormat::Jpeg, 90).is_ok());
    assert!(encode(&wide[..4 * 16384].to_vec(), 16384, 1, ExportFormat::WebP, 90).is_ok());
}

#[test]
fn source_pixels_are_premultiplied() {
    let with_alpha = SourceFormat { width: 2, height: 1, channels: 4, stride: 8, has_alpha: true };
    let image = decode_image(&[200, 100, 50, 128, 1, 2, 3, 255], with_alpha);
    assert_eq!(image.bytes, vec![25, 50, 100, 128, 3, 2, 1, 255]);
    let plain = SourceFormat { width: 1, height: 2, channels: 3, stride: 4, has_alpha: false };
    let image = decode_image(&[1, 2, 3, 0, 4, 5, 6], plain);
    assert_eq!(image.bytes, vec![3, 2, 1, 255, 6, 5, 4, 255]);
}

#[test]
fn an_opaque_image_survives_import_and_export() {
    let format = SourceFormat { width: 2, height: 2, channels: 4, stride: 8, has_alpha: true };
    let source = [1u8, 2, 3, 255, 40, 50, 60, 255, 7, 8, 9, 255, 100, 110, 120, 255];
    let image = decode_image(&source, format);
    let surface = surface_from_decoded(&image, 12);
    assert_eq!(surface.len(), 24);
    assert_eq!(surface_to_rgba_image(&surface, 2, 2, 12), source.to_vec());
}

#[test]
fn padding_is_taken_out_and_put_back() {
    let bytes = vec![1u8, 2, 3, 4, 0, 0, 5, 6, 7, 8];
    let image = decoded_image_from_texture(&bytes, 1, 2, 6);
    assert_eq!(image, DecodedImage { bytes: vec![1, 2, 3, 4, 5, 6, 7, 8], width: 1, height: 2 });
    assert_eq!(surface_from_decoded(&image, 6), vec![1, 2, 3, 4, 0, 0, 5, 6, 7, 8, 0, 0]);
}

#[test]
fn an_avif_has_a_quality_from_one_to_a_hundred() {
    assert_eq!((avif_quality(0), avif_quality(1), avif_quality(80)), (1, 1, 80));
    assert_eq!((avif_quality(100), avif_quality(101), avif_quality(255)), (100, 100, 100));
}
