use vulkano_template::render::texture::{load_texture, texture_rgba, ColourType, TextureError};

fn encode_png(width: u32, height: u32, colour: png::ColorType, data: &[u8]) -> Vec<u8> {
    let mut bytes = Vec::new();
    {
        let mut encoder = png::Encoder::new(&mut bytes, width, height);
        encoder.set_color(colour);
        encoder.set_depth(png::BitDepth::Eight);
        let mut writer = encoder.write_header().unwrap();
        writer.write_image_data(data).unwrap();
        writer.finish().unwrap();
    }
    bytes
}

#[test]
fn rgb_gains_full_alpha() {
    let rgb = vec![1u8, 2, 3, 4, 5, 6];
    let rgba = texture_rgba(ColourType::Rgb, 2, 1, &rgb);
    assert_eq!(rgba, Some(vec![1, 2, 3, 255, 4, 5, 6, 255]));
}

#[test]
fn rgba_is_kept() {
    let rgba = vec![9u8, 8, 7, 6, 5, 4, 3, 2];
    assert_eq!(texture_rgba(ColourType::Rgba, 1, 2, &rgba), Some(rgba.clone()));
}

#[test]
fn other_colour_types_are_refused() {
    let grey = vec![1u8, 2];
    assert_eq!(texture_rgba(ColourType::Grayscale, 2, 1, &grey), None);
    assert_eq!(texture_rgba(ColourType::GrayscaleAlpha, 1, 1, &grey), None);
    assert_eq!(texture_rgba(ColourType::Indexed, 2, 1, &grey), None);
}

#[test]
fn samples_of_wrong_length_are_refused() {
    // two RGB pixels need six samples; twelve would be 16-bit samples
    assert_eq!(texture_rgba(ColourType::Rgb, 2, 1, &vec![0u8; 12]), None);
    assert_eq!(texture_rgba(ColourType::Rgba, 2, 1, &vec![0u8; 6]), None);
}

#[test]
fn empty_image_converts_to_empty_samples() {
    assert_eq!(texture_rgba(ColourType::Rgb, 0, 5, &Vec::new()), Some(Vec::new()));
}

#[test]
fn colour_codes() {
    assert_eq!(ColourType::from_code(0), Some(ColourType::Grayscale));
    assert_eq!(ColourType::from_code(2), Some(ColourType::Rgb));
    assert_eq!(ColourType::from_code(3), Some(ColourType::Indexed));
    assert_eq!(ColourType::from_code(4), Some(ColourType::GrayscaleAlpha));
    assert_eq!(ColourType::from_code(6), Some(ColourType::Rgba));
    assert_eq!(ColourType::from_code(1), None);
}

#[test]
fn load_rgb_png() {
    let bytes = encode_png(2, 1, png::ColorType::Rgb, &[10, 20, 30, 40, 50, 60]);
    let (w, h, rgba) = load_texture(&bytes).unwrap();
    assert_eq!((w, h), (2, 1));
    assert_eq!(rgba, vec![10, 20, 30, 255, 40, 50, 60, 255]);
}

#[test]
fn load_rgba_png() {
    let data = [1u8, 2, 3, 4, 5, 6, 7, 8, 9, 10, 11, 12, 13, 14, 15, 16];
    let bytes = encode_png(2, 2, png::ColorType::Rgba, &data);
    let (w, h, rgba) = load_texture(&bytes).unwrap();
    assert_eq!((w, h), (2, 2));
    assert_eq!(rgba, data.to_vec());
}

#[test]
fn load_grayscale_png_is_unsupported() {
    let bytes = encode_png(2, 1, png::ColorType::Grayscale, &[0, 255]);
    assert_eq!(load_texture(&bytes), Err(TextureError::Unsupported));
}

#[test]
fn load_garbage_fails_to_decode() {
    assert_eq!(load_texture(&[1, 2, 3, 4]), Err(TextureError::Decoding));
    assert_eq!(load_texture(&[]), Err(TextureError::Decoding));
}
