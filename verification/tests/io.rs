use atlas::io::{check_image, load_image, load_image_grey, save_image, save_image_grey, ColorType, Error, PngInfo};

fn encode(width: u32, height: u32, color: png::ColorType, depth: png::BitDepth, data: &[u8]) -> Vec<u8> {
    let mut out = Vec::new();
    {
        let mut encoder = png::Encoder::new(&mut out, width, height);
        encoder.set_color(color);
        encoder.set_depth(depth);
        if color == png::ColorType::Indexed {
            encoder.set_palette(vec![0u8, 0, 0, 255, 255, 255]);
        }
        let mut writer = encoder.write_header().unwrap();
        writer.write_image_data(data).unwrap();
    }
    out
}

fn info(width: u32, height: u32, color_type: ColorType, bytes_per_pixel: usize) -> PngInfo {
    PngInfo { width, height, color_type, bytes_per_pixel }
}

#[test]
fn check_image_order_of_checks() {
    assert!(check_image(&info(4, 2, ColorType::Rgba, 4), 4, 2, true).is_ok());
    assert!(check_image(&info(4, 2, ColorType::Grayscale, 1), 4, 2, false).is_ok());
    assert!(matches!(
        check_image(&info(3, 2, ColorType::Rgb, 3), 4, 2, true),
        Err(Error::ResolutionMismatch(3, 2, 4, 2))
    ));
    assert!(matches!(check_image(&info(4, 2, ColorType::Rgb, 3), 4, 2, true), Err(Error::InvalidBytePerPixel(3))));
    assert!(matches!(
        check_image(&info(4, 2, ColorType::Rgba, 4), 4, 2, false),
        Err(Error::InvalidBytePerPixelGrey(4))
    ));
    assert!(matches!(
        check_image(&info(4, 2, ColorType::GrayscaleAlpha, 4), 4, 2, true),
        Err(Error::InvalidColorTypeRgba(ColorType::GrayscaleAlpha))
    ));
    assert!(matches!(
        check_image(&info(4, 2, ColorType::Indexed, 1), 4, 2, false),
        Err(Error::InvalidColorTypeGrey(ColorType::Indexed))
    ));
}

#[test]
fn load_rgba_layer() {
    let pixels: Vec<u8> = (0..16).collect();
    let bytes = encode(2, 2, png::ColorType::Rgba, png::BitDepth::Eight, &pixels);
    let data = load_image(&bytes, 2, 2).unwrap();
    assert_eq!(data, pixels);
}

#[test]
fn rgba_layer_holds_four_bytes_per_pixel() {
    let pixels = vec![7u8; 3 * 5 * 4];
    let bytes = encode(3, 5, png::ColorType::Rgba, png::BitDepth::Eight, &pixels);
    assert_eq!(load_image(&bytes, 3, 5).unwrap().len(), 60);
}

#[test]
fn load_grey_layer() {
    let pixels = [0u8, 50, 100, 150, 200, 250];
    let bytes = encode(3, 2, png::ColorType::Grayscale, png::BitDepth::Eight, &pixels);
    let data = load_image_grey(&bytes, 3, 2).unwrap();
    assert_eq!(data, pixels.to_vec());
}

#[test]
fn load_image_errors() {
    let rgba = encode(2, 2, png::ColorType::Rgba, png::BitDepth::Eight, &[7u8; 16]);
    assert!(matches!(load_image(&rgba, 2, 3), Err(Error::ResolutionMismatch(2, 2, 2, 3))));
    assert!(matches!(load_image_grey(&rgba, 2, 2), Err(Error::InvalidBytePerPixelGrey(4))));
    let rgb = encode(2, 2, png::ColorType::Rgb, png::BitDepth::Eight, &[7u8; 12]);
    assert!(matches!(load_image(&rgb, 2, 2), Err(Error::InvalidBytePerPixel(3))));
    let grey_alpha = encode(2, 2, png::ColorType::GrayscaleAlpha, png::BitDepth::Sixteen, &[7u8; 16]);
    assert!(matches!(
        load_image(&grey_alpha, 2, 2),
        Err(Error::InvalidColorTypeRgba(ColorType::GrayscaleAlpha))
    ));
    let indexed = encode(2, 2, png::ColorType::Indexed, png::BitDepth::Eight, &[0u8, 1, 1, 0]);
    assert!(matches!(load_image_grey(&indexed, 2, 2), Err(Error::InvalidColorTypeGrey(ColorType::Indexed))));
    let grey = encode(2, 2, png::ColorType::Grayscale, png::BitDepth::Eight, &[1u8, 2, 3, 4]);
    assert!(matches!(load_image(&grey, 2, 2), Err(Error::InvalidBytePerPixel(1))));
}

#[test]
fn load_image_rejects_bytes_that_are_not_png() {
    assert!(matches!(load_image(b"not an image", 1, 1), Err(Error::PngDecode(_))));
    assert!(matches!(load_image_grey(&[], 1, 1), Err(Error::PngDecode(_))));
    // A cut-off image decodes its header but not its frame.
    let bytes = encode(2, 2, png::ColorType::Rgba, png::BitDepth::Eight, &[7u8; 16]);
    let cut = &bytes[..bytes.len() - 20];
    assert!(matches!(load_image(cut, 2, 2), Err(Error::PngDecode(_))));
}

#[test]
fn saved_layers_load_back() {
    let pixels: Vec<u8> = (0..16).map(|x| x * 7).collect();
    let bytes = save_image(&pixels, 2, 2).unwrap();
    assert_eq!(load_image(&bytes, 2, 2).unwrap(), pixels);
    let grey = [3u8, 1, 4, 1, 5, 9];
    let bytes = save_image_grey(&grey, 3, 2).unwrap();
    assert_eq!(load_image_grey(&bytes, 3, 2).unwrap(), grey.to_vec());
}

#[test]
fn saved_layers_are_the_encoders_bytes() {
    let pixels = [10u8, 20, 30, 255];
    let mut expected = Vec::new();
    {
        let mut encoder = png::Encoder::new(&mut expected, 1, 1);
        encoder.set_color(png::ColorType::Rgba);
        encoder.set_depth(png::BitDepth::Eight);
        encoder.set_srgb(png::SrgbRenderingIntent::AbsoluteColorimetric);
        let mut writer = encoder.write_header().unwrap();
        writer.write_image_data(&pixels).unwrap();
    }
    assert_eq!(save_image(&pixels, 1, 1).unwrap(), expected);
}

#[test]
fn save_refuses_data_of_the_wrong_length() {
    assert!(matches!(save_image(&[0u8; 15], 2, 2), Err(Error::PngEncode(_))));
    assert!(matches!(save_image_grey(&[0u8; 5], 3, 2), Err(Error::PngEncode(_))));
}
