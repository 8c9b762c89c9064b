//! Image layers: decoding PNG data and checking that it fits the world, and
//! the errors of reading and writing configuration and layer files.
use vstd::prelude::*;
use png::{BitDepth, Decoder, DecodingError, Encoder, EncodingError, SrgbRenderingIntent};
use toml::de::Error as TomlDeError;
use toml::ser::Error as TomlSerError;

verus! {

#[verifier::external_type_specification]
#[verifier::external_body]
pub struct ExIoError(std::io::Error);

#[verifier::external_type_specification]
#[verifier::external_body]
pub struct ExTomlDeError(TomlDeError);

#[verifier::external_type_specification]
#[verifier::external_body]
pub struct ExTomlSerError(TomlSerError);

#[verifier::external_type_specification]
#[verifier::external_body]
pub struct ExDecodingError(DecodingError);

#[verifier::external_type_specification]
#[verifier::external_body]
pub struct ExEncodingError(EncodingError);

/// How the colours of a PNG image are stored.
#[derive(Clone, Copy, Debug, PartialEq, Eq)]
pub enum ColorType {
    /// One grey sample.
    Grayscale,
    /// Red, green and blue samples.
    Rgb,
    /// One palette index.
    Indexed,
    /// A grey and an alpha sample.
    GrayscaleAlpha,
    /// Red, green, blue and alpha samples.
    Rgba,
}

/// What the header of a PNG image says of it.
#[derive(Clone, Copy, Debug, PartialEq, Eq)]
pub struct PngInfo {
    pub width: u32,
    pub height: u32,
    pub color_type: ColorType,
    pub bytes_per_pixel: usize,
}

/// Errors of loading and saving configuration and layer files.
#[derive(Debug)]
pub enum Error {
    Io(std::io::Error),
    Deser(TomlDeError),
    Serde(TomlSerError),
    PngDecode(DecodingError),
    PngEncode(EncodingError),
    /// Image width and height, then world width and height.
    ResolutionMismatch(u32, u32, u32, u32),
    /// Bytes per pixel of an image that should be RGBA.
    InvalidBytePerPixel(usize),
    /// Bytes per pixel of an image that should be greyscale.
    InvalidBytePerPixelGrey(usize),
    InvalidColorTypeGrey(ColorType),
    InvalidColorTypeRgba(ColorType),
}

/// The header of the PNG image encoded by `data`, if it can be read.
pub uninterp spec fn png_header(data: Seq<u8>) -> Option<PngInfo>;

/// The pixel data of the first frame of the PNG image encoded by `data`, if
/// it can be decoded.
pub uninterp spec fn png_frame(data: Seq<u8>) -> Option<Seq<u8>>;

/// Reads the header of a PNG image.
///
/// Calls `png::Decoder::new` and `read_info` on the bytes, and reports the
/// size, colour type and `Info::bytes_per_pixel` of the image. The claim is
/// that the outcome depends on the bytes alone.
#[verifier::external_body]
fn read_png_info(data: &[u8]) -> (r: Result<PngInfo, DecodingError>)
    ensures
        r is Ok <==> png_header(data@) is Some,
        r matches Ok(info) ==> png_header(data@) == Some(info),
{
    let reader = Decoder::new(data).read_info()?;
    let info = reader.info();
    let color_type = match info.color_type {
        png::ColorType::Grayscale => ColorType::Grayscale,
        png::ColorType::Rgb => ColorType::Rgb,
        png::ColorType::Indexed => ColorType::Indexed,
        png::ColorType::GrayscaleAlpha => ColorType::GrayscaleAlpha,
        png::ColorType::Rgba => ColorType::Rgba,
    };
    Ok(PngInfo { width: info.width, height: info.height, color_type, bytes_per_pixel: info.bytes_per_pixel() })
}

/// Decodes the first frame of a PNG image.
///
/// Calls `png::Decoder::new`, `read_info` and `Reader::next_frame` into a
/// buffer of `Reader::output_buffer_size` bytes. The claim is that the
/// outcome depends on the bytes alone, and that for an RGBA image of 4
/// bytes per pixel (8 bits per sample, decoded without transformations)
/// the buffer holds 4 bytes for each pixel of the image. Of other images
/// (such as greyscale of fewer bits per sample) the length is not stated.
#[verifier::external_body]
fn decode_png_frame(data: &[u8]) -> (r: Result<Vec<u8>, DecodingError>)
    ensures
        r is Ok <==> png_frame(data@) is Some,
        r matches Ok(buf) ==> png_frame(data@) == Some(buf@),
        r matches Ok(buf) ==> (png_header(data@) matches Some(info) ==> (info.color_type == ColorType::Rgba
            && info.bytes_per_pixel == 4 ==> buf@.len() == info.width * info.height * 4)),
{
    let mut reader = Decoder::new(data).read_info()?;
    let mut buf = vec![0; reader.output_buffer_size()];
    reader.next_frame(&mut buf)?;
    Ok(buf)
}

/// The outcome of validating an image header against the world size and the
/// pixel format a layer needs: `rgba` for colour layers, greyscale
/// otherwise.
pub open spec fn spec_check_image(info: PngInfo, width: u32, height: u32, rgba: bool) -> Result<(), Error> {
    if info.width != width || info.height != height {
        Err(Error::ResolutionMismatch(info.width, info.height, width, height))
    } else if rgba && info.bytes_per_pixel != 4 {
        Err(Error::InvalidBytePerPixel(info.bytes_per_pixel))
    } else if !rgba && info.bytes_per_pixel != 1 {
        Err(Error::InvalidBytePerPixelGrey(info.bytes_per_pixel))
    } else if rgba && info.color_type != ColorType::Rgba {
        Err(Error::InvalidColorTypeRgba(info.color_type))
    } else if !rgba && info.color_type != ColorType::Grayscale {
        Err(Error::InvalidColorTypeGrey(info.color_type))
    } else {
        Ok(())
    }
}

/// The header describes a layer of the world: `width` by `height` pixels of
/// 4 bytes, RGBA (for `rgba`), or of 1 byte, greyscale.
pub open spec fn header_fits(info: PngInfo, width: u32, height: u32, rgba: bool) -> bool {
    &&& info.width == width
    &&& info.height == height
    &&& info.bytes_per_pixel == (if rgba { 4usize } else { 1usize })
    &&& info.color_type == (if rgba { ColorType::Rgba } else { ColorType::Grayscale })
}

/// An image header passes the checks exactly when it describes a layer of
/// the world, and one of another size is refused for its resolution, with
/// both sizes.
pub proof fn law_check_image_accepts_only_fitting_headers(info: PngInfo, width: u32, height: u32, rgba: bool)
    ensures
        spec_check_image(info, width, height, rgba) is Ok <==> {
            &&& info.width == width
            &&& info.height == height
            &&& info.bytes_per_pixel == (if rgba { 4usize } else { 1usize })
            &&& info.color_type == (if rgba { ColorType::Rgba } else { ColorType::Grayscale })
        },
        info.width != width || info.height != height ==> spec_check_image(info, width, height, rgba)
            == Err::<(), Error>(Error::ResolutionMismatch(info.width, info.height, width, height)),
{
}

/// Check an image header against the world size: its resolution first, then
/// its bytes per pixel (4 for `rgba`, else 1), then its colour type (RGBA
/// for `rgba`, else greyscale).
pub fn check_image(info: &PngInfo, width: u32, height: u32, rgba: bool) -> (r: Result<(), Error>)
    ensures
        r == spec_check_image(*info, width, height, rgba),
        r is Ok <==> header_fits(*info, width, height, rgba),
        info.width != width || info.height != height ==> r == Err::<(), Error>(
            Error::ResolutionMismatch(info.width, info.height, width, height),
        ),
{
    if info.width != width || info.height != height {
        return Err(Error::ResolutionMismatch(info.width, info.height, width, height));
    }
    let expected: usize = if rgba { 4 } else { 1 };
    if info.bytes_per_pixel != expected {
        return if rgba {
            Err(Error::InvalidBytePerPixel(info.bytes_per_pixel))
        } else {
            Err(Error::InvalidBytePerPixelGrey(info.bytes_per_pixel))
        };
    }
    match (rgba, info.color_type) {
        (true, ColorType::Rgba) => Ok(()),
        (false, ColorType::Grayscale) => Ok(()),
        (true, x) => Err(Error::InvalidColorTypeRgba(x)),
        (false, x) => Err(Error::InvalidColorTypeGrey(x)),
    }
}

/// Decode `data` as a layer image, with the header checks of `check_image`.
fn load_image_checked(data: &[u8], width: u32, height: u32, rgba: bool) -> (r: Result<Vec<u8>, Error>)
    ensures
        rgba ==> (r matches Ok(v) ==> v@.len() == width * height * 4),
        png_header(data@) is None ==> r matches Err(Error::PngDecode(_)),
        png_header(data@) matches Some(info) ==> match spec_check_image(info, width, height, rgba) {
            Err(e) => r == Err::<Vec<u8>, Error>(e),
            Ok(_) => match png_frame(data@) {
                None => r matches Err(Error::PngDecode(_)),
                Some(buf) => r matches Ok(v) && v@ == buf,
            },
        },
{
    let info = match read_png_info(data) {
        Ok(info) => info,
        Err(e) => return Err(Error::PngDecode(e)),
    };
    if let Err(e) = check_image(&info, width, height, rgba) {
        return Err(e);
    }
    match decode_png_frame(data) {
        Ok(buf) => Ok(buf),
        Err(e) => Err(Error::PngDecode(e)),
    }
}

/// Load a colour layer from PNG `data`: the image must be `width` by
/// `height` RGBA pixels of one byte per sample, and the result holds 4
/// bytes for each of them.
pub fn load_image(data: &[u8], width: u32, height: u32) -> (r: Result<Vec<u8>, Error>)
    ensures
        r is Ok ==> (png_header(data@) matches Some(info) && header_fits(info, width, height, true)),
        png_header(data@) matches Some(info) ==> (info.width != width || info.height != height ==> r
            == Err::<Vec<u8>, Error>(Error::ResolutionMismatch(info.width, info.height, width, height))),
        r matches Ok(v) ==> v@.len() == width * height * 4,
        png_header(data@) is None ==> r matches Err(Error::PngDecode(_)),
        png_header(data@) matches Some(info) ==> match spec_check_image(info, width, height, true) {
            Err(e) => r == Err::<Vec<u8>, Error>(e),
            Ok(_) => match png_frame(data@) {
                None => r matches Err(Error::PngDecode(_)),
                Some(buf) => r matches Ok(v) && v@ == buf,
            },
        },
{
    load_image_checked(data, width, height, true)
}

/// Load a data layer from greyscale PNG `data`: the image must be `width`
/// by `height` pixels of one byte.
pub fn load_image_grey(data: &[u8], width: u32, height: u32) -> (r: Result<Vec<u8>, Error>)
    ensures
        r is Ok ==> (png_header(data@) matches Some(info) && header_fits(info, width, height, false)),
        png_header(data@) matches Some(info) ==> (info.width != width || info.height != height ==> r
            == Err::<Vec<u8>, Error>(Error::ResolutionMismatch(info.width, info.height, width, height))),
        png_header(data@) is None ==> r matches Err(Error::PngDecode(_)),
        png_header(data@) matches Some(info) ==> match spec_check_image(info, width, height, false) {
            Err(e) => r == Err::<Vec<u8>, Error>(e),
            Ok(_) => match png_frame(data@) {
                None => r matches Err(Error::PngDecode(_)),
                Some(buf) => r matches Ok(v) && v@ == buf,
            },
        },
{
    load_image_checked(data, width, height, false)
}


/// The PNG file that encodes `data` as a `width` by `height` RGBA image of
/// 8 bits per sample (marked sRGB, absolute colorimetric), if it can be
/// encoded.
pub uninterp spec fn png_encoded_rgba(data: Seq<u8>, width: u32, height: u32) -> Option<Seq<u8>>;

/// The PNG file that encodes `data` as a `width` by `height` greyscale image
/// of 8 bits per sample, if it can be encoded.
pub uninterp spec fn png_encoded_grey(data: Seq<u8>, width: u32, height: u32) -> Option<Seq<u8>>;

/// Encodes an RGBA image as PNG bytes.
///
/// Calls `png::Encoder::new` on a `Vec`, with colour type RGBA, bit depth 8
/// and the sRGB chunk (absolute colorimetric), then `write_header`,
/// `Writer::write_image_data` and `Writer::finish`. The claim is that the
/// outcome depends on the arguments alone, and that `write_image_data`
/// refuses data that is not 4 bytes for each pixel.
#[verifier::external_body]
fn encode_png_rgba(data: &[u8], width: u32, height: u32) -> (r: Result<Vec<u8>, EncodingError>)
    requires
        width * height * 4 <= usize::MAX,
    ensures
        r is Ok <==> png_encoded_rgba(data@, width, height) is Some,
        r matches Ok(v) ==> png_encoded_rgba(data@, width, height) == Some(v@),
        r is Ok ==> data@.len() == width * height * 4,
{
    let mut out: Vec<u8> = Vec::new();
    let mut encoder = Encoder::new(&mut out, width, height);
    encoder.set_color(png::ColorType::Rgba);
    encoder.set_depth(BitDepth::Eight);
    encoder.set_srgb(SrgbRenderingIntent::AbsoluteColorimetric);
    let mut writer = encoder.write_header()?;
    writer.write_image_data(data)?;
    writer.finish()?;
    Ok(out)
}

/// Encodes a greyscale image as PNG bytes.
///
/// Calls `png::Encoder::new` on a `Vec`, with colour type greyscale and bit
/// depth 8, then `write_header`, `Writer::write_image_data` and
/// `Writer::finish`. The claim is that the outcome depends on the arguments
/// alone, and that `write_image_data` refuses data that is not one byte for
/// each pixel.
#[verifier::external_body]
fn encode_png_grey(data: &[u8], width: u32, height: u32) -> (r: Result<Vec<u8>, EncodingError>)
    requires
        width * height <= usize::MAX,
    ensures
        r is Ok <==> png_encoded_grey(data@, width, height) is Some,
        r matches Ok(v) ==> png_encoded_grey(data@, width, height) == Some(v@),
        r is Ok ==> data@.len() == width * height,
{
    let mut out: Vec<u8> = Vec::new();
    let mut encoder = Encoder::new(&mut out, width, height);
    encoder.set_color(png::ColorType::Grayscale);
    encoder.set_depth(BitDepth::Eight);
    let mut writer = encoder.write_header()?;
    writer.write_image_data(data)?;
    writer.finish()?;
    Ok(out)
}

/// Encode a colour layer of `width` by `height` RGBA pixels (one byte per
/// sample) as the bytes of a PNG file.
pub fn save_image(data: &[u8], width: u32, height: u32) -> (r: Result<Vec<u8>, Error>)
    requires
        width * height * 4 <= usize::MAX,
    ensures
        r matches Ok(v) ==> png_encoded_rgba(data@, width, height) == Some(v@),
        png_encoded_rgba(data@, width, height) is None ==> r matches Err(Error::PngEncode(_)),
        r is Ok ==> data@.len() == width * height * 4,
{
    match encode_png_rgba(data, width, height) {
        Ok(bytes) => Ok(bytes),
        Err(e) => Err(Error::PngEncode(e)),
    }
}

/// Encode a data layer of `width` by `height` one-byte pixels as the bytes
/// of a greyscale PNG file.
pub fn save_image_grey(data: &[u8], width: u32, height: u32) -> (r: Result<Vec<u8>, Error>)
    requires
        width * height <= usize::MAX,
    ensures
        r matches Ok(v) ==> png_encoded_grey(data@, width, height) == Some(v@),
        png_encoded_grey(data@, width, height) is None ==> r matches Err(Error::PngEncode(_)),
        r is Ok ==> data@.len() == width * height,
{
    match encode_png_grey(data, width, height) {
        Ok(bytes) => Ok(bytes),
        Err(e) => Err(Error::PngEncode(e)),
    }
}

} // verus!
