use vstd::prelude::*;

verus! {

/// Colour types of a PNG image.
#[derive(PartialEq, Eq, Clone, Copy, Debug, Structural)]
pub enum ColourType {
    Grayscale,
    Rgb,
    Indexed,
    GrayscaleAlpha,
    Rgba,
}

/// Why a texture could not be loaded.
#[derive(PartialEq, Eq, Clone, Copy, Debug, Structural)]
pub enum TextureError {
    /// The bytes are not a PNG image that the decoder can read.
    Decoding,
    /// The image is neither 8-bit RGB nor 8-bit RGBA.
    Unsupported,
    /// The RGBA pixels would not fit in memory.
    TooLarge,
}

/// The colour type that a PNG header gives by its code.
pub open spec fn colour_of_code(code: u8) -> Option<ColourType> {
    if code == 0 {
        Some(ColourType::Grayscale)
    } else if code == 2 {
        Some(ColourType::Rgb)
    } else if code == 3 {
        Some(ColourType::Indexed)
    } else if code == 4 {
        Some(ColourType::GrayscaleAlpha)
    } else if code == 6 {
        Some(ColourType::Rgba)
    } else {
        None
    }
}

impl ColourType {
    /// The colour type with the given PNG code, if there is one.
    pub fn from_code(code: u8) -> (r: Option<ColourType>)
        ensures
            r == colour_of_code(code),
    {
        if code == 0 {
            Some(ColourType::Grayscale)
        } else if code == 2 {
            Some(ColourType::Rgb)
        } else if code == 3 {
            Some(ColourType::Indexed)
        } else if code == 4 {
            Some(ColourType::GrayscaleAlpha)
        } else if code == 6 {
            Some(ColourType::Rgba)
        } else {
            None
        }
    }
}

/// Pixel `i` of `rgba` holds the three samples of pixel `i` of `rgb`, then a full alpha.
pub open spec fn rgb_pixel_copied(rgb: Seq<u8>, rgba: Seq<u8>, i: int) -> bool {
    &&& rgba[4 * i] == rgb[3 * i]
    &&& rgba[4 * i + 1] == rgb[3 * i + 1]
    &&& rgba[4 * i + 2] == rgb[3 * i + 2]
    &&& rgba[4 * i + 3] == 255
}

/// A `width` by `height` image of the given colour type, with these samples, can be turned
/// into RGBA: it is 8-bit RGB or 8-bit RGBA.
pub open spec fn converts_to_rgba(colour: ColourType, width: u32, height: u32, pixels: Seq<u8>) -> bool {
    let n = width * height;
    match colour {
        ColourType::Rgb => pixels.len() == 3 * n,
        ColourType::Rgba => pixels.len() == 4 * n,
        _ => false,
    }
}

/// `rgba` is the image in RGBA: RGB pixels gain an alpha of 255, RGBA pixels stay as they are.
pub open spec fn is_rgba_of(
    colour: ColourType,
    width: u32,
    height: u32,
    pixels: Seq<u8>,
    rgba: Seq<u8>,
) -> bool {
    let n = width * height;
    match colour {
        ColourType::Rgb => {
            &&& rgba.len() == 4 * n
            &&& forall|i: int| 0 <= i < n ==> #[trigger] rgb_pixel_copied(pixels, rgba, i)
        },
        ColourType::Rgba => rgba == pixels,
        _ => false,
    }
}

/// The pixel count of a `width` by `height` image fits in 64 bits, and scaling it by a
/// number of samples scales the product.
proof fn lemma_pixel_count(width: u32, height: u32)
    ensures
        0 <= width * height <= u32::MAX * u32::MAX,
        3 * width * height == 3 * (width * height),
        4 * width * height == 4 * (width * height),
{
    assert(0 <= width * height <= u32::MAX * u32::MAX) by (nonlinear_arith);
    assert(3 * width * height == 3 * (width * height)) by (nonlinear_arith);
    assert(4 * width * height == 4 * (width * height)) by (nonlinear_arith);
}

/// What decoding these bytes as a PNG image gives: width, height, colour type code and
/// the samples of the image, or `None` when the decoder refuses them.
pub uninterp spec fn png_decoding(bytes: Seq<u8>) -> Option<(u32, u32, u8, Seq<u8>)>;

/// Decodes a PNG image held in memory with png's `Decoder::new`, `Reader::read_info` and
/// `Reader::next_frame`, with the decoder's default settings, into a buffer of the size that
/// `Reader::output_buffer_size` gives (`read_info` refuses images whose buffer size would
/// overflow). The result depends on the bytes alone and is named `png_decoding`; what it is
/// on given bytes is not stated. Allocating that buffer aborts the process when memory runs
/// out, which no contract here can exclude.
#[verifier::external_body]
fn decode_png(bytes: &[u8]) -> (r: Result<(u32, u32, u8, Vec<u8>), TextureError>)
    ensures
        png_decoding(bytes@) == match r {
            Ok(d) => Some((d.0, d.1, d.2, d.3@)),
            Err(_) => None::<(u32, u32, u8, Seq<u8>)>,
        },
        r matches Err(e) ==> e == TextureError::Decoding,
{
    let mut reader = match png::Decoder::new(bytes).read_info() {
        Ok(reader) => reader,
        Err(_) => return Err(TextureError::Decoding),
    };
    let mut pixels = vec![0u8; reader.output_buffer_size()];
    match reader.next_frame(&mut pixels) {
        Ok(out) => Ok((out.width, out.height, out.color_type as u8, pixels)),
        Err(_) => Err(TextureError::Decoding),
    }
}

/// Turns the samples of a decoded image into RGBA: an RGB image gains an alpha of 255 on
/// every pixel, an RGBA image is kept; any other colour type, or samples of another length
/// than the size asks, give `None`.
pub fn texture_rgba(colour: ColourType, width: u32, height: u32, pixels: &Vec<u8>) -> (r: Option<
    Vec<u8>,
>)
    requires
        4 * width * height <= usize::MAX,
    ensures
        r is Some <==> converts_to_rgba(colour, width, height, pixels@),
        r matches Some(v) ==> is_rgba_of(colour, width, height, pixels@, v@),
{
    proof {
        lemma_pixel_count(width, height);
    }
    let n: usize = (width as usize) * (height as usize);
    match colour {
        ColourType::Rgb => {
            if pixels.len() != 3 * n {
                return None;
            }
            let mut rgba: Vec<u8> = Vec::with_capacity(4 * n);
            let mut i: usize = 0;
            while i < n
                invariant
                    n == width * height,
                    4 * n <= usize::MAX,
                    pixels@.len() == 3 * n,
                    i <= n,
                    rgba@.len() == 4 * i,
                    forall|j: int| 0 <= j < i ==> #[trigger] rgb_pixel_copied(pixels@, rgba@, j),
                decreases n - i,
            {
                let ghost before = rgba@;
                rgba.push(pixels[3 * i]);
                rgba.push(pixels[3 * i + 1]);
                rgba.push(pixels[3 * i + 2]);
                rgba.push(255u8);
                assert forall|j: int| 0 <= j < i + 1 implies #[trigger] rgb_pixel_copied(
                    pixels@,
                    rgba@,
                    j,
                ) by {
                    if j < i {
                        assert(rgb_pixel_copied(pixels@, before, j));
                    }
                }
                i = i + 1;
            }
            Some(rgba)
        },
        ColourType::Rgba => {
            if pixels.len() != 4 * n {
                return None;
            }
            let rgba = pixels.clone();
            assert(rgba@ =~= pixels@);
            Some(rgba)
        },
        _ => None,
    }
}

/// Decodes a PNG image and turns it into RGBA samples, giving its width, height and samples:
/// fails with `Decoding` when the bytes are not a PNG image that the decoder reads, with
/// `Unsupported` when the image is not 8-bit RGB or RGBA, and with `TooLarge` when its RGBA
/// samples would not fit in memory.
pub fn load_texture(bytes: &[u8]) -> (r: Result<(u32, u32, Vec<u8>), TextureError>)
    ensures
        match png_decoding(bytes@) {
            None => r == Err::<(u32, u32, Vec<u8>), _>(TextureError::Decoding),
            Some((w, h, code, pixels)) => match colour_of_code(code) {
                None => r == Err::<(u32, u32, Vec<u8>), _>(TextureError::Unsupported),
                Some(c) => if !converts_to_rgba(c, w, h, pixels) {
                    r == Err::<(u32, u32, Vec<u8>), _>(TextureError::Unsupported)
                } else if 4 * w * h > usize::MAX {
                    r == Err::<(u32, u32, Vec<u8>), _>(TextureError::TooLarge)
                } else {
                    r matches Ok((rw, rh, rgba)) && rw == w && rh == h && is_rgba_of(
                        c,
                        w,
                        h,
                        pixels,
                        rgba@,
                    )
                },
            },
        },
{
    let (width, height, code, pixels) = match decode_png(bytes) {
        Ok(d) => d,
        Err(e) => return Err(e),
    };
    let colour = match ColourType::from_code(code) {
        Some(c) => c,
        None => return Err(TextureError::Unsupported),
    };
    let expected: u64 = match colour {
        ColourType::Rgb => 3,
        ColourType::Rgba => 4,
        _ => return Err(TextureError::Unsupported),
    };
    proof {
        lemma_pixel_count(width, height);
    }
    let n: u64 = (width as u64) * (height as u64);
    assert(0 <= n * expected) by (nonlinear_arith);
    assert(n * expected == if colour == ColourType::Rgb {
        3 * n
    } else {
        4 * n
    }) by (nonlinear_arith)
        requires
            colour == ColourType::Rgb ==> expected == 3,
            colour != ColourType::Rgb ==> expected == 4,
    ;
    let len: usize = pixels.len();
    let fits = match n.checked_mul(expected) {
        Some(m) => m == len as u64,
        None => false,
    };
    if !fits {
        return Err(TextureError::Unsupported);
    }
    if n.checked_mul(4).is_none() || n * 4 > usize::MAX as u64 {
        return Err(TextureError::TooLarge);
    }
    match texture_rgba(colour, width, height, &pixels) {
        Some(rgba) => Ok((width, height, rgba)),
        None => Err(TextureError::Unsupported),
    }
}

} // verus!
