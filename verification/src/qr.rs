//! Addresses as pictures that can be scanned.
use crate::text::joined;
use crate::wallet_api::ApiError;
use vstd::prelude::*;
use vstd::string::*;
use vstd::utf8::*;

verus! {

/// How wide and high a picture is at least.
pub const QR_SIDE: u32 = 220;

/// The colour of the dark modules.
pub const QR_DARK: &'static str = "#111827";

/// The colour of the light modules.
pub const QR_LIGHT: &'static str = "#ffffff";

/// The SVG text of a QR code, or why there is none.
pub uninterp spec fn qr_svg(
    data: Seq<u8>,
    side: u32,
    dark: Seq<char>,
    light: Seq<char>,
) -> Result<Seq<char>, Seq<char>>;

/// Calls `qrcode::QrCode::new` and renders the code with `qrcode::render::svg` in these
/// colours, at least `side` wide and high: the picture, or the text of the error, is a function
/// of the data, the side and the colours. The size in pixels is a `u32` there, so that larger
/// sides are left out here.
#[verifier::external_body]
fn qr_draw(data: &[u8], side: u32, dark: &str, light: &str) -> (drawn: Result<String, String>)
    requires
        side <= 65_536,
    ensures
        match drawn {
            Ok(text) => qr_svg(data@, side, dark@, light@) == Ok::<Seq<char>, Seq<char>>(text@),
            Err(reason) => qr_svg(data@, side, dark@, light@) == Err::<Seq<char>, Seq<char>>(
                reason@,
            ),
        },
{
    let code = qrcode::QrCode::new(data).map_err(|e| e.to_string())?;
    let mut renderer = code.render::<qrcode::render::svg::Color>();
    renderer.min_dimensions(side, side);
    renderer.dark_color(qrcode::render::svg::Color(dark));
    renderer.light_color(qrcode::render::svg::Color(light));
    Ok(renderer.build())
}

/// What a request for a picture is answered, where drawing gave this.
pub open spec fn picture_answer(
    drawn: Result<Seq<char>, Seq<char>>,
    answer: Result<String, ApiError>,
) -> bool {
    match drawn {
        Ok(svg) => answer matches Ok(text) && text@ == svg,
        Err(reason) => answer matches Err(e) && e@ == (
            400u16,
            "no se pudo generar el QR: "@ + reason,
        ),
    }
}

/// What a request for a picture is answered, where drawing gave this.
pub fn answer_with(drawn: Result<String, String>) -> (answer: Result<String, ApiError>)
    ensures
        picture_answer(
            match drawn {
                Ok(svg) => Ok(svg@),
                Err(reason) => Err(reason@),
            },
            answer,
        ),
{
    match drawn {
        Ok(svg) => Ok(svg),
        Err(reason) => Err(ApiError::bad(joined("no se pudo generar el QR: ", reason.as_str()))),
    }
}

/// The picture of an address.
pub fn qr_code(address: &str) -> (answer: Result<String, ApiError>)
    ensures
        picture_answer(
            qr_svg(encode_utf8(address@), QR_SIDE, QR_DARK@, QR_LIGHT@),
            answer,
        ),
{
    answer_with(qr_draw(address.as_bytes(), QR_SIDE, QR_DARK, QR_LIGHT))
}

} // verus!
