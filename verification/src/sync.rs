//! Decision logic of the clock-synchronization loop. The loop itself lives
//! outside the library (it awaits captures, OCR and timers); what stands here
//! is everything it decides: how a captured pixel buffer is prepared for the
//! OCR collaborator, what a recognition cycle does to the shared current
//! date, and when the loop stops.

use vstd::prelude::*;
use crate::date::Date;
use crate::parse::{ParseOutcome, spec_parse, parse_date_text};

verus! {

/// The two states of the synchronization loop.
#[derive(Copy, Clone, PartialEq, Eq, Structural, Debug)]
pub enum SyncState {
    /// Capturing, recognizing and parsing once per interval.
    Polling,
    /// The cancellation signal has been observed; the loop exits.
    Stopped,
}

impl SyncState {
    /// The transition taken after each interruptible wait: the external
    /// cancellation signal stops the loop; nothing else does. Capture, OCR
    /// and parse failures are transient and leave the loop polling.
    pub fn step(self, cancelled: bool) -> (next: SyncState)
        ensures
            next == if cancelled {
                SyncState::Stopped
            } else {
                self
            },
    {
        if cancelled {
            SyncState::Stopped
        } else {
            self
        }
    }
}

/// Width of the captured screen region, in pixels; calibrated to the
/// tracked application's fixed interface layout.
pub const REGION_WIDTH: u32 = 75;

/// Height of the captured screen region, in pixels.
pub const REGION_HEIGHT: u32 = 13;

/// A pixel buffer with every fourth byte (the alpha channel of the
/// 4-bytes-per-pixel layout) forced to fully opaque; the capture source
/// provides no meaningful alpha.
pub open spec fn spec_opaque(b: Seq<u8>) -> Seq<u8> {
    Seq::new(b.len(), |i: int| if i % 4 == 3 { 255u8 } else { b[i] })
}

/// Forces the alpha channel of a captured 4-bytes-per-pixel buffer to fully
/// opaque, in place.
pub fn force_opaque(b: &mut Vec<u8>)
    ensures
        final(b)@ == spec_opaque(old(b)@),
{
    let n = b.len();
    let mut i: usize = 3;
    while i < n
        invariant
            n == b@.len(),
            n == old(b)@.len(),
            i % 4 == 3,
            forall|j: int| 0 <= j < i && j < n ==> b@[j] == spec_opaque(old(b)@)[j],
            forall|j: int| i <= j < n ==> b@[j] == old(b)@[j],
        decreases n + 3 - i,
    {
        let ghost v0 = b@;
        b[i] = 255;
        proof {
            assert(b@ =~= v0.update(i as int, 255u8));
            vstd::arithmetic::div_mod::lemma_fundamental_div_mod(i as int, 4);
            assert forall|j: int| 0 <= j < i + 4 && j < n implies b@[j] == spec_opaque(
                old(b)@,
            )[j] by {
                if j < i {
                    assert(b@[j] == v0[j]);
                    assert(v0[j] == spec_opaque(old(b)@)[j]);
                } else if j == i {
                    assert(b@[j] == 255);
                    assert(spec_opaque(old(b)@)[j] == 255);
                } else {
                    vstd::arithmetic::div_mod::lemma_mod_multiples_vanish(
                        i as int / 4 + 1,
                        j - i - 1,
                        4,
                    );
                    assert(j % 4 == j - i - 1);
                    assert(b@[j] == v0[j]);
                    assert(v0[j] == old(b)@[j]);
                }
            }
        }
        i = i + 4;
    }
    proof {
        assert(b@ =~= spec_opaque(old(b)@));
    }
}

/// The byte stream the PNG encoder produces for a given pixel buffer and
/// dimensions; the encoding depends on these arguments alone.
pub uninterp spec fn png_of(pixels: Seq<u8>, width: u32, height: u32) -> Seq<u8>;

/// Relies on image::ImageBuffer::from_vec and ImageBuffer::write_to: encodes
/// an RGBA pixel buffer of the given dimensions as a PNG byte stream, whose
/// content is a function of the buffer and dimensions alone. With the exact
/// buffer length given here, from_vec always accepts, and the PNG path can
/// refuse only an image with a zero dimension — the writer is an in-memory
/// cursor, which cannot fail — so for nonzero dimensions the stream is owed.
#[verifier::external_body]
fn encode_png(pixels: Vec<u8>, width: u32, height: u32) -> (r: Option<Vec<u8>>)
    requires
        pixels@.len() == 4 * width * height,
    ensures
        r matches Some(png) ==> png@ == png_of(pixels@, width, height),
        width > 0 && height > 0 ==> r is Some,
{
    let image: image::ImageBuffer<image::Rgba<u8>, Vec<u8>> =
        match image::ImageBuffer::from_vec(width, height, pixels) {
            Some(i) => i,
            None => {
                return None;
            },
        };
    let mut out: Vec<u8> = Vec::new();
    match image.write_to(&mut std::io::Cursor::new(&mut out), image::ImageOutputFormat::Png) {
        Ok(()) => Some(out),
        Err(_) => None,
    }
}

/// Prepares a captured pixel buffer for the OCR collaborator: forces the
/// alpha channel opaque, then encodes the buffer as a PNG byte stream.
/// Every buffer of nonzero dimensions encodes; None can come only of an
/// empty image.
pub fn prepare_capture(pixels: Vec<u8>, width: u32, height: u32) -> (r: Option<Vec<u8>>)
    requires
        pixels@.len() == 4 * width * height,
    ensures
        r matches Some(png) ==> png@ == png_of(spec_opaque(pixels@), width, height),
        width > 0 && height > 0 ==> r is Some,
{
    let mut normalized = pixels;
    force_opaque(&mut normalized);
    encode_png(normalized, width, height)
}

/// What one recognition cycle does to the shared current date: a text that
/// parses to a valid date overwrites it unconditionally — the simulated
/// clock may legitimately move backward, so no monotonicity is enforced —
/// and any rejection leaves it unchanged.
pub fn apply_recognition(current: Date, text: &Vec<u8>) -> (next: Date)
    ensures
        next == (match spec_parse(text@) {
            ParseOutcome::Valid(d) => d,
            _ => current,
        }),
{
    match parse_date_text(text) {
        ParseOutcome::Valid(d) => d,
        _ => current,
    }
}

} // verus!
