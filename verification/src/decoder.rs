//! Pixel-format normalization: converting raw channel encodings (grayscale,
//! BGR, RGBA passthrough) into a uniform 4-channel RGBA representation.

use vstd::prelude::*;
use vstd::slice::slice_to_vec;

verus! {

/// The RGBA expansion of a grayscale byte sequence: each luma byte becomes one
/// opaque pixel whose three color channels all carry that byte.
pub open spec fn gray_rgba(luma: Seq<u8>) -> Seq<u8> {
    Seq::new(
        luma.len() * 4,
        |i: int|
            if i % 4 == 3 {
                255u8
            } else {
                luma[i / 4]
            },
    )
}

/// The RGBA expansion of a BGR byte sequence: each complete `b, g, r` triple
/// becomes the opaque pixel `r, g, b, 255`; a trailing incomplete triple is
/// ignored.
pub open spec fn bgr_rgba(bgr: Seq<u8>) -> Seq<u8> {
    Seq::new(
        (bgr.len() / 3) * 4,
        |i: int|
            {
                let p = i / 4;
                if i % 4 == 0 {
                    bgr[3 * p + 2]
                } else if i % 4 == 1 {
                    bgr[3 * p + 1]
                } else if i % 4 == 2 {
                    bgr[3 * p]
                } else {
                    255u8
                }
            },
    )
}

/// What normalization yields for a given channel depth: grayscale and BGR are
/// expanded, RGBA passes through unchanged, and every other depth is rejected.
pub open spec fn spec_normalize(channels: u32, data: Seq<u8>) -> Option<Seq<u8>> {
    if channels == 1 {
        Some(gray_rgba(data))
    } else if channels == 3 {
        Some(bgr_rgba(data))
    } else if channels == 4 {
        Some(data)
    } else {
        None
    }
}

/// Expands grayscale pixel bytes to RGBA, one opaque pixel per input byte.
pub fn grayscale_to_rgba(gray_data: &[u8]) -> (rgba: Vec<u8>)
    ensures
        rgba@ == gray_rgba(gray_data@),
{
    let mut out: Vec<u8> = Vec::new();
    let mut j: usize = 0;
    while j < gray_data.len()
        invariant
            j <= gray_data.len(),
            out@.len() == 4 * j,
            forall|k: int| 0 <= k < out@.len() ==> out@[k] == gray_rgba(gray_data@)[k],
        decreases gray_data.len() - j,
    {
        let luma = gray_data[j];
        out.push(luma);
        out.push(luma);
        out.push(luma);
        out.push(255);
        j = j + 1;
    }
    assert(out@ =~= gray_rgba(gray_data@));
    out
}

/// Reorders BGR pixel bytes to RGBA with a fixed opaque alpha; every byte of
/// the output is written exactly once.
pub fn bgr_to_rgba(bgr_data: &[u8]) -> (rgba: Vec<u8>)
    ensures
        rgba@ == bgr_rgba(bgr_data@),
{
    let num_pixels = bgr_data.len() / 3;
    let mut out: Vec<u8> = Vec::new();
    let mut p: usize = 0;
    while p < num_pixels
        invariant
            bgr_data@.len() <= usize::MAX,
            num_pixels == bgr_data@.len() / 3,
            p <= num_pixels,
            out@.len() == 4 * p,
            forall|k: int| 0 <= k < out@.len() ==> out@[k] == bgr_rgba(bgr_data@)[k],
        decreases num_pixels - p,
    {
        proof {
            assert(3 * p + 2 < bgr_data@.len()) by (nonlinear_arith)
                requires
                    p < bgr_data@.len() / 3,
            ;
        }
        out.push(bgr_data[3 * p + 2]);
        out.push(bgr_data[3 * p + 1]);
        out.push(bgr_data[3 * p]);
        out.push(255);
        p = p + 1;
    }
    assert(out@ =~= bgr_rgba(bgr_data@));
    out
}

/// Normalizes one frame's pixel bytes according to its channel depth,
/// returning `None` exactly on unsupported depths.
pub fn normalize_frame(channels: u32, data: &[u8]) -> (rgba: Option<Vec<u8>>)
    ensures
        rgba matches Some(v) ==> spec_normalize(channels, data@) == Some(v@),
        rgba is Some <==> spec_normalize(channels, data@) is Some,
{
    if channels == 1 {
        Some(grayscale_to_rgba(data))
    } else if channels == 3 {
        Some(bgr_to_rgba(data))
    } else if channels == 4 {
        Some(slice_to_vec(data))
    } else {
        None
    }
}

/// Normalizing the single grayscale pixel `l` yields exactly `l, l, l, 255`,
/// for every byte value `l`.
pub proof fn lemma_grayscale_pixel(l: u8)
    ensures
        gray_rgba(seq![l]) == seq![l, l, l, 255u8],
        spec_normalize(1, seq![l]) == Some(seq![l, l, l, 255u8]),
{
    assert(gray_rgba(seq![l]) =~= seq![l, l, l, 255u8]);
}

/// Normalizing the single BGR pixel `b, g, r` yields exactly `r, g, b, 255`,
/// for every combination of byte values.
pub proof fn lemma_bgr_pixel(b: u8, g: u8, r: u8)
    ensures
        bgr_rgba(seq![b, g, r]) == seq![r, g, b, 255u8],
        spec_normalize(3, seq![b, g, r]) == Some(seq![r, g, b, 255u8]),
{
    assert(bgr_rgba(seq![b, g, r]) =~= seq![r, g, b, 255u8]);
}

/// Normalizing zero BGR pixels yields zero RGBA bytes.
pub proof fn lemma_bgr_empty()
    ensures
        bgr_rgba(Seq::<u8>::empty()) == Seq::<u8>::empty(),
        spec_normalize(3, Seq::<u8>::empty()) == Some(Seq::<u8>::empty()),
{
    assert(bgr_rgba(Seq::<u8>::empty()) =~= Seq::<u8>::empty());
}

} // verus!
