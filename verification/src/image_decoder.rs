//! The binary wire format: a fixed-width NUL-terminated description field
//! followed by zero or more image records, each a fixed-size header (64-byte
//! NUL-terminated name, then width, height and channel depth as little-endian
//! 32-bit integers) and a payload of exactly `width * height * channels` pixel
//! bytes.
//!
//! Decoding is zero-copy — records borrow their pixel bytes from the input
//! buffer — and truncation is soft: the decoder stops before any field that
//! does not fit and returns every record parsed so far.

use vstd::bytes::{
    lemma_auto_spec_u32_to_from_le_bytes, spec_u32_from_le_bytes, spec_u32_to_le_bytes,
    u32_from_le_bytes, u32_to_le_bytes,
};
use vstd::prelude::*;
use vstd::slice::slice_subrange;
use vstd::string::*;
use vstd::utf8::{
    decode_utf8, decode_utf8_encode_utf8, encode_utf8, encode_utf8_decode_utf8,
    encode_utf8_valid_utf8, valid_utf8,
};

verus! {

/// Width in bytes of the fixed name field of a record header.
pub const NAME_FIELD_SIZE: usize = 64;

/// Width in bytes of the fixed description field at the start of a buffer.
pub const DESCRIPTION_FIELD_SIZE: usize = 64;

/// Size in bytes of a full record header: the name field plus three
/// little-endian 32-bit integers (width, height, channels).
pub const HEADER_SIZE: usize = 76;

/// Index of the first NUL byte of `field` past `i`, or `field.len()` when none
/// follows.
pub open spec fn nul_cut_from(field: Seq<u8>, i: int) -> int
    decreases field.len() - i,
{
    if i < 0 || i >= field.len() {
        field.len() as int
    } else if field[i] == 0 {
        i
    } else {
        nul_cut_from(field, i + 1)
    }
}

/// Index of the first NUL byte of `field`, or `field.len()` when it has none.
pub open spec fn nul_cut(field: Seq<u8>) -> int {
    nul_cut_from(field, 0)
}

proof fn lemma_nul_cut_from_bounds(field: Seq<u8>, i: int)
    requires
        0 <= i <= field.len(),
    ensures
        i <= nul_cut_from(field, i) <= field.len(),
        forall|j: int| i <= j < nul_cut_from(field, i) ==> field[j] != 0,
        nul_cut_from(field, i) < field.len() ==> field[nul_cut_from(field, i)] == 0,
    decreases field.len() - i,
{
    if i < field.len() && field[i] != 0 {
        lemma_nul_cut_from_bounds(field, i + 1);
    }
}

/// The cut index is wherever the first NUL stands: no NUL before it, and a NUL
/// at it unless it is the field's end.
pub proof fn lemma_nul_cut_is(field: Seq<u8>, n: int)
    requires
        0 <= n <= field.len(),
        forall|j: int| 0 <= j < n ==> field[j] != 0,
        n < field.len() ==> field[n] == 0,
    ensures
        nul_cut(field) == n,
{
    lemma_nul_cut_from_is(field, 0, n);
}

proof fn lemma_nul_cut_from_is(field: Seq<u8>, i: int, n: int)
    requires
        0 <= i <= n <= field.len(),
        forall|j: int| i <= j < n ==> field[j] != 0,
        n < field.len() ==> field[n] == 0,
    ensures
        nul_cut_from(field, i) == n,
    decreases field.len() - i,
{
    if i < n {
        lemma_nul_cut_from_is(field, i + 1, n);
    }
}

/// The text a fixed-width field spells: its bytes up to the first NUL (or the
/// whole field if none), decoded as UTF-8, or a placeholder when those bytes
/// are not valid UTF-8.
pub open spec fn field_chars(field: Seq<u8>) -> Seq<char> {
    let trimmed = field.take(nul_cut(field));
    if valid_utf8(trimmed) {
        decode_utf8(trimmed)
    } else {
        "<invalid utf8>"@
    }
}

/// Relies on `core::str::from_utf8`: it succeeds exactly on the byte sequences
/// that are valid UTF-8, and the string slice it returns is backed by those
/// very bytes.
#[verifier::external_body]
fn parse_utf8<'a>(bytes: &'a [u8]) -> (r: Option<&'a str>)
    ensures
        r is Some <==> valid_utf8(bytes@),
        r matches Some(s) ==> s.spec_bytes() == bytes@,
{
    core::str::from_utf8(bytes).ok()
}

fn nul_cut_index(field: &[u8]) -> (r: usize)
    ensures
        r == nul_cut(field@),
{
    let mut i: usize = 0;
    while i < field.len()
        invariant
            0 <= i <= field@.len(),
            nul_cut(field@) == nul_cut_from(field@, i as int),
        decreases field@.len() - i,
    {
        if field[i] == 0 {
            return i;
        }
        i = i + 1;
    }
    i
}

/// Decodes one fixed-width NUL-terminated text field into an owned string,
/// substituting a placeholder for invalid UTF-8.
pub fn field_to_text(field: &[u8]) -> (r: String)
    ensures
        r@ == field_chars(field@),
{
    let cut = nul_cut_index(field);
    proof {
        lemma_nul_cut_from_bounds(field@, 0);
    }
    let trimmed = slice_subrange(field, 0, cut);
    proof {
        assert(trimmed@ =~= field@.take(nul_cut(field@)));
    }
    match parse_utf8(trimmed) {
        Some(s) => {
            proof {
                encode_utf8_decode_utf8(s@);
            }
            s.to_owned()
        },
        None => "<invalid utf8>".to_owned(),
    }
}

/// The mathematical value of one decoded image record.
#[verifier::ext_equal]
pub ghost struct SpecImage {
    pub name: Seq<char>,
    pub width: u32,
    pub height: u32,
    pub channels: u32,
    pub pixels: Seq<u8>,
}

/// One named image parsed out of a snapshot buffer; `pixels` borrows from that
/// buffer, so the record must not outlive it.
#[derive(Debug)]
pub struct NamedImageView<'a> {
    pub name: String,
    pub width: u32,
    pub height: u32,
    pub channels: u32,
    pub pixels: &'a [u8],
}

impl<'a> View for NamedImageView<'a> {
    type V = SpecImage;

    open spec fn view(&self) -> SpecImage {
        SpecImage {
            name: self.name@,
            width: self.width,
            height: self.height,
            channels: self.channels,
            pixels: self.pixels@,
        }
    }
}

impl<'a> DeepView for NamedImageView<'a> {
    type V = SpecImage;

    open spec fn deep_view(&self) -> SpecImage {
        self.view()
    }
}

/// The records at the head of `s`: none if a full header does not fit, none if
/// the payload the header declares does not fit (soft truncation), otherwise
/// the head record followed by the records of the remaining bytes.
pub open spec fn spec_records(s: Seq<u8>) -> Seq<SpecImage>
    decreases s.len(),
{
    if s.len() < 76 {
        Seq::empty()
    } else {
        let width = spec_u32_from_le_bytes(s.subrange(64, 68));
        let height = spec_u32_from_le_bytes(s.subrange(68, 72));
        let channels = spec_u32_from_le_bytes(s.subrange(72, 76));
        let dlen = ((width as nat) * (height as nat) * (channels as nat)) as int;
        if s.len() < 76 + dlen {
            Seq::empty()
        } else {
            seq![
                SpecImage {
                    name: field_chars(s.take(64)),
                    width,
                    height,
                    channels,
                    pixels: s.subrange(76, 76 + dlen),
                },
            ] + spec_records(s.skip(76 + dlen))
        }
    }
}

/// Parses every complete image record of `buffer`, in order, stopping cleanly
/// at the first record that does not fit.
pub fn decode_named_images<'a>(buffer: &'a [u8]) -> (images: Vec<NamedImageView<'a>>)
    ensures
        images.deep_view() == spec_records(buffer@),
{
    let mut images: Vec<NamedImageView<'a>> = Vec::new();
    let mut offset: usize = 0;
    let buffer_len = buffer.len();
    proof {
        assert(images.deep_view() =~= Seq::<SpecImage>::empty());
        assert(buffer@.skip(0) =~= buffer@);
    }
    while buffer_len - offset >= HEADER_SIZE
        invariant
            buffer_len == buffer@.len(),
            offset <= buffer@.len() <= usize::MAX,
            spec_records(buffer@) =~= images.deep_view() + spec_records(
                buffer@.skip(offset as int),
            ),
        decreases buffer@.len() - offset,
    {
        let ghost s = buffer@.skip(offset as int);
        let name_field = slice_subrange(buffer, offset, offset + NAME_FIELD_SIZE);
        let name = field_to_text(name_field);
        let width = u32_from_le_bytes(slice_subrange(buffer, offset + 64, offset + 68));
        let height = u32_from_le_bytes(slice_subrange(buffer, offset + 68, offset + 72));
        let channels = u32_from_le_bytes(slice_subrange(buffer, offset + 72, offset + 76));
        proof {
            assert(name_field@ =~= s.take(64));
            assert(buffer@.subrange(offset + 64, offset + 68) =~= s.subrange(64, 68));
            assert(buffer@.subrange(offset + 68, offset + 72) =~= s.subrange(68, 72));
            assert(buffer@.subrange(offset + 72, offset + 76) =~= s.subrange(72, 76));
            assert((width as int) * (height as int) < 0x10000000000000000int) by (nonlinear_arith)
                requires
                    width < 0x100000000int,
                    height < 0x100000000int,
            ;
            assert(((width as int) * (height as int)) * (channels as int)
                < 0x1000000000000000000000000int) by (nonlinear_arith)
                requires
                    (width as int) * (height as int) < 0x10000000000000000int,
                    0 <= (width as int) * (height as int),
                    channels < 0x100000000int,
            ;
        }
        let dlen_wide: u128 = (width as u128) * (height as u128) * (channels as u128);
        let avail: usize = buffer_len - offset - HEADER_SIZE;
        if dlen_wide > avail as u128 {
            proof {
                assert(spec_records(s) =~= Seq::<SpecImage>::empty());
                assert(images.deep_view() + spec_records(s) =~= images.deep_view());
            }
            return images;
        }
        let dlen: usize = dlen_wide as usize;
        let pixels = slice_subrange(buffer, offset + HEADER_SIZE, offset + HEADER_SIZE + dlen);
        let image = NamedImageView { name, width, height, channels, pixels };
        proof {
            let ghost d = ((width as nat) * (height as nat) * (channels as nat)) as int;
            assert(pixels@ =~= s.subrange(76, 76 + d));
            assert(image@ =~= spec_records(s)[0]);
            assert(buffer@.skip(offset + HEADER_SIZE + dlen) =~= s.skip(76 + d));
            assert(spec_records(s) =~= seq![image@] + spec_records(s.skip(76 + d)));
            assert(images.deep_view().push(image@) + spec_records(s.skip(76 + d))
                =~= images.deep_view() + spec_records(s));
            assert((images.deep_view() + seq![image@]) =~= images.deep_view().push(image@));
        }
        images.push(image);
        offset = offset + HEADER_SIZE + dlen;
    }
    proof {
        assert(spec_records(buffer@.skip(offset as int)) =~= Seq::<SpecImage>::empty());
        assert(images.deep_view() + spec_records(buffer@.skip(offset as int))
            =~= images.deep_view());
    }
    images
}

/// The description a snapshot buffer carries: the text of its leading fixed
/// field, or empty when the buffer cannot hold that field.
pub open spec fn spec_snapshot_description(b: Seq<u8>) -> Seq<char> {
    if b.len() >= 64 {
        field_chars(b.take(64))
    } else {
        Seq::empty()
    }
}

/// The records a snapshot buffer carries: those following its description
/// field, or none when the buffer cannot hold that field.
pub open spec fn spec_snapshot_records(b: Seq<u8>) -> Seq<SpecImage> {
    if b.len() >= 64 {
        spec_records(b.skip(64))
    } else {
        Seq::empty()
    }
}

/// Decodes one snapshot buffer into its description and every complete image
/// record after it.
pub fn decode_snapshot<'a>(buffer: &'a [u8]) -> (r: (String, Vec<NamedImageView<'a>>))
    ensures
        r.0@ == spec_snapshot_description(buffer@),
        r.1.deep_view() == spec_snapshot_records(buffer@),
{
    if buffer.len() < DESCRIPTION_FIELD_SIZE {
        let images: Vec<NamedImageView<'a>> = Vec::new();
        proof {
            assert(images.deep_view() =~= Seq::<SpecImage>::empty());
        }
        (String::new(), images)
    } else {
        let head = slice_subrange(buffer, 0, DESCRIPTION_FIELD_SIZE);
        let description = field_to_text(head);
        let tail = slice_subrange(buffer, DESCRIPTION_FIELD_SIZE, buffer.len());
        proof {
            assert(head@ =~= buffer@.take(64));
            assert(tail@ =~= buffer@.skip(64));
        }
        let images = decode_named_images(tail);
        (description, images)
    }
}

/// One raw frame as a producer hands it in: a name, declared dimensions and
/// channel depth, and the undecoded pixel bytes.
#[derive(Debug)]
pub struct RawFrame {
    pub name: String,
    pub width: u32,
    pub height: u32,
    pub channels: u32,
    pub bytes: Vec<u8>,
}

impl View for RawFrame {
    type V = SpecImage;

    open spec fn view(&self) -> SpecImage {
        SpecImage {
            name: self.name@,
            width: self.width,
            height: self.height,
            channels: self.channels,
            pixels: self.bytes@,
        }
    }
}

impl DeepView for RawFrame {
    type V = SpecImage;

    open spec fn deep_view(&self) -> SpecImage {
        self.view()
    }
}

/// `bytes` padded with NULs to the fixed field width.
pub open spec fn pad_field(bytes: Seq<u8>) -> Seq<u8> {
    if bytes.len() <= 64 {
        bytes + Seq::new((64 - bytes.len()) as nat, |i: int| 0u8)
    } else {
        bytes
    }
}

/// Whether `text` survives a trip through a fixed-width field: its UTF-8
/// encoding fits the field and contains no NUL byte to be cut at.
pub open spec fn encodable_text(text: Seq<char>) -> bool {
    &&& encode_utf8(text).len() <= 64
    &&& forall|j: int| 0 <= j < encode_utf8(text).len() ==> encode_utf8(text)[j] != 0
}

/// Whether a frame survives a trip through the wire format: its name is
/// encodable and its payload has exactly the length its header declares.
pub open spec fn encodable_frame(f: SpecImage) -> bool {
    &&& encodable_text(f.name)
    &&& f.pixels.len() == (f.width as nat) * (f.height as nat) * (f.channels as nat)
}

/// The wire bytes of one record: padded name field, the three little-endian
/// header integers, then the payload.
pub open spec fn spec_record_bytes(f: SpecImage) -> Seq<u8> {
    pad_field(encode_utf8(f.name)) + spec_u32_to_le_bytes(f.width) + spec_u32_to_le_bytes(f.height)
        + spec_u32_to_le_bytes(f.channels) + f.pixels
}

/// The wire bytes of a sequence of records, in order.
pub open spec fn spec_encode_records(frames: Seq<SpecImage>) -> Seq<u8>
    decreases frames.len(),
{
    if frames.len() == 0 {
        Seq::empty()
    } else {
        spec_record_bytes(frames[0]) + spec_encode_records(frames.drop_first())
    }
}

/// The wire bytes of a whole snapshot: padded description field, then the
/// records.
pub open spec fn spec_encode_snapshot(description: Seq<char>, frames: Seq<SpecImage>) -> Seq<u8> {
    pad_field(encode_utf8(description)) + spec_encode_records(frames)
}

/// Appends `text`'s UTF-8 bytes, NUL-padded to the fixed field width.
fn push_field(out: &mut Vec<u8>, text: &str)
    ensures
        final(out)@ == old(out)@ + pad_field(text.spec_bytes()),
{
    let ghost before = out@;
    let bytes = text.as_bytes();
    let mut i: usize = 0;
    while i < bytes.len()
        invariant
            i <= bytes@.len(),
            out@ == before + bytes@.take(i as int),
        decreases bytes@.len() - i,
    {
        out.push(bytes[i]);
        proof {
            assert(before + bytes@.take(i as int) + seq![bytes@[i as int]]
                =~= before + bytes@.take(i + 1));
        }
        i = i + 1;
    }
    proof {
        assert(bytes@.take(bytes@.len() as int) =~= bytes@);
        assert(before + bytes@ + Seq::new(0nat, |k: int| 0u8) =~= before + bytes@);
    }
    let mut j = bytes.len();
    while j < NAME_FIELD_SIZE
        invariant
            bytes@.len() <= j <= 64 || (bytes@.len() > 64 && j == bytes@.len()),
            out@ == before + bytes@ + Seq::new((j - bytes@.len()) as nat, |k: int| 0u8),
        decreases 64 - j,
    {
        out.push(0);
        proof {
            assert(before + bytes@ + Seq::new((j - bytes@.len()) as nat, |k: int| 0u8)
                + seq![0u8] =~= before + bytes@ + Seq::new(
                (j + 1 - bytes@.len()) as nat,
                |k: int| 0u8,
            ));
        }
        j = j + 1;
    }
    proof {
        assert(out@ =~= before + pad_field(bytes@));
    }
}

/// Encodes a description and a sequence of raw frames into one snapshot
/// buffer in the wire format.
pub fn encode_snapshot(description: &str, frames: &Vec<RawFrame>) -> (buffer: Vec<u8>)
    ensures
        buffer@ == spec_encode_snapshot(description@, frames.deep_view()),
{
    let mut out: Vec<u8> = Vec::new();
    push_field(&mut out, description);
    let ghost head = pad_field(description.spec_bytes());
    proof {
        assert(Seq::<u8>::empty() + head =~= head);
        assert(spec_encode_records(frames.deep_view().take(0)) =~= Seq::<u8>::empty());
        assert(head + Seq::<u8>::empty() =~= head);
    }
    let mut idx: usize = 0;
    while idx < frames.len()
        invariant
            idx <= frames@.len(),
            out@ == head + spec_encode_records(frames.deep_view().take(idx as int)),
        decreases frames@.len() - idx,
    {
        let ghost mid = out@;
        let f = &frames[idx];
        push_field(&mut out, f.name.as_str());
        let mut wb = u32_to_le_bytes(f.width);
        out.append(&mut wb);
        let mut hb = u32_to_le_bytes(f.height);
        out.append(&mut hb);
        let mut cb = u32_to_le_bytes(f.channels);
        out.append(&mut cb);
        let ghost with_header = out@;
        let mut k: usize = 0;
        while k < f.bytes.len()
            invariant
                k <= f.bytes@.len(),
                out@ == with_header + f.bytes@.take(k as int),
            decreases f.bytes@.len() - k,
        {
            out.push(f.bytes[k]);
            proof {
                assert(with_header + f.bytes@.take(k as int) + seq![f.bytes@[k as int]]
                    =~= with_header + f.bytes@.take(k + 1));
            }
            k = k + 1;
        }
        proof {
            let fv = frames.deep_view()[idx as int];
            assert(f.bytes@.take(f.bytes@.len() as int) =~= f.bytes@);
            assert(out@ =~= mid + spec_record_bytes(fv));
            lemma_encode_records_snoc(frames.deep_view(), idx as int);
            assert(mid + spec_record_bytes(fv) =~= head + spec_encode_records(
                frames.deep_view().take(idx + 1),
            ));
        }
        idx = idx + 1;
    }
    proof {
        assert(frames.deep_view().take(frames@.len() as int) =~= frames.deep_view());
    }
    out
}

proof fn lemma_encode_records_snoc(frames: Seq<SpecImage>, i: int)
    requires
        0 <= i < frames.len(),
    ensures
        spec_encode_records(frames.take(i + 1)) == spec_encode_records(frames.take(i))
            + spec_record_bytes(frames[i]),
    decreases i,
{
    if i == 0 {
        assert(frames.take(1).drop_first() =~= Seq::<SpecImage>::empty());
        assert(frames.take(0) =~= Seq::<SpecImage>::empty());
        assert(frames.take(1)[0] == frames[0]);
        assert(spec_record_bytes(frames[0]) + Seq::<u8>::empty() =~= spec_record_bytes(
            frames[0],
        ));
        assert(Seq::<u8>::empty() + spec_record_bytes(frames[0]) =~= spec_record_bytes(
            frames[0],
        ));
    } else {
        let rest = frames.drop_first();
        lemma_encode_records_snoc(rest, i - 1);
        assert(frames.take(i + 1).drop_first() =~= rest.take(i));
        assert(frames.take(i).drop_first() =~= rest.take(i - 1));
        assert(frames.take(i + 1)[0] == frames[0]);
        assert(frames.take(i)[0] == frames[0]);
        assert(rest[i - 1] == frames[i]);
        assert(spec_record_bytes(frames[0]) + (spec_encode_records(rest.take(i - 1))
            + spec_record_bytes(frames[i])) =~= (spec_record_bytes(frames[0])
            + spec_encode_records(rest.take(i - 1))) + spec_record_bytes(frames[i]));
    }
}

/// An encodable text laid into a fixed-width field reads back unchanged.
pub proof fn lemma_field_round_trip(text: Seq<char>)
    requires
        encodable_text(text),
    ensures
        field_chars(pad_field(encode_utf8(text))) == text,
{
    let e = encode_utf8(text);
    let p = pad_field(e);
    lemma_nul_cut_is(p, e.len() as int);
    assert(p.take(e.len() as int) =~= e);
    encode_utf8_valid_utf8(text);
    encode_utf8_decode_utf8(text);
}

/// One encoded record at the head of a buffer parses back to exactly that
/// record, whatever bytes follow it.
pub proof fn lemma_cons_parse(f: SpecImage, rest: Seq<u8>)
    requires
        encodable_frame(f),
    ensures
        spec_records(spec_record_bytes(f) + rest) == seq![f] + spec_records(rest),
{
    lemma_auto_spec_u32_to_from_le_bytes();
    let rb = spec_record_bytes(f);
    let s = rb + rest;
    let e = encode_utf8(f.name);
    assert(pad_field(e).len() == 64);
    assert(rb.len() == 76 + f.pixels.len());
    assert(s.subrange(64, 68) =~= spec_u32_to_le_bytes(f.width));
    assert(s.subrange(68, 72) =~= spec_u32_to_le_bytes(f.height));
    assert(s.subrange(72, 76) =~= spec_u32_to_le_bytes(f.channels));
    let dlen = ((f.width as nat) * (f.height as nat) * (f.channels as nat)) as int;
    assert(dlen == f.pixels.len());
    assert(s.take(64) =~= pad_field(e));
    lemma_field_round_trip(f.name);
    assert(s.subrange(76, 76 + dlen) =~= f.pixels);
    assert(s.skip(76 + dlen) =~= rest);
    assert(spec_records(s) =~= seq![f] + spec_records(rest));
}

/// Encoded records parse back to exactly the records that were encoded.
pub proof fn lemma_records_round_trip(frames: Seq<SpecImage>)
    requires
        forall|i: int| 0 <= i < frames.len() ==> encodable_frame(#[trigger] frames[i]),
    ensures
        spec_records(spec_encode_records(frames)) == frames,
    decreases frames.len(),
{
    if frames.len() == 0 {
        assert(spec_records(spec_encode_records(frames)) =~= frames);
    } else {
        let rest = frames.drop_first();
        lemma_cons_parse(frames[0], spec_encode_records(rest));
        lemma_records_round_trip(rest);
        assert(seq![frames[0]] + rest =~= frames);
    }
}

/// Encoding a description and raw frames and decoding the result recovers
/// exactly the same description and, for each frame in order, its name,
/// dimensions, channel depth and pixel bytes.
pub proof fn lemma_snapshot_round_trip(description: Seq<char>, frames: Seq<SpecImage>)
    requires
        encodable_text(description),
        forall|i: int| 0 <= i < frames.len() ==> encodable_frame(#[trigger] frames[i]),
    ensures
        spec_snapshot_description(spec_encode_snapshot(description, frames)) == description,
        spec_snapshot_records(spec_encode_snapshot(description, frames)) == frames,
{
    let b = spec_encode_snapshot(description, frames);
    assert(pad_field(encode_utf8(description)).len() == 64);
    assert(b.take(64) =~= pad_field(encode_utf8(description)));
    lemma_field_round_trip(description);
    assert(b.skip(64) =~= spec_encode_records(frames));
    lemma_records_round_trip(frames);
}

proof fn lemma_encode_holds_last(frames: Seq<SpecImage>)
    requires
        frames.len() > 0,
    ensures
        spec_encode_records(frames).len() >= 76 + frames.last().pixels.len(),
    decreases frames.len(),
{
    lemma_auto_spec_u32_to_from_le_bytes();
    assert(spec_record_bytes(frames[0]).len() >= 76);
    if frames.len() > 1 {
        lemma_encode_holds_last(frames.drop_first());
        assert(frames.drop_first().last() == frames.last());
    }
}

/// Cutting any part of the final record's payload off an encoded buffer loses
/// exactly that final record: decoding returns all prior records unchanged.
pub proof fn lemma_truncated_tail(frames: Seq<SpecImage>, cut: int)
    requires
        forall|i: int| 0 <= i < frames.len() ==> encodable_frame(#[trigger] frames[i]),
        frames.len() > 0,
        0 < cut <= frames.last().pixels.len(),
    ensures
        spec_records(spec_encode_records(frames).take(spec_encode_records(frames).len() - cut))
            == frames.drop_last(),
    decreases frames.len(),
{
    lemma_auto_spec_u32_to_from_le_bytes();
    let full = spec_encode_records(frames);
    let t = full.take(full.len() - cut);
    if frames.len() == 1 {
        let f0 = frames[0];
        let rb = spec_record_bytes(f0);
        let e = encode_utf8(f0.name);
        assert(pad_field(e).len() == 64);
        assert(spec_encode_records(frames.drop_first()) =~= Seq::<u8>::empty());
        assert(full =~= rb + Seq::<u8>::empty());
        assert(rb + Seq::<u8>::empty() =~= rb);
        assert(rb.len() == 76 + f0.pixels.len());
        assert(t.len() == 76 + f0.pixels.len() - cut);
        assert(t.subrange(64, 68) =~= spec_u32_to_le_bytes(f0.width));
        assert(t.subrange(68, 72) =~= spec_u32_to_le_bytes(f0.height));
        assert(t.subrange(72, 76) =~= spec_u32_to_le_bytes(f0.channels));
        let dlen = ((f0.width as nat) * (f0.height as nat) * (f0.channels as nat)) as int;
        assert(dlen == f0.pixels.len());
        assert(t.len() < 76 + dlen);
        assert(spec_records(t) =~= Seq::<SpecImage>::empty());
        assert(frames.drop_last() =~= Seq::<SpecImage>::empty());
    } else {
        let f0 = frames[0];
        let rb = spec_record_bytes(f0);
        let rest = frames.drop_first();
        let rest_full = spec_encode_records(rest);
        lemma_encode_holds_last(rest);
        assert(rest.last() == frames.last());
        let t_rest = rest_full.take(rest_full.len() - cut);
        assert(t =~= rb + t_rest);
        lemma_cons_parse(f0, t_rest);
        lemma_truncated_tail(rest, cut);
        assert(frames.drop_last() =~= seq![f0] + rest.drop_last());
    }
}

/// A name field filled to its full width with no NUL decodes to the text of
/// the whole field, unabridged.
pub proof fn lemma_full_width_name(field: Seq<u8>)
    requires
        field.len() == 64,
        forall|j: int| 0 <= j < 64 ==> field[j] != 0,
        valid_utf8(field),
    ensures
        field_chars(field) == decode_utf8(field),
        encode_utf8(field_chars(field)) == field,
{
    lemma_nul_cut_is(field, 64);
    assert(field.take(64) =~= field);
    decode_utf8_encode_utf8(field);
}

} // verus!
