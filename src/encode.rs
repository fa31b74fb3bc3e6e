use vstd::prelude::*;
use crate::chunks::{
    add_preserved, be_u32_bytes, chunk_bytes, chunks_bytes, is_chunk_frame, is_preserved_tag,
    lemma_scan_over_chunks, png_signature, scan_chunks, ChunkFrame, ChunkSet, DecodeError,
};
use vstd::utf8::{pop_first_scalar, valid_utf8};
use crate::raster::{PixelRGBA, RasterImage};
use crate::tiling::{create_tiled_image, tileable, tiled_pixels};

verus! {

/// An I/O or codec error from the PNG encoder.
#[verifier::external_type_specification]
#[verifier::external_body]
pub struct ExIoError(std::io::Error);

/// The PNG header that the encoder writes.
#[verifier::external_type_specification]
#[verifier::external_body]
pub struct ExHeader(mtpng::Header);

/// Relies on mtpng's `Header::new`: a header value to be filled in.
pub assume_specification[ mtpng::Header::new ]() -> mtpng::Header;

/// The CRC-32 (IEEE) of `bytes`, which mtpng writes after each chunk.
pub uninterp spec fn crc32_of(bytes: Seq<u8>) -> u32;

/// One chunk as mtpng writes it: data length, type, data and CRC-32 of type
/// and data, the integers big-endian.
pub open spec fn framed_chunk(tag: Seq<u8>, data: Seq<u8>) -> Seq<u8> {
    be_u32_bytes(data.len() as int) + tag + data + be_u32_bytes(crc32_of(tag + data) as int)
}

/// The tag `IHDR`.
pub open spec fn ihdr_tag() -> Seq<u8> {
    seq![0x49u8, 0x48u8, 0x44u8, 0x52u8]
}

/// The `IHDR` payload: width, height, depth, colour type, then deflate
/// compression, standard filtering and no interlacing.
pub open spec fn ihdr_data(width: u32, height: u32, depth: u8, color_type: u8) -> Seq<u8> {
    be_u32_bytes(width as int) + be_u32_bytes(height as int) + seq![depth, color_type, 0u8, 0u8, 0u8]
}

/// Depths that mtpng accepts for a colour type.
pub open spec fn depth_valid(color_type: u8, depth: u8) -> bool {
    if color_type == 0 {
        depth == 1 || depth == 2 || depth == 4 || depth == 8 || depth == 16
    } else if color_type == 2 || color_type == 4 || color_type == 6 {
        depth == 8 || depth == 16
    } else if color_type == 3 {
        depth == 1 || depth == 2 || depth == 4 || depth == 8
    } else {
        false
    }
}

/// An mtpng header, with the size and colour format set on it so far.
struct PngHeader {
    header: mtpng::Header,
    size: Ghost<Option<(u32, u32)>>,
    format: Ghost<Option<(u8, u8)>>,
}

impl PngHeader {
    fn new() -> (r: PngHeader)
        ensures
            r.size@ is None,
            r.format@ is None,
    {
        PngHeader { header: mtpng::Header::new(), size: Ghost(None), format: Ghost(None) }
    }

    /// Relies on mtpng's `Header::set_size`: it fails exactly where a side is
    /// zero, and otherwise the header takes the size.
    #[verifier::external_body]
    fn set_size(&mut self, width: u32, height: u32) -> (r: std::io::Result<()>)
        ensures
            r.is_ok() == (width != 0 && height != 0),
            r.is_ok() ==> final(self).size@ == Some((width, height)),
            !r.is_ok() ==> final(self).size@ == old(self).size@,
            final(self).format@ == old(self).format@,
    {
        self.header.set_size(width, height)
    }

    /// Relies on mtpng's `ColorType::try_from` and `Header::set_color`: the
    /// colour type by its PNG number, which must be valid with the depth;
    /// otherwise the header takes both.
    #[verifier::external_body]
    fn set_color(&mut self, color_type: u8, depth: u8) -> (r: std::io::Result<()>)
        ensures
            r.is_ok() == depth_valid(color_type, depth),
            r.is_ok() ==> final(self).format@ == Some((color_type, depth)),
            !r.is_ok() ==> final(self).format@ == old(self).format@,
            final(self).size@ == old(self).size@,
    {
        let color = mtpng::ColorType::try_from(color_type)?;
        self.header.set_color(color, depth)
    }
}

/// The tag `IDAT`.
pub open spec fn idat_tag() -> Seq<u8> {
    seq![0x49u8, 0x44u8, 0x41u8, 0x54u8]
}

/// The tag `IEND`.
pub open spec fn iend_tag() -> Seq<u8> {
    seq![0x49u8, 0x45u8, 0x4eu8, 0x44u8]
}

/// How mtpng ends a file: well-formed `IDAT` and `IEND` chunks with their
/// CRC-32, the last one an empty `IEND`.
pub open spec fn is_image_data(rest: Seq<ChunkFrame>) -> bool {
    &&& rest.len() > 0
    &&& forall|i: int|
        0 <= i < rest.len() ==> {
            &&& is_chunk_frame(#[trigger] rest[i])
            &&& (rest[i].0 == idat_tag() || rest[i].0 == iend_tag())
            &&& rest[i].2 == be_u32_bytes(crc32_of(rest[i].0 + rest[i].1) as int)
        }
    &&& rest.last().0 == iend_tag()
    &&& rest.last().1.len() == 0
}

/// Sizes for which mtpng's header arithmetic stays within `usize`: the row
/// length in bits, the length of the filtered image, and the split of the
/// rows into pieces of 256 KiB.
pub open spec fn encodable_size(width: u32, height: u32) -> bool {
    &&& 32 * width <= usize::MAX
    &&& (4 * width + 1) * height <= usize::MAX
    &&& ((4 * width + 1) * height / 262144 + 1) * height <= usize::MAX
}

/// mtpng's encoder writing into memory. Verus cannot declare mtpng's
/// `Encoder` itself (its sink is bound by `std::io::Write`), so it is held here.
#[verifier::external_body]
struct EncoderHolder {
    encoder: mtpng::encoder::Encoder<'static, Vec<u8>>,
}

/// An encoder with a model of what it has written: `preamble` is every byte
/// written before the image rows, `header` the size and format written in
/// `IHDR`, and `rows_sent` whether image rows were handed over.
struct PngStream {
    holder: EncoderHolder,
    preamble: Ghost<Seq<u8>>,
    header: Ghost<Option<(u32, u32, u8, u8)>>,
    rows_sent: Ghost<bool>,
}

impl PngStream {
    /// Relies on mtpng's `Options::new` (rows compressed in pieces of
    /// 256 KiB, no streaming) and `Encoder::new`: an encoder that has
    /// written nothing yet.
    #[verifier::external_body]
    fn new() -> (r: PngStream)
        ensures
            r.preamble@ == Seq::<u8>::empty(),
            r.header@ is None,
            !r.rows_sent@,
    {
        PngStream {
            holder: EncoderHolder {
                encoder: mtpng::encoder::Encoder::new(Vec::new(), &mtpng::encoder::Options::new()),
            },
            preamble: Ghost(Seq::empty()),
            header: Ghost(None),
            rows_sent: Ghost(false),
        }
    }

    /// Relies on mtpng's `Encoder::write_header`: the first header written
    /// is accepted, and the signature and `IHDR` go to the buffer, which
    /// cannot fail. The size keeps `Header::stride` and the row split from
    /// overflowing.
    #[verifier::external_body]
    fn write_header(&mut self, header: &PngHeader) -> (r: std::io::Result<()>)
        requires
            old(self).header@ is None,
            !old(self).rows_sent@,
            header.size@ matches Some((w, h)) && encodable_size(w, h),
            header.format@ == Some((6u8, 8u8)),
        ensures
            r.is_ok(),
            final(self).preamble@ == old(self).preamble@ + png_signature() + framed_chunk(
                ihdr_tag(),
                ihdr_data(header.size@->Some_0.0, header.size@->Some_0.1, 8, 6),
            ),
            final(self).header@ == Some((header.size@->Some_0.0, header.size@->Some_0.1, 8u8, 6u8)),
            final(self).rows_sent@ == old(self).rows_sent@,
    {
        self.holder.encoder.write_header(&header.header)
    }

    /// Relies on mtpng's `Encoder::write_chunk`: a 4-byte tag and data under
    /// 4 GiB are written as one chunk; anything else is refused unwritten.
    #[verifier::external_body]
    fn write_chunk(&mut self, tag: &[u8], data: &[u8]) -> (r: std::io::Result<()>)
        requires
            !old(self).rows_sent@,
        ensures
            r.is_ok() == (tag@.len() == 4 && data@.len() <= u32::MAX),
            r.is_ok() ==> final(self).preamble@ == old(self).preamble@ + be_u32_bytes(data@.len() as int)
                + tag@ + data@ + be_u32_bytes(crc32_of(tag@ + data@) as int),
            !r.is_ok() ==> final(self).preamble@ == old(self).preamble@,
            final(self).header@ == old(self).header@,
            final(self).rows_sent@ == old(self).rows_sent@,
    {
        self.holder.encoder.write_chunk(tag, data)
    }

    /// Relies on mtpng's `Encoder::write_image_rows`: hands the rows over
    /// once; whatever it writes is image data.
    #[verifier::external_body]
    fn write_image_rows(&mut self, buf: &[u8]) -> (r: std::io::Result<()>)
        requires
            !old(self).rows_sent@,
        ensures
            final(self).rows_sent@,
            final(self).preamble@ == old(self).preamble@,
            final(self).header@ == old(self).header@,
    {
        self.holder.encoder.write_image_rows(buf)
    }

    /// Relies on mtpng's `Encoder::finish`: where it succeeds, the buffer
    /// holds the preamble followed by `IDAT` chunks and a closing empty
    /// `IEND`, each written by mtpng's chunk writer.
    #[verifier::external_body]
    fn finish(self) -> (r: std::io::Result<Vec<u8>>)
        ensures
            r matches Ok(out) ==> exists|rest: Seq<ChunkFrame>|
                is_image_data(rest) && out@ == self.preamble@ + #[trigger] chunks_bytes(rest),
    {
        self.holder.encoder.finish()
    }
}

/// Why writing a PNG failed.
#[derive(Debug)]
pub enum EncodeError {
    /// The encoder refused the image or could not write it.
    Codec(std::io::Error),
    /// The output raster would not fit in memory.
    TooLarge,
}

/// Channel `c` (0 red, 1 green, 2 blue, 3 alpha) of `p`.
pub open spec fn channel(p: PixelRGBA, c: int) -> u8 {
    if c == 0 {
        p.r
    } else if c == 1 {
        p.g
    } else if c == 2 {
        p.b
    } else {
        p.a
    }
}

/// Pixels laid out as bytes, four per pixel in the order red, green, blue,
/// alpha.
pub open spec fn rgba_bytes(pixels: Seq<PixelRGBA>) -> Seq<u8> {
    Seq::new(4 * pixels.len(), |i: int| channel(pixels[i / 4], i % 4))
}

/// The image's pixels as bytes, four per pixel in the order red, green,
/// blue, alpha, row-major.
pub fn raster_bytes(image: &RasterImage) -> (r: Vec<u8>)
    requires
        4 * image.pixels@.len() <= usize::MAX,
    ensures
        r@ == rgba_bytes(image.pixels@),
{
    let n: usize = image.pixels.len();
    let mut bytes: Vec<u8> = Vec::with_capacity(4 * n);
    let mut i: usize = 0;
    while i < n
        invariant
            n == image.pixels@.len(),
            4 * n <= usize::MAX,
            i <= n,
            bytes@.len() == 4 * i,
            forall|j: int| 0 <= j < 4 * i ==> #[trigger] bytes@[j] == channel(image.pixels@[j / 4], j % 4),
        decreases n - i,
    {
        let p = image.pixels[i];
        bytes.push(p.r);
        bytes.push(p.g);
        bytes.push(p.b);
        bytes.push(p.a);
        proof {
            assert forall|j: int| 4 * i <= j < 4 * i + 4 implies #[trigger] bytes@[j] == channel(
                image.pixels@[j / 4],
                j % 4,
            ) by {
                assert(j / 4 == i as int);
                assert(j % 4 == j - 4 * i);
            }
        }
        i = i + 1;
    }
    assert(bytes@ =~= rgba_bytes(image.pixels@));
    bytes
}

/// The chunks of `entries`, in order, as mtpng writes them.
pub open spec fn chunk_frames(entries: Seq<(Seq<u8>, Seq<u8>)>) -> Seq<u8>
    decreases entries.len(),
{
    if entries.len() == 0 {
        Seq::empty()
    } else {
        chunk_frames(entries.drop_last()) + framed_chunk(entries.last().0, entries.last().1)
    }
}

/// Every entry has a 4-byte tag and data under 4 GiB.
pub open spec fn chunks_writable(entries: Seq<(Seq<u8>, Seq<u8>)>) -> bool {
    forall|i: int| 0 <= i < entries.len() ==> (#[trigger] entries[i]).0.len() == 4 && entries[i].1.len() <= u32::MAX
}

/// The start of the PNG file of a `width` x `height` 8-bit RGBA image with
/// extra chunks `entries`: signature, `IHDR`, then the extra chunks verbatim.
pub open spec fn png_head(width: u32, height: u32, entries: Seq<(Seq<u8>, Seq<u8>)>) -> Seq<u8> {
    png_signature() + framed_chunk(ihdr_tag(), ihdr_data(width, height, 8, 6)) + chunk_frames(entries)
}

/// `bytes` is a PNG file as mtpng writes it for such an image: the head,
/// then image data chunks.
pub open spec fn is_encoding(bytes: Seq<u8>, width: u32, height: u32, entries: Seq<(Seq<u8>, Seq<u8>)>) -> bool {
    exists|rest: Seq<ChunkFrame>|
        is_image_data(rest) && bytes == png_head(width, height, entries) + #[trigger] chunks_bytes(rest)
}

/// Neither side is zero and every extra chunk can be written.
pub open spec fn encodable(width: u32, height: u32, entries: Seq<(Seq<u8>, Seq<u8>)>) -> bool {
    width > 0 && height > 0 && chunks_writable(entries)
}

/// Encodes `image` as an 8-bit truecolor-with-alpha PNG file held in memory.
/// Each chunk of `chunks` is written verbatim, under its own type, after
/// `IHDR` and before the pixel data. A zero side or a chunk that cannot be
/// written fails before compression; otherwise mtpng decides.
pub fn encode_png(image: &RasterImage, chunks: &ChunkSet) -> (r: Result<Vec<u8>, EncodeError>)
    requires
        image.wf(),
        chunks.wf(),
        encodable_size(image.width, image.height),
    ensures
        !encodable(image.width, image.height, chunks.entries_view()) ==> r.is_err(),
        r matches Err(e) ==> e is Codec,
        r matches Ok(out) ==> is_encoding(out@, image.width, image.height, chunks.entries_view()),
{
    let mut header = PngHeader::new();
    if let Err(e) = header.set_size(image.width, image.height) {
        return Err(EncodeError::Codec(e));
    }
    if let Err(e) = header.set_color(6, 8) {
        return Err(EncodeError::Codec(e));
    }
    let mut stream = PngStream::new();
    if let Err(e) = stream.write_header(&header) {
        return Err(EncodeError::Codec(e));
    }
    let ghost entries = chunks.entries_view();
    let ghost start = stream.preamble@;
    let count: usize = chunks.len();
    let mut i: usize = 0;
    assert(entries.take(0) =~= Seq::<(Seq<u8>, Seq<u8>)>::empty());
    while i < count
        invariant
            count == entries.len(),
            entries == chunks.entries_view(),
            i <= count,
            start == png_signature() + framed_chunk(ihdr_tag(), ihdr_data(image.width, image.height, 8, 6)),
            stream.preamble@ == start + chunk_frames(entries.take(i as int)),
            stream.header@ == Some((image.width, image.height, 8u8, 6u8)),
            !stream.rows_sent@,
            forall|j: int| 0 <= j < i ==> (#[trigger] entries[j]).0.len() == 4 && entries[j].1.len() <= u32::MAX,
        decreases count - i,
    {
        let tag = chunks.tag_at(i);
        let data = chunks.data_at(i);
        if let Err(e) = stream.write_chunk(tag.as_slice(), data.as_slice()) {
            return Err(EncodeError::Codec(e));
        }
        assert(entries.take(i + 1).drop_last() =~= entries.take(i as int));
        assert(entries.take(i + 1).last() == entries[i as int]);
        assert(chunk_frames(entries.take(i + 1)) == chunk_frames(entries.take(i as int)) + framed_chunk(
            entries[i as int].0,
            entries[i as int].1,
        ));
        assert(stream.preamble@ =~= start + chunk_frames(entries.take(i + 1)));
        i = i + 1;
    }
    assert(entries.take(count as int) =~= entries);
    proof {
        assert(image.pixels@.len() * 4 <= usize::MAX) by (nonlinear_arith)
            requires
                image.pixels@.len() == image.width * image.height,
                (4 * image.width + 1) * image.height <= usize::MAX,
        ;
    }
    let bytes = raster_bytes(image);
    if let Err(e) = stream.write_image_rows(bytes.as_slice()) {
        return Err(EncodeError::Codec(e));
    }
    let ghost preamble = stream.preamble@;
    match stream.finish() {
        Ok(out) => {
            proof {
                let rest = choose|rest: Seq<ChunkFrame>| is_image_data(rest) && out@ == preamble + #[trigger] chunks_bytes(rest);
                assert(out@ == png_head(image.width, image.height, entries) + chunks_bytes(rest));
            }
            Ok(out)
        },
        Err(e) => Err(EncodeError::Codec(e)),
    }
}

/// Tiles `src` into an `output_width` x `output_height` raster and encodes it
/// as a PNG that carries `chunks`. Compositing finishes before encoding
/// starts. `TooLarge` where the encoder's size arithmetic would overflow;
/// otherwise as `encode_png` on the tiled raster.
pub fn create_pattern_png(
    src: &RasterImage,
    chunks: &ChunkSet,
    output_width: u32,
    output_height: u32,
) -> (r: Result<Vec<u8>, EncodeError>)
    requires
        tileable(*src),
        chunks.wf(),
    ensures
        !encodable_size(output_width, output_height) <==> r matches Err(EncodeError::TooLarge),
        encodable_size(output_width, output_height) && !encodable(output_width, output_height, chunks.entries_view())
            ==> r.is_err(),
        encodable_size(output_width, output_height) ==> (r matches Err(e) ==> e is Codec),
        r matches Ok(out) ==> is_encoding(out@, output_width, output_height, chunks.entries_view()),
{
    let w: u128 = output_width as u128;
    let h: u128 = output_height as u128;
    let max: u128 = usize::MAX as u128;
    let row: u128 = 4 * w + 1;
    proof {
        assert(row * h <= 0x4_0000_0000 * 0x1_0000_0000) by (nonlinear_arith)
            requires
                row <= 0x4_0000_0000,
                h <= 0x1_0000_0000,
        ;
        assert((row * h / 262144 + 1) * h <= (0x4_0000_0000 * 0x1_0000_0000 / 262144 + 1) * 0x1_0000_0000) by (nonlinear_arith)
            requires
                row * h <= 0x4_0000_0000 * 0x1_0000_0000,
                h <= 0x1_0000_0000,
        ;
    }
    if 32 * w > max || row * h > max || (row * h / 262144 + 1) * h > max {
        return Err(EncodeError::TooLarge);
    }
    proof {
        assert(output_width as int * output_height as int <= usize::MAX) by (nonlinear_arith)
            requires
                (4 * output_width as int + 1) * output_height as int <= usize::MAX,
        ;
    }
    let pattern = create_tiled_image(src, output_width, output_height);
    encode_png(&pattern, chunks)
}

/// The chunks of `entries` with the checksums that mtpng writes.
pub open spec fn frames_of(entries: Seq<(Seq<u8>, Seq<u8>)>) -> Seq<ChunkFrame> {
    Seq::new(
        entries.len(),
        |i: int| (entries[i].0, entries[i].1, be_u32_bytes(crc32_of(entries[i].0 + entries[i].1) as int)),
    )
}

proof fn lemma_chunk_frames_as_chunks_bytes(entries: Seq<(Seq<u8>, Seq<u8>)>)
    ensures
        chunk_frames(entries) == chunks_bytes(frames_of(entries)),
    decreases entries.len(),
{
    if entries.len() > 0 {
        let init = entries.drop_last();
        lemma_chunk_frames_as_chunks_bytes(init);
        let c = frames_of(entries).last();
        assert(frames_of(entries) =~= frames_of(init).push(c));
        lemma_chunks_bytes_push(frames_of(init), c);
    } else {
        assert(frames_of(entries) =~= Seq::<ChunkFrame>::empty());
    }
}

proof fn lemma_chunks_bytes_push(cs: Seq<ChunkFrame>, c: ChunkFrame)
    ensures
        chunks_bytes(cs.push(c)) == chunks_bytes(cs) + chunk_bytes(c),
    decreases cs.len(),
{
    if cs.len() == 0 {
        let one = cs.push(c);
        assert(one.drop_first() =~= Seq::<ChunkFrame>::empty());
        assert(one[0] == c);
        assert(chunks_bytes(one.drop_first()) == Seq::<u8>::empty());
        assert(chunks_bytes(cs) == Seq::<u8>::empty());
        assert(chunks_bytes(one) =~= chunks_bytes(cs) + chunk_bytes(c));
    } else {
        assert(cs.push(c).drop_first() =~= cs.drop_first().push(c));
        lemma_chunks_bytes_push(cs.drop_first(), c);
        assert(chunks_bytes(cs.push(c)) =~= chunks_bytes(cs) + chunk_bytes(c));
    }
}

/// Four ASCII bytes are valid UTF-8.
proof fn lemma_ascii_tag_is_utf8(t: Seq<u8>)
    requires
        t.len() == 4,
        forall|i: int| 0 <= i < 4 ==> t[i] < 0x80,
    ensures
        valid_utf8(t),
{
    reveal_with_fuel(valid_utf8, 5);
    let t1 = pop_first_scalar(t);
    assert(t1 =~= t.subrange(1, 4));
    let t2 = pop_first_scalar(t1);
    assert(t2 =~= t.subrange(2, 4));
    let t3 = pop_first_scalar(t2);
    assert(t3 =~= t.subrange(3, 4));
    assert(pop_first_scalar(t3) =~= Seq::<u8>::empty());
}

proof fn lemma_chunks_bytes_concat(a: Seq<ChunkFrame>, b: Seq<ChunkFrame>)
    ensures
        chunks_bytes(a + b) == chunks_bytes(a) + chunks_bytes(b),
    decreases a.len(),
{
    if a.len() == 0 {
        assert(a + b =~= b);
        assert(chunks_bytes(a) == Seq::<u8>::empty());
        assert(chunks_bytes(a + b) =~= chunks_bytes(a) + chunks_bytes(b));
    } else {
        assert((a + b).drop_first() =~= a.drop_first() + b);
        assert((a + b)[0] == a[0]);
        lemma_chunks_bytes_concat(a.drop_first(), b);
        assert(chunks_bytes(a + b) =~= chunks_bytes(a) + chunks_bytes(b));
    }
}

proof fn lemma_add_preserved_concat(acc: Map<Seq<u8>, Seq<u8>>, a: Seq<ChunkFrame>, b: Seq<ChunkFrame>)
    ensures
        add_preserved(acc, a + b) == add_preserved(add_preserved(acc, a), b),
    decreases a.len(),
{
    if a.len() == 0 {
        assert(a + b =~= b);
    } else {
        assert((a + b).drop_first() =~= a.drop_first() + b);
        assert((a + b)[0] == a[0]);
        let next = if is_preserved_tag(a[0].0) {
            acc.insert(a[0].0, a[0].1)
        } else {
            acc
        };
        lemma_add_preserved_concat(next, a.drop_first(), b);
    }
}

proof fn lemma_add_preserved_skips(acc: Map<Seq<u8>, Seq<u8>>, cs: Seq<ChunkFrame>)
    requires
        forall|i: int| 0 <= i < cs.len() ==> !is_preserved_tag(#[trigger] cs[i].0),
    ensures
        add_preserved(acc, cs) == acc,
    decreases cs.len(),
{
    if cs.len() > 0 {
        assert(!is_preserved_tag(cs[0].0));
        assert forall|i: int| 0 <= i < cs.drop_first().len() implies !is_preserved_tag(
            #[trigger] cs.drop_first()[i].0,
        ) by {
            assert(cs.drop_first()[i] == cs[i + 1]);
        }
        lemma_add_preserved_skips(acc, cs.drop_first());
    }
}

/// No chunk of `cs` has tag `t`.
pub open spec fn tag_absent(cs: Seq<ChunkFrame>, t: Seq<u8>) -> bool {
    forall|i: int| 0 <= i < cs.len() ==> #[trigger] cs[i].0 != t
}

proof fn lemma_add_preserved_distinct(acc: Map<Seq<u8>, Seq<u8>>, cs: Seq<ChunkFrame>)
    requires
        forall|i: int| 0 <= i < cs.len() ==> is_preserved_tag(#[trigger] cs[i].0),
        forall|i: int, j: int| 0 <= i < j < cs.len() ==> #[trigger] cs[i].0 != #[trigger] cs[j].0,
    ensures
        forall|i: int|
            0 <= i < cs.len() ==> add_preserved(acc, cs).contains_key(#[trigger] cs[i].0) && add_preserved(
                acc,
                cs,
            )[cs[i].0] == cs[i].1,
        forall|t: Seq<u8>|
            tag_absent(cs, t) ==> (#[trigger] add_preserved(acc, cs).contains_key(t) == acc.contains_key(t) && (
            acc.contains_key(t) ==> add_preserved(acc, cs)[t] == acc[t])),
    decreases cs.len(),
{
    if cs.len() > 0 {
        let c = cs[0];
        let rest = cs.drop_first();
        let next = acc.insert(c.0, c.1);
        assert(is_preserved_tag(c.0));
        assert forall|i: int| 0 <= i < rest.len() implies is_preserved_tag(#[trigger] rest[i].0) by {
            assert(rest[i] == cs[i + 1]);
        }
        assert forall|i: int, j: int| 0 <= i < j < rest.len() implies #[trigger] rest[i].0 != #[trigger] rest[j].0 by {
            assert(rest[i] == cs[i + 1]);
            assert(rest[j] == cs[j + 1]);
        }
        lemma_add_preserved_distinct(next, rest);
        let r = add_preserved(acc, cs);
        assert(r == add_preserved(next, rest));
        assert forall|i: int| 0 <= i < rest.len() implies #[trigger] rest[i].0 != c.0 by {
            assert(rest[i] == cs[i + 1]);
        }
        assert(tag_absent(rest, c.0));
        assert(next.contains_key(c.0));
        assert(next[c.0] == c.1);
        assert(add_preserved(next, rest).contains_key(c.0) == next.contains_key(c.0));
        assert(add_preserved(next, rest)[c.0] == next[c.0]);
        assert forall|i: int| 0 <= i < cs.len() implies r.contains_key(#[trigger] cs[i].0) && r[cs[i].0] == cs[i].1 by {
            if i > 0 {
                assert(cs[i] == rest[i - 1]);
            }
        }
        assert forall|t: Seq<u8>| tag_absent(cs, t) implies (#[trigger] r.contains_key(t) == acc.contains_key(t)
            && (acc.contains_key(t) ==> r[t] == acc[t])) by {
            assert(cs[0].0 != t);
            assert forall|i: int| 0 <= i < rest.len() implies #[trigger] rest[i].0 != t by {
                assert(rest[i] == cs[i + 1]);
            }
            assert(tag_absent(rest, t));
        }
    }
}

/// The `IHDR` chunk as mtpng writes it.
pub open spec fn ihdr_frame(width: u32, height: u32) -> ChunkFrame {
    (ihdr_tag(), ihdr_data(width, height, 8, 6), be_u32_bytes(
        crc32_of(ihdr_tag() + ihdr_data(width, height, 8, 6)) as int,
    ))
}

proof fn lemma_encoding_layout(
    width: u32,
    height: u32,
    entries: Seq<(Seq<u8>, Seq<u8>)>,
    rest: Seq<ChunkFrame>,
)
    ensures
        png_head(width, height, entries) + chunks_bytes(rest) == png_signature() + chunks_bytes(
            seq![ihdr_frame(width, height)] + frames_of(entries) + rest,
        ),
{
    let ihdr = ihdr_frame(width, height);
    let head = seq![ihdr] + frames_of(entries);
    lemma_chunk_frames_as_chunks_bytes(entries);
    assert(head.drop_first() =~= frames_of(entries));
    assert(head[0] == ihdr);
    assert(chunk_bytes(ihdr) =~= framed_chunk(ihdr_tag(), ihdr_data(width, height, 8, 6)));
    assert(chunks_bytes(head) == chunk_bytes(ihdr) + chunks_bytes(frames_of(entries)));
    lemma_chunks_bytes_concat(head, rest);
    assert(png_head(width, height, entries) + chunks_bytes(rest) =~= png_signature() + chunks_bytes(head + rest));
}

proof fn lemma_encoding_frames_valid(
    width: u32,
    height: u32,
    entries: Seq<(Seq<u8>, Seq<u8>)>,
    rest: Seq<ChunkFrame>,
)
    requires
        is_image_data(rest),
        chunks_writable(entries),
        forall|i: int| 0 <= i < entries.len() ==> valid_utf8(#[trigger] entries[i].0),
    ensures
        forall|i: int|
            0 <= i < (seq![ihdr_frame(width, height)] + frames_of(entries) + rest).len() ==> is_chunk_frame(
                #[trigger] (seq![ihdr_frame(width, height)] + frames_of(entries) + rest)[i],
            ),
{
    let head = seq![ihdr_frame(width, height)] + frames_of(entries);
    let cs = head + rest;
    lemma_ascii_tag_is_utf8(ihdr_tag());
    assert forall|i: int| 0 <= i < cs.len() implies is_chunk_frame(#[trigger] cs[i]) by {
        if i == 0 {
            assert(cs[i] == ihdr_frame(width, height));
        } else if i < head.len() {
            assert(cs[i] == frames_of(entries)[i - 1]);
            assert(entries[i - 1].0.len() == 4 && entries[i - 1].1.len() <= u32::MAX);
        } else {
            assert(cs[i] == rest[i - head.len()]);
        }
    }
}

/// Scanning a PNG file in the form that `encode_png` produces gives back
/// exactly the preserved chunks among those it was given, byte for byte; the
/// header and the image data contribute none.
#[verifier::rlimit(60)]
pub proof fn lemma_encoding_scans_back(
    bytes: Seq<u8>,
    width: u32,
    height: u32,
    entries: Seq<(Seq<u8>, Seq<u8>)>,
)
    requires
        is_encoding(bytes, width, height, entries),
        chunks_writable(entries),
        forall|i: int| 0 <= i < entries.len() ==> valid_utf8(#[trigger] entries[i].0),
    ensures
        scan_chunks(bytes) == Ok::<Map<Seq<u8>, Seq<u8>>, DecodeError>(
            add_preserved(Map::empty(), frames_of(entries)),
        ),
{
    let rest = choose|rest: Seq<ChunkFrame>|
        is_image_data(rest) && bytes == png_head(width, height, entries) + #[trigger] chunks_bytes(rest);
    let head = seq![ihdr_frame(width, height)] + frames_of(entries);
    let cs = head + rest;
    lemma_encoding_layout(width, height, entries, rest);
    lemma_encoding_frames_valid(width, height, entries, rest);
    assert(bytes == png_signature() + chunks_bytes(cs) + Seq::<u8>::empty());
    lemma_scan_over_chunks(png_signature(), cs, Seq::empty(), Map::empty());
    assert(bytes.subrange(0, 8) =~= png_signature());
    assert forall|i: int| 0 <= i < rest.len() implies !is_preserved_tag(#[trigger] rest[i].0) by {
        assert(rest[i].0 == idat_tag() || rest[i].0 == iend_tag());
    }
    lemma_add_preserved_concat(Map::empty(), head, rest);
    lemma_add_preserved_skips(add_preserved(Map::empty(), head), rest);
    assert(!is_preserved_tag(ihdr_tag()));
    assert(head.drop_first() =~= frames_of(entries));
}

/// A chunk set of preserved types, each payload under 4 GiB, that
/// `encode_png` wrote comes back whole: scanning the file gives the set.
#[verifier::rlimit(50)]
pub proof fn lemma_encoded_set_scans_back(set: &ChunkSet, bytes: Seq<u8>, width: u32, height: u32)
    requires
        set.wf(),
        is_encoding(bytes, width, height, set.entries_view()),
        forall|t: Seq<u8>| #[trigger] set@.contains_key(t) ==> is_preserved_tag(t) && set@[t].len() <= u32::MAX,
    ensures
        scan_chunks(bytes) == Ok::<Map<Seq<u8>, Seq<u8>>, DecodeError>(set@),
{
    let ev = set.entries_view();
    set.lemma_entries_are_the_map();
    assert forall|i: int| 0 <= i < ev.len() implies valid_utf8(#[trigger] ev[i].0) && ev[i].0.len() == 4 && ev[i].1.len() <= u32::MAX by {
        assert(set@.contains_key(ev[i].0));
        let t = ev[i].0;
        assert(t.len() == 4);
        assert(forall|k: int| 0 <= k < 4 ==> t[k] < 0x80);
        lemma_ascii_tag_is_utf8(t);
    }
    lemma_encoding_scans_back(bytes, width, height, ev);
    let fs = frames_of(ev);
    assert forall|i: int| 0 <= i < fs.len() implies is_preserved_tag(#[trigger] fs[i].0) by {
        assert(fs[i].0 == ev[i].0);
        assert(set@.contains_key(ev[i].0));
    }
    assert forall|i: int, j: int| 0 <= i < j < fs.len() implies #[trigger] fs[i].0 != #[trigger] fs[j].0 by {
        assert(fs[i].0 == ev[i].0);
        assert(fs[j].0 == ev[j].0);
    }
    lemma_add_preserved_distinct(Map::empty(), fs);
    let r = add_preserved(Map::empty(), fs);
    assert forall|t: Seq<u8>| #[trigger] r.contains_key(t) <==> set@.contains_key(t) by {
        if set@.contains_key(t) {
            let i = choose|i: int| 0 <= i < ev.len() && #[trigger] ev[i].0 == t;
            assert(fs[i].0 == t);
        }
        if !set@.contains_key(t) {
            assert forall|i: int| 0 <= i < fs.len() implies #[trigger] fs[i].0 != t by {
                assert(fs[i].0 == ev[i].0);
            }
            assert(tag_absent(fs, t));
        }
    }
    assert forall|t: Seq<u8>| #[trigger] r.contains_key(t) implies r[t] == set@[t] by {
        let i = choose|i: int| 0 <= i < ev.len() && #[trigger] ev[i].0 == t;
        assert(fs[i].0 == t && fs[i].1 == ev[i].1);
    }
    assert(r =~= set@);
}

} // verus!
