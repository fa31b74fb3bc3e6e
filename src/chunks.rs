use vstd::prelude::*;
use vstd::slice::{slice_subrange, slice_to_vec};
use vstd::utf8::valid_utf8;

verus! {

/// Why a byte stream was not accepted as a PNG file.
#[derive(Clone, Copy, Debug, PartialEq, Eq, Structural)]
pub enum DecodeError {
    /// The stream does not start with the 8-byte PNG signature.
    BadSignature,
    /// A chunk header or a chunk's declared length runs past the end of the stream.
    Truncated,
    /// A chunk type is not valid UTF-8.
    BadChunkType,
    /// A `pHYs` payload is shorter than its 9 bytes.
    MalformedPhys,
}

/// One preserved chunk: its 4-byte type tag and its raw payload.
#[derive(Debug)]
pub struct Chunk {
    pub tag: Vec<u8>,
    pub data: Vec<u8>,
}

/// Raw payloads of PNG chunks keyed by their type tag; each tag at most once.
pub struct ChunkSet {
    entries: Vec<Chunk>,
    contents: Ghost<Map<Seq<u8>, Seq<u8>>>,
}

impl View for ChunkSet {
    type V = Map<Seq<u8>, Seq<u8>>;

    closed spec fn view(&self) -> Map<Seq<u8>, Seq<u8>> {
        self.contents@
    }
}

impl ChunkSet {
    /// The entries in storage order, as (tag, payload) pairs.
    pub closed spec fn entries_view(&self) -> Seq<(Seq<u8>, Seq<u8>)> {
        Seq::new(self.entries@.len(), |i: int| (self.entries@[i].tag@, self.entries@[i].data@))
    }

    /// Tags are unique, and the entries are exactly the map's pairs.
    pub closed spec fn wf(&self) -> bool {
        &&& forall|i: int, j: int|
            0 <= i < j < self.entries@.len() ==> #[trigger] self.entries@[i].tag@
                != #[trigger] self.entries@[j].tag@
        &&& forall|i: int|
            0 <= i < self.entries@.len() ==> {
                &&& self.contents@.contains_key(#[trigger] self.entries@[i].tag@)
                &&& self.contents@[self.entries@[i].tag@] == self.entries@[i].data@
            }
        &&& forall|t: Seq<u8>|
            #[trigger] self.contents@.contains_key(t) ==> exists|i: int|
                0 <= i < self.entries@.len() && #[trigger] self.entries@[i].tag@ == t
    }

    /// The entries in storage order are exactly the map's pairs: each entry's
    /// tag maps to its payload, each key of the map has an entry, and no tag
    /// appears twice.
    pub proof fn lemma_entries_are_the_map(&self)
        requires
            self.wf(),
        ensures
            forall|i: int|
                0 <= i < self.entries_view().len() ==> {
                    &&& self@.contains_key(#[trigger] self.entries_view()[i].0)
                    &&& self@[self.entries_view()[i].0] == self.entries_view()[i].1
                },
            forall|t: Seq<u8>|
                #[trigger] self@.contains_key(t) ==> exists|i: int|
                    0 <= i < self.entries_view().len() && #[trigger] self.entries_view()[i].0 == t,
            forall|i: int, j: int|
                0 <= i < j < self.entries_view().len() ==> #[trigger] self.entries_view()[i].0
                    != #[trigger] self.entries_view()[j].0,
    {
        let ev = self.entries_view();
        assert forall|i: int| 0 <= i < ev.len() implies {
            &&& self@.contains_key(#[trigger] ev[i].0)
            &&& self@[ev[i].0] == ev[i].1
        } by {
            assert(ev[i].0 == self.entries@[i].tag@);
        }
        assert forall|t: Seq<u8>| #[trigger] self@.contains_key(t) implies exists|i: int|
            0 <= i < ev.len() && #[trigger] ev[i].0 == t by {
            let k = choose|k: int| 0 <= k < self.entries@.len() && #[trigger] self.entries@[k].tag@ == t;
            assert(ev[k].0 == t);
        }
        assert forall|i: int, j: int| 0 <= i < j < ev.len() implies #[trigger] ev[i].0 != #[trigger] ev[j].0 by {
            assert(ev[i].0 == self.entries@[i].tag@);
            assert(ev[j].0 == self.entries@[j].tag@);
        }
    }

    /// The empty set.
    pub fn new() -> (r: ChunkSet)
        ensures
            r.wf(),
            r@ == Map::<Seq<u8>, Seq<u8>>::empty(),
    {
        ChunkSet { entries: Vec::new(), contents: Ghost(Map::empty()) }
    }

    /// Number of distinct tags held.
    pub fn len(&self) -> (r: usize)
        requires
            self.wf(),
        ensures
            r == self.entries_view().len(),
    {
        self.entries.len()
    }

    /// Tag of the entry at storage position `i`.
    pub fn tag_at(&self, i: usize) -> (r: &Vec<u8>)
        requires
            i < self.entries_view().len(),
        ensures
            r@ == self.entries_view()[i as int].0,
    {
        &self.entries[i].tag
    }

    /// Payload of the entry at storage position `i`.
    pub fn data_at(&self, i: usize) -> (r: &Vec<u8>)
        requires
            i < self.entries_view().len(),
        ensures
            r@ == self.entries_view()[i as int].1,
    {
        &self.entries[i].data
    }

    /// Position of `tag` in storage order, if present.
    fn find(&self, tag: &[u8]) -> (r: Option<usize>)
        requires
            self.wf(),
        ensures
            match r {
                Some(i) => i < self.entries@.len() && self.entries@[i as int].tag@ == tag@,
                None => !self@.contains_key(tag@),
            },
    {
        let mut i: usize = 0;
        while i < self.entries.len()
            invariant
                self.wf(),
                i <= self.entries@.len(),
                forall|j: int| 0 <= j < i ==> self.entries@[j].tag@ != tag@,
            decreases self.entries@.len() - i,
        {
            if bytes_equal(&self.entries[i].tag, tag) {
                return Some(i);
            }
            i = i + 1;
        }
        None
    }

    /// The payload stored under `tag`, if any.
    pub fn get(&self, tag: &[u8]) -> (r: Option<&Vec<u8>>)
        requires
            self.wf(),
        ensures
            match r {
                Some(d) => self@.contains_key(tag@) && d@ == self@[tag@],
                None => !self@.contains_key(tag@),
            },
    {
        match self.find(tag) {
            Some(i) => Some(&self.entries[i].data),
            None => None,
        }
    }

    /// Stores `data` under `tag`, replacing an earlier payload of that tag.
    pub fn insert(&mut self, tag: Vec<u8>, data: Vec<u8>)
        requires
            old(self).wf(),
        ensures
            final(self).wf(),
            final(self)@ == old(self)@.insert(tag@, data@),
    {
        let ghost t = tag@;
        let ghost d = data@;
        match self.find(tag.as_slice()) {
            Some(i) => {
                self.entries[i].data = data;
                self.contents = Ghost(self.contents@.insert(t, d));
                assert forall|s: Seq<u8>| #[trigger] self.contents@.contains_key(s) implies exists|
                    j: int,
                | 0 <= j < self.entries@.len() && #[trigger] self.entries@[j].tag@ == s by {
                    if s == t {
                        assert(self.entries@[i as int].tag@ == s);
                    } else {
                        assert(old(self).contents@.contains_key(s));
                        let k = choose|k: int|
                            0 <= k < old(self).entries@.len() && #[trigger] old(self).entries@[k].tag@ == s;
                        assert(self.entries@[k].tag@ == s);
                    }
                }
            },
            None => {
                self.entries.push(Chunk { tag, data });
                self.contents = Ghost(self.contents@.insert(t, d));
                let ghost n = self.entries@.len() - 1;
                assert(self.entries@[n].tag@ == t);
                assert forall|s: Seq<u8>| #[trigger] self.contents@.contains_key(s) implies exists|
                    j: int,
                | 0 <= j < self.entries@.len() && #[trigger] self.entries@[j].tag@ == s by {
                    if s == t {
                        assert(self.entries@[n].tag@ == s);
                    } else {
                        assert(old(self).contents@.contains_key(s));
                        let k = choose|k: int|
                            0 <= k < old(self).entries@.len() && #[trigger] old(self).entries@[k].tag@ == s;
                        assert(self.entries@[k].tag@ == s);
                    }
                }
            },
        }
    }
}

/// Byte-for-byte equality of two slices.
fn bytes_equal(a: &[u8], b: &[u8]) -> (r: bool)
    ensures
        r == (a@ == b@),
{
    if a.len() != b.len() {
        return false;
    }
    let mut i: usize = 0;
    while i < a.len()
        invariant
            a@.len() == b@.len(),
            i <= a@.len(),
            forall|j: int| 0 <= j < i ==> a@[j] == b@[j],
        decreases a@.len() - i,
    {
        if a[i] != b[i] {
            return false;
        }
        i = i + 1;
    }
    assert(a@ =~= b@);
    true
}

/// The 8 bytes that open every PNG file.
pub open spec fn png_signature() -> Seq<u8> {
    seq![0x89u8, 0x50u8, 0x4eu8, 0x47u8, 0x0du8, 0x0au8, 0x1au8, 0x0au8]
}

/// The big-endian unsigned 32-bit integer in bytes `i .. i + 4` of `b`.
pub open spec fn be_u32_at(b: Seq<u8>, i: int) -> int {
    b[i] as int * 16777216 + b[i + 1] as int * 65536 + b[i + 2] as int * 256 + b[i + 3] as int
}

/// The chunk types whose payloads travel from input to output: chromaticity,
/// gamma, embedded colour profile, physical pixel density and the sRGB marker.
pub open spec fn is_preserved_tag(t: Seq<u8>) -> bool {
    ||| t == seq![0x63u8, 0x48u8, 0x52u8, 0x4du8]
    ||| t == seq![0x67u8, 0x41u8, 0x4du8, 0x41u8]
    ||| t == seq![0x69u8, 0x43u8, 0x43u8, 0x50u8]
    ||| t == seq![0x70u8, 0x48u8, 0x59u8, 0x73u8]
    ||| t == seq![0x73u8, 0x52u8, 0x47u8, 0x42u8]
}

/// Walks the chunks of `b` from offset `pos`, adding each preserved chunk to
/// `acc`. A chunk is `[length][type][data][crc]`: a 4-byte big-endian data
/// length, a 4-byte type, the data, and a 4-byte checksum that is not checked.
pub open spec fn scan_from(b: Seq<u8>, pos: int, acc: Map<Seq<u8>, Seq<u8>>) -> Result<
    Map<Seq<u8>, Seq<u8>>,
    DecodeError,
>
    decreases b.len() - pos,
{
    if pos < 0 || pos >= b.len() {
        Ok(acc)
    } else if b.len() - pos < 12 || be_u32_at(b, pos) + 12 > b.len() - pos {
        Err(DecodeError::Truncated)
    } else {
        let len = be_u32_at(b, pos);
        let tag = b.subrange(pos + 4, pos + 8);
        if !valid_utf8(tag) {
            Err(DecodeError::BadChunkType)
        } else {
            let next_acc = if is_preserved_tag(tag) {
                acc.insert(tag, b.subrange(pos + 8, pos + 8 + len))
            } else {
                acc
            };
            scan_from(b, pos + 12 + len, next_acc)
        }
    }
}

/// The preserved chunks of the PNG byte stream `b`, a later chunk of a type
/// replacing an earlier one.
pub open spec fn scan_chunks(b: Seq<u8>) -> Result<Map<Seq<u8>, Seq<u8>>, DecodeError> {
    if b.len() < 8 || b.subrange(0, 8) != png_signature() {
        Err(DecodeError::BadSignature)
    } else {
        scan_from(b, 8, Map::empty())
    }
}

/// The 4 big-endian bytes of `n`.
pub open spec fn be_u32_bytes(n: int) -> Seq<u8> {
    seq![(n / 16777216 % 256) as u8, (n / 65536 % 256) as u8, (n / 256 % 256) as u8, (n % 256) as u8]
}

/// A chunk as it is laid out in a file: `(type, data, checksum)`.
pub type ChunkFrame = (Seq<u8>, Seq<u8>, Seq<u8>);

/// The bytes of one chunk: data length, type, data and checksum.
pub open spec fn chunk_bytes(c: ChunkFrame) -> Seq<u8> {
    be_u32_bytes(c.1.len() as int) + c.0 + c.1 + c.2
}

/// The bytes of consecutive chunks.
pub open spec fn chunks_bytes(cs: Seq<ChunkFrame>) -> Seq<u8>
    decreases cs.len(),
{
    if cs.len() == 0 {
        Seq::empty()
    } else {
        chunk_bytes(cs[0]) + chunks_bytes(cs.drop_first())
    }
}

/// A chunk that a PNG file can hold: a 4-byte UTF-8 type, a data length that
/// fits 32 bits, and a 4-byte checksum (whatever its value).
pub open spec fn is_chunk_frame(c: ChunkFrame) -> bool {
    &&& c.0.len() == 4
    &&& valid_utf8(c.0)
    &&& c.1.len() < 4294967296
    &&& c.2.len() == 4
}

/// `acc` with the preserved chunks of `cs` added in order, a later chunk of a
/// type replacing an earlier one.
pub open spec fn add_preserved(acc: Map<Seq<u8>, Seq<u8>>, cs: Seq<ChunkFrame>) -> Map<Seq<u8>, Seq<u8>>
    decreases cs.len(),
{
    if cs.len() == 0 {
        acc
    } else {
        let next = if is_preserved_tag(cs[0].0) {
            acc.insert(cs[0].0, cs[0].1)
        } else {
            acc
        };
        add_preserved(next, cs.drop_first())
    }
}

pub proof fn lemma_be_u32_bytes(n: int)
    requires
        0 <= n < 4294967296,
    ensures
        be_u32_bytes(n).len() == 4,
        be_u32_at(be_u32_bytes(n), 0) == n,
{
    let b = be_u32_bytes(n);
    assert(b[0] as int == n / 16777216);
    assert(b[1] as int == n / 65536 % 256);
    assert(b[2] as int == n / 256 % 256);
    assert(b[3] as int == n % 256);
}

/// Walking over well-formed chunks adds their preserved ones and lands at the
/// first byte after them, whatever precedes and follows them.
pub proof fn lemma_scan_over_chunks(
    prefix: Seq<u8>,
    cs: Seq<ChunkFrame>,
    rest: Seq<u8>,
    acc: Map<Seq<u8>, Seq<u8>>,
)
    requires
        forall|i: int| 0 <= i < cs.len() ==> is_chunk_frame(#[trigger] cs[i]),
    ensures
        scan_from(prefix + chunks_bytes(cs) + rest, prefix.len() as int, acc) == scan_from(
            prefix + chunks_bytes(cs) + rest,
            (prefix.len() + chunks_bytes(cs).len()) as int,
            add_preserved(acc, cs),
        ),
    decreases cs.len(),
{
    if cs.len() > 0 {
        let c = cs[0];
        let tail = cs.drop_first();
        assert(is_chunk_frame(c));
        let f = chunk_bytes(c);
        let b = prefix + chunks_bytes(cs) + rest;
        let pos = prefix.len() as int;
        let len = c.1.len() as int;
        lemma_be_u32_bytes(len);
        assert(b =~= (prefix + f) + chunks_bytes(tail) + rest);
        assert(b.subrange(pos, pos + 4) =~= be_u32_bytes(len));
        assert(be_u32_at(b, pos) == be_u32_at(be_u32_bytes(len), 0));
        assert(b.subrange(pos + 4, pos + 8) =~= c.0);
        assert(b.subrange(pos + 8, pos + 8 + len) =~= c.1);
        let next = if is_preserved_tag(c.0) {
            acc.insert(c.0, c.1)
        } else {
            acc
        };
        assert(scan_from(b, pos, acc) == scan_from(b, pos + 12 + len, next));
        assert forall|i: int| 0 <= i < tail.len() implies is_chunk_frame(#[trigger] tail[i]) by {
            assert(tail[i] == cs[i + 1]);
        }
        lemma_scan_over_chunks(prefix + f, tail, rest, next);
    }
}

/// Scanning a PNG whose chunks are `cs` yields exactly the preserved chunks
/// among them, with their payloads byte for byte; where a type repeats, the
/// later chunk wins.
pub proof fn lemma_scan_keeps_preserved_chunks(cs: Seq<ChunkFrame>)
    requires
        forall|i: int| 0 <= i < cs.len() ==> is_chunk_frame(#[trigger] cs[i]),
    ensures
        scan_chunks(png_signature() + chunks_bytes(cs)) == Ok::<Map<Seq<u8>, Seq<u8>>, DecodeError>(
            add_preserved(Map::empty(), cs),
        ),
{
    let b = png_signature() + chunks_bytes(cs);
    lemma_scan_over_chunks(png_signature(), cs, Seq::empty(), Map::empty());
    assert(b =~= png_signature() + chunks_bytes(cs) + Seq::empty());
    assert(b.subrange(0, 8) =~= png_signature());
}

/// A stream that does not start with the PNG signature is rejected.
pub proof fn lemma_bad_signature_rejected(b: Seq<u8>)
    requires
        b.len() < 8 || b.subrange(0, 8) != png_signature(),
    ensures
        scan_chunks(b) == Err::<Map<Seq<u8>, Seq<u8>>, DecodeError>(DecodeError::BadSignature),
{
}

/// A chunk whose declared data length runs past the end of the stream is
/// rejected, wherever it stands after well-formed chunks.
pub proof fn lemma_overlong_chunk_rejected(cs: Seq<ChunkFrame>, declared_len: int, tail: Seq<u8>)
    requires
        forall|i: int| 0 <= i < cs.len() ==> is_chunk_frame(#[trigger] cs[i]),
        0 <= declared_len < 4294967296,
        declared_len + 12 > 4 + tail.len(),
    ensures
        scan_chunks(png_signature() + chunks_bytes(cs) + (be_u32_bytes(declared_len) + tail)) == Err::<
            Map<Seq<u8>, Seq<u8>>,
            DecodeError,
        >(DecodeError::Truncated),
{
    let rest = be_u32_bytes(declared_len) + tail;
    let b = png_signature() + chunks_bytes(cs) + rest;
    lemma_scan_over_chunks(png_signature(), cs, rest, Map::empty());
    lemma_be_u32_bytes(declared_len);
    let pos = 8 + chunks_bytes(cs).len() as int;
    assert(b.subrange(0, 8) =~= png_signature());
    assert(b.subrange(pos, pos + 4) =~= be_u32_bytes(declared_len));
    assert(be_u32_at(b, pos) == be_u32_at(be_u32_bytes(declared_len), 0));
}

/// Relies on `std::str::from_utf8`: it succeeds exactly on valid UTF-8.
#[verifier::external_body]
fn is_utf8(bytes: &[u8]) -> (r: bool)
    ensures
        r == valid_utf8(bytes@),
{
    std::str::from_utf8(bytes).is_ok()
}

/// The big-endian unsigned 32-bit integer in bytes `i .. i + 4` of `b`.
fn read_be_u32(b: &[u8], i: usize) -> (r: u32)
    requires
        i + 4 <= b@.len(),
    ensures
        r == be_u32_at(b@, i as int),
{
    (b[i] as u32) * 16777216 + (b[i + 1] as u32) * 65536 + (b[i + 2] as u32) * 256 + (b[i + 3] as u32)
}

/// Whether `t` names a preserved chunk type.
fn is_preserved_chunk_type(t: &[u8]) -> (r: bool)
    ensures
        r == is_preserved_tag(t@),
{
    bytes_equal(t, &[0x63u8, 0x48u8, 0x52u8, 0x4du8]) || bytes_equal(t, &[0x67u8, 0x41u8, 0x4du8, 0x41u8])
        || bytes_equal(t, &[0x69u8, 0x43u8, 0x43u8, 0x50u8]) || bytes_equal(t, &[0x70u8, 0x48u8, 0x59u8, 0x73u8])
        || bytes_equal(t, &[0x73u8, 0x52u8, 0x47u8, 0x42u8])
}

/// Whether `bytes` starts with the PNG signature.
fn has_png_signature(bytes: &[u8]) -> (r: bool)
    ensures
        r == (bytes@.len() >= 8 && bytes@.subrange(0, 8) == png_signature()),
{
    if bytes.len() < 8 {
        return false;
    }
    let head = slice_subrange(bytes, 0, 8);
    let r = bytes_equal(head, &[0x89u8, 0x50u8, 0x4eu8, 0x47u8, 0x0du8, 0x0au8, 0x1au8, 0x0au8]);
    assert(head@ =~= bytes@.subrange(0, 8));
    r
}

/// Extracts the preserved ancillary chunks (`cHRM`, `gAMA`, `iCCP`, `pHYs`,
/// `sRGB`) of a PNG byte stream, payloads copied verbatim.
pub fn png_extract_ancillary_chunks(bytes: &[u8]) -> (r: Result<ChunkSet, DecodeError>)
    ensures
        match scan_chunks(bytes@) {
            Ok(m) => r matches Ok(set) && set.wf() && set@ == m,
            Err(e) => r == Err::<ChunkSet, DecodeError>(e),
        },
{
    let n: usize = bytes.len();
    if !has_png_signature(bytes) {
        return Err(DecodeError::BadSignature);
    }
    let mut result = ChunkSet::new();
    let mut pos: usize = 8;
    while pos < n
        invariant
            n == bytes@.len(),
            8 <= pos,
            result.wf(),
            scan_chunks(bytes@) == scan_from(bytes@, pos as int, result@),
        decreases n - pos,
    {
        if n - pos < 12 {
            return Err(DecodeError::Truncated);
        }
        let len: usize = read_be_u32(bytes, pos) as usize;
        if len > n - pos - 12 {
            return Err(DecodeError::Truncated);
        }
        let tag = slice_subrange(bytes, pos + 4, pos + 8);
        if !is_utf8(tag) {
            return Err(DecodeError::BadChunkType);
        }
        if is_preserved_chunk_type(tag) {
            let data = slice_subrange(bytes, pos + 8, pos + 8 + len);
            result.insert(slice_to_vec(tag), slice_to_vec(data));
        }
        pos = pos + 12 + len;
    }
    Ok(result)
}

} // verus!
