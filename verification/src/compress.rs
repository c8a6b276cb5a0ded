//! On-the-fly gzip for the text formats that benefit from it.
//!
//! Nothing is stored: a response is compressed when it is sent, the same way it
//! is read. Only bodies small enough to sit in memory are considered, so a large
//! asset keeps its streaming path and its range support.
//!
//! gzip is the whole list, and every browser accepts it.

use vstd::prelude::*;

use crate::qvalue::{q_is_zero, spec_q_is_zero};
use crate::text::{
    chars_of, lemma_find_none, range_eq, range_starts_with, split, split_bounds, starts_with, trim, trim_bounds,
};

verus! {

/// Above this, streaming the file uncompressed beats buffering it to compress.
pub const MAX_BODY: u64 = 8388608;

/// Below this, the framing costs more than the saving.
pub const MIN_BODY: u64 = 1024;

#[derive(Debug, Clone, Copy, PartialEq, Eq, Structural)]
pub enum Encoding {
    Gzip,
}

impl Encoding {
    pub open spec fn spec_name(self) -> Seq<char> {
        match self {
            Encoding::Gzip => seq!['g', 'z', 'i', 'p'],
        }
    }

    pub open spec fn spec_tag(self) -> Seq<char> {
        match self {
            Encoding::Gzip => seq!['-', 'g', 'z'],
        }
    }

    /// The name on the wire, for `Content-Encoding`.
    pub fn name(self) -> (r: &'static str)
        ensures
            r@ == self.spec_name(),
    {
        match self {
            Encoding::Gzip => {
                proof {
                    reveal_strlit("gzip");
                }
                "gzip"
            },
        }
    }

    /// Suffix for the `ETag`, so a cached compressed body is never confused with
    /// the identity one it was made from.
    pub fn tag(self) -> (r: &'static str)
        ensures
            r@ == self.spec_tag(),
    {
        match self {
            Encoding::Gzip => {
                proof {
                    reveal_strlit("-gz");
                }
                "-gz"
            },
        }
    }
}


// ---------------------------------------------------------------------------
// Negotiation

/// A parameter of an `Accept-Encoding` entry that refuses it: `q=` and a
/// weight that reads as zero.
pub open spec fn refuses(param: Seq<char>) -> bool {
    let t = trim(param);
    starts_with(t, "q="@) && spec_q_is_zero(t.subrange(2, t.len() as int))
}

/// An `Accept-Encoding` entry offering gzip: the name `gzip`, exactly, and no
/// parameter refusing it.
pub open spec fn offers_gzip(entry: Seq<char>) -> bool {
    let parts = split(entry, ';');
    &&& trim(parts[0]) == "gzip"@
    &&& !exists|j: int| 1 <= j < parts.len() && refuses(#[trigger] parts[j])
}

/// gzip is welcome when any entry of the comma-separated list offers it;
/// each entry is judged on its own.
pub open spec fn spec_negotiate(header: Option<Seq<char>>) -> Option<Encoding> {
    match header {
        None => None,
        Some(h) => if some_entry_offers_gzip(h) {
            Some(Encoding::Gzip)
        } else {
            None
        },
    }
}

pub open spec fn some_entry_offers_gzip(h: Seq<char>) -> bool {
    exists|i: int| 0 <= i < split(h, ',').len() && offers_gzip(#[trigger] split(h, ',')[i])
}

/// Read `Accept-Encoding` and say whether gzip is welcome.
pub fn negotiate(header: Option<&str>) -> (r: Option<Encoding>)
    ensures
        r == spec_negotiate(
            match header {
                Some(h) => Some(h@),
                None => None,
            },
        ),
{
    let text = match header {
        Some(h) => h,
        None => return None,
    };
    let v = chars_of(text);
    let n = v.len();
    assert(v@.subrange(0, n as int) == text@);
    let entries = split_bounds(&v, 0, n, ',');
    let mut i: usize = 0;
    while i < entries.len()
        invariant
            header == Some(text),
            v@ == text@,
            n == v.len(),
            entries.len() == split(v@, ',').len(),
            forall|k: int|
                0 <= k < entries.len() ==> (#[trigger] entries@[k]).0 <= entries@[k].1 <= n
                    && v@.subrange(entries@[k].0 as int, entries@[k].1 as int) == split(v@, ',')[k],
            i <= entries.len(),
            forall|k: int| 0 <= k < i ==> !offers_gzip(#[trigger] split(v@, ',')[k]),
        decreases entries.len() - i,
    {
        let (a, b) = entries[i];
        assert(entries@[i as int] == (a, b));
        assert(v@.subrange(a as int, b as int) == split(v@, ',')[i as int]);
        if entry_offers_gzip(&v, a, b) {
            assert(offers_gzip(split(v@, ',')[i as int]));
            assert(offers_gzip(split(text@, ',')[i as int]));
            assert(0 <= i < split(text@, ',').len());
            assert(some_entry_offers_gzip(text@));
            return Some(Encoding::Gzip);
        }
        i += 1;
    }
    None
}

/// `offers_gzip` for the entry `v[lo..hi]`.
fn entry_offers_gzip(v: &Vec<char>, lo: usize, hi: usize) -> (r: bool)
    requires
        lo <= hi <= v.len(),
    ensures
        r == offers_gzip(v@.subrange(lo as int, hi as int)),
{
    let ghost entry = v@.subrange(lo as int, hi as int);
    let parts = split_bounds(v, lo, hi, ';');
    let (a, b) = parts[0];
    assert(parts@[0] == (a, b));
    let (ta, tb) = trim_bounds(v, a, b);
    if !range_eq(v, ta, tb, "gzip") {
        return false;
    }
    let mut j: usize = 1;
    while j < parts.len()
        invariant
            lo <= hi <= v.len(),
            entry == v@.subrange(lo as int, hi as int),
            parts.len() == split(entry, ';').len(),
            forall|k: int|
                0 <= k < parts.len() ==> (#[trigger] parts@[k]).0 <= parts@[k].1 <= v.len()
                    && v@.subrange(parts@[k].0 as int, parts@[k].1 as int) == split(entry, ';')[k],
            1 <= j <= parts.len(),
            forall|k: int| 1 <= k < j ==> !refuses(#[trigger] split(entry, ';')[k]),
        decreases parts.len() - j,
    {
        let (pa, pb) = parts[j];
        assert(parts@[j as int] == (pa, pb));
        assert(v@.subrange(pa as int, pb as int) == split(entry, ';')[j as int]);
        let (qa, qb) = trim_bounds(v, pa, pb);
        proof {
            reveal_strlit("q=");
        }
        if range_starts_with(v, qa, qb, "q=") && q_is_zero(v, qa + 2, qb) {
            proof {
                let t = v@.subrange(qa as int, qb as int);
                assert(t.subrange(2, t.len() as int) == v@.subrange(qa + 2, qb as int));
                assert(refuses(split(entry, ';')[j as int]));
            }
            return false;
        }
        proof {
            let t = v@.subrange(qa as int, qb as int);
            if starts_with(t, "q="@) {
                assert(t.subrange(2, t.len() as int) == v@.subrange(qa + 2, qb as int));
            }
        }
        j += 1;
    }
    true
}

// ---------------------------------------------------------------------------
// What is worth compressing

/// A media type without its parameters: what comes before the first `;`,
/// trimmed.
pub open spec fn essence(content_type: Seq<char>) -> Seq<char> {
    trim(split(content_type, ';')[0])
}

/// Text compresses well, and so do the structured formats that are text
/// underneath; images, media and archives are already compressed.
pub open spec fn spec_worthwhile(content_type: Seq<char>) -> bool {
    let e = essence(content_type);
    ||| starts_with(e, "text/"@)
    ||| e == "application/javascript"@
    ||| e == "application/json"@
    ||| e == "application/manifest+json"@
    ||| e == "application/wasm"@
    ||| e == "application/xml"@
    ||| e == "application/xhtml+xml"@
    ||| e == "image/svg+xml"@
}

/// Whether a body of this media type is worth compressing at all.
pub fn worthwhile(content_type: &str) -> (r: bool)
    ensures
        r == spec_worthwhile(content_type@),
{
    let v = chars_of(content_type);
    let n = v.len();
    assert(v@.subrange(0, n as int) == content_type@);
    let parts = split_bounds(&v, 0, n, ';');
    let (a, b) = parts[0];
    let (ea, eb) = trim_bounds(&v, a, b);
    range_starts_with(&v, ea, eb, "text/") || range_eq(&v, ea, eb, "application/javascript")
        || range_eq(&v, ea, eb, "application/json") || range_eq(
        &v,
        ea,
        eb,
        "application/manifest+json",
    ) || range_eq(&v, ea, eb, "application/wasm") || range_eq(&v, ea, eb, "application/xml")
        || range_eq(&v, ea, eb, "application/xhtml+xml") || range_eq(&v, ea, eb, "image/svg+xml")
}

// ---------------------------------------------------------------------------
// Compressing

/// `std::io::Error`, declared so that the gzip writer's failure can be
/// carried through; nothing inside it is read.
#[verifier::external_type_specification]
#[verifier::external_body]
pub struct ExIoError(std::io::Error);

/// What flate2 makes of `data` at compression `level`: the gzip stream it
/// writes — a single member with a default header, every byte of `data`
/// deflated at that level — or nothing, when its compressor reports an
/// error. Written into memory, this depends on the two arguments alone.
pub uninterp spec fn gzip_stream(data: Seq<u8>, level: u32) -> Option<Seq<u8>>;

/// A little-endian 32-bit number in four bytes.
pub open spec fn le32(b: Seq<u8>) -> nat {
    b[0] as nat + 0x100 * (b[1] as nat) + 0x1_0000 * (b[2] as nat) + 0x100_0000 * (b[3] as nat)
}

/// The extra-flags byte of a gzip header at a compression level: `2` for
/// the slowest level and above, `4` for the fastest and below, else `0`.
pub open spec fn level_flag(level: u32) -> u8 {
    if level >= 9 {
        2
    } else if level <= 1 {
        4
    } else {
        0
    }
}

/// The frame of one gzip member as a default `GzBuilder` writes it, around
/// `len` bytes of input: a ten-byte header (magic `1f 8b`, method deflate,
/// no flags, no modification time, the level's flag byte, system "unknown"),
/// the deflate data, and an eight-byte trailer ending in the input's length
/// modulo 2^32, little-endian.
pub open spec fn gzip_framed(stream: Seq<u8>, len: nat, level: u32) -> bool {
    &&& stream.len() >= 18
    &&& stream[0] == 0x1f && stream[1] == 0x8b && stream[2] == 8 && stream[3] == 0
    &&& stream[4] == 0 && stream[5] == 0 && stream[6] == 0 && stream[7] == 0
    &&& stream[8] == level_flag(level)
    &&& stream[9] == 0xff
    &&& le32(stream.subrange(stream.len() - 4, stream.len() as int)) == len % 0x1_0000_0000
}

/// `flate2::write::GzEncoder` over a `Vec`, fed `data` whole and finished.
/// Claims that what comes back is the outcome named `gzip_stream`: the
/// stream when it finishes, an error when it does not; and that a finished
/// stream has the frame `GzEncoder::try_finish` and `GzBuilder::into_header`
/// write. What the deflate data and the CRC-32 in the trailer hold is left
/// to the name.
#[verifier::external_body]
fn gzip(data: &[u8], level: u32) -> (r: Result<Vec<u8>, std::io::Error>)
    ensures
        match r {
            Ok(out) => gzip_stream(data@, level) == Some(out@) && gzip_framed(
                out@,
                data@.len(),
                level,
            ),
            Err(_) => gzip_stream(data@, level) is None,
        },
{
    let mut writer = flate2::write::GzEncoder::new(Vec::new(), flate2::Compression::new(level));
    std::io::Write::write_all(&mut writer, data)?;
    writer.finish()
}

/// The deflate level serv compresses at: quick, and most of the saving.
pub const LEVEL: u32 = 4;

/// Compressing failed: the encoder could not write its stream.
#[derive(Debug)]
pub enum EncodeError {
    Write,
}

/// What `encode` answers for what the gzip writer returned: the stream as it
/// is, or `Write` for any error.
pub fn settle(written: Result<Vec<u8>, std::io::Error>) -> (r: Result<Vec<u8>, EncodeError>)
    ensures
        match written {
            Ok(out) => r matches Ok(v) && v@ == out@,
            Err(_) => r matches Err(e) && e is Write,
        },
{
    match written {
        Ok(out) => Ok(out),
        Err(_) => Err(EncodeError::Write),
    }
}

/// Compress a body for the wire: the stream flate2 writes at `LEVEL`, one
/// framed gzip member, or `Write` exactly when it cannot write one.
pub fn encode(data: &[u8], encoding: Encoding) -> (r: Result<Vec<u8>, EncodeError>)
    ensures
        match r {
            Ok(out) => gzip_stream(data@, LEVEL) == Some(out@) && gzip_framed(
                out@,
                data@.len(),
                LEVEL,
            ),
            Err(e) => gzip_stream(data@, LEVEL) is None && e is Write,
        },
{
    match encoding {
        Encoding::Gzip => settle(gzip(data, LEVEL)),
    }
}


/// An entry naming gzip with no parameters is acceptance, whatever else the
/// list says: a refusal elsewhere does not spoil it.
pub proof fn a_plain_gzip_entry_is_acceptance(h: Seq<char>, i: int)
    requires
        0 <= i < split(h, ',').len(),
        trim(split(h, ',')[i]) == "gzip"@,
        !split(h, ',')[i].contains(';'),
    ensures
        spec_negotiate(Some(h)) == Some(Encoding::Gzip),
{
    let e = split(h, ',')[i];
    lemma_find_none(e, ';');
    assert(split(e, ';') == seq![e]);
    assert(offers_gzip(e));
}

} // verus!
