//! The archive format: header and entry-table layout, the parsing
//! specification, and the verified decoder.

use vstd::prelude::*;
use crate::binnedwrite::Writeable;
use crate::codec::{
    read_16_at, read_u32_at, read_u64_at, slice_range, u32_le, u32_of_le, u64_le, u64_of_le,
};

verus! {

/// The fixed four-byte signature at the start of every archive.
pub open spec fn magic() -> Seq<u8> {
    seq![0x47u8, 0x44u8, 0x50u8, 0x43u8]
}

/// The virtual-path prefix that every stored entry name carries on disk.
pub open spec fn name_prefix() -> Seq<u8> {
    seq![0x72u8, 0x65u8, 0x73u8, 0x3au8, 0x2fu8, 0x2fu8]
}

/// The one archive version this library understands.
pub const SUPPORTED_VERSION: u32 = 1;

/// What decoding can fail with.
#[derive(Clone, Copy, Debug, PartialEq, Eq, Structural)]
pub enum PckError {
    /// The first four bytes are not the archive signature.
    BadMagic,
    /// The version field holds anything but the one supported value.
    UnsupportedVersion,
    /// A field declares more bytes than remain in the buffer.
    Truncated,
}

/// The engine-version triple stored in the header.
#[derive(Clone, Copy, Debug, PartialEq, Eq, Structural)]
pub struct GodotVersion {
    pub major: u32,
    pub minor: u32,
    pub patch: u32,
}

/// One decoded table record.
pub struct PckEntry {
    /// The stored name after text decoding (virtual-path prefix included).
    pub name: Vec<u8>,
    /// Absolute byte position of the entry's payload within the archive.
    pub offset: u64,
    /// Absolute buffer position of the offset field itself; recorded while
    /// encoding so the real offset can be patched in later.
    pub offset_pos: u64,
    /// Payload size in bytes.
    pub size: u64,
    /// Digest of the payload bytes.
    pub md5: [u8; 16],
}

/// The mathematical image of a `PckEntry`.
pub ghost struct EntryModel {
    pub name: Seq<u8>,
    pub offset: u64,
    pub offset_pos: u64,
    pub size: u64,
    pub md5: Seq<u8>,
}

impl View for PckEntry {
    type V = EntryModel;

    open spec fn view(&self) -> EntryModel {
        EntryModel {
            name: self.name@,
            offset: self.offset,
            offset_pos: self.offset_pos,
            size: self.size,
            md5: self.md5@,
        }
    }
}

/// A decoded archive: header fields plus the table entries in file order.
pub struct Pck {
    pub version: u32,
    pub godot_version: GodotVersion,
    pub entries: Vec<PckEntry>,
}

/// The mathematical image of a `Pck`.
pub ghost struct PckModel {
    pub version: u32,
    pub godot_version: GodotVersion,
    pub entries: Seq<EntryModel>,
}

impl View for Pck {
    type V = PckModel;

    open spec fn view(&self) -> PckModel {
        PckModel {
            version: self.version,
            godot_version: self.godot_version,
            entries: entry_models(self.entries@),
        }
    }
}

/// The models of a sequence of decoded entries.
pub open spec fn entry_models(es: Seq<PckEntry>) -> Seq<EntryModel> {
    es.map_values(|e: PckEntry| e@)
}

/// The bytes a raw byte sequence lossily decodes to as UTF-8 text. The value
/// is a function of the raw bytes alone; it is pinned down only by
/// `lossy_utf8`.
pub uninterp spec fn lossy_of(raw: Seq<u8>) -> Seq<u8>;

/// Relies on `String::from_utf8_lossy`: the result depends on the raw bytes
/// alone (invalid sequences are replaced with the replacement character, so
/// the conversion never fails), and bytes that are already valid UTF-8 — in
/// particular any result of this conversion — pass through unchanged.
#[verifier::external_body]
fn lossy_utf8(raw: &Vec<u8>) -> (r: Vec<u8>)
    ensures
        r@ == lossy_of(raw@),
        lossy_of(r@) == r@,
{
    String::from_utf8_lossy(raw.as_slice()).into_owned().into_bytes()
}

/// `s` with its trailing run of NUL bytes removed. In the valid UTF-8 text
/// the lossy decoding produces, a zero byte stands exactly for the NUL
/// character.
pub open spec fn trim_nuls(s: Seq<u8>) -> Seq<u8>
    decreases s.len(),
{
    if s.len() > 0 && s.last() == 0 {
        trim_nuls(s.drop_last())
    } else {
        s
    }
}

/// The name a raw stored name decodes to: the lossy text decoding with the
/// trailing run of NUL bytes removed.
pub open spec fn decoded_name_of(raw: Seq<u8>) -> Seq<u8> {
    trim_nuls(lossy_of(raw))
}

/// Decodes a raw stored name: lossy text conversion, then the trailing NUL
/// padding some producers append is trimmed away.
pub fn decode_name(raw: &Vec<u8>) -> (r: Vec<u8>)
    ensures
        r@ == decoded_name_of(raw@),
{
    let mut r = lossy_utf8(raw);
    while r.len() > 0 && r[r.len() - 1] == 0
        invariant
            trim_nuls(r@) == decoded_name_of(raw@),
        decreases r@.len(),
    {
        let ghost before = r@;
        r.pop();
        proof {
            assert(r@ =~= before.drop_last());
            assert(trim_nuls(before) == trim_nuls(r@));
        }
    }
    proof {
        assert(trim_nuls(r@) == r@);
    }
    r
}

/// One table record as stored on disk: 32-bit name length, name bytes, 64-bit
/// payload offset, 64-bit payload size, 16 digest bytes.
pub open spec fn entry_record(name: Seq<u8>, offset: u64, size: u64, md5: Seq<u8>) -> Seq<u8> {
    u32_le(name.len() as u32) + name + u64_le(offset) + u64_le(size) + md5
}

/// Parses one table record at `pos`; `None` means the buffer ran short.
pub open spec fn parse_entry(b: Seq<u8>, pos: int) -> Option<(EntryModel, int)> {
    if pos + 4 > b.len() {
        None
    } else {
        let nlen = u32_of_le(b.subrange(pos, pos + 4)) as int;
        if pos + 4 + nlen + 32 > b.len() {
            None
        } else {
            Some(
                (
                    EntryModel {
                        name: decoded_name_of(b.subrange(pos + 4, pos + 4 + nlen)),
                        offset: u64_of_le(b.subrange(pos + 4 + nlen, pos + 4 + nlen + 8)),
                        offset_pos: (pos + 4 + nlen) as u64,
                        size: u64_of_le(b.subrange(pos + 4 + nlen + 8, pos + 4 + nlen + 16)),
                        md5: b.subrange(pos + 4 + nlen + 16, pos + 4 + nlen + 32),
                    },
                    pos + 4 + nlen + 32,
                ),
            )
        }
    }
}

/// Parses `n` consecutive table records starting at `pos`.
pub open spec fn parse_entries(b: Seq<u8>, pos: int, n: nat) -> Option<(Seq<EntryModel>, int)>
    decreases n,
{
    if n == 0 {
        Some((Seq::empty(), pos))
    } else {
        match parse_entry(b, pos) {
            None => None,
            Some(head) => match parse_entries(b, head.1, (n - 1) as nat) {
                None => None,
                Some(tail) => Some((seq![head.0] + tail.0, tail.1)),
            },
        }
    }
}

/// What a whole byte buffer decodes to: the header checks in file order, then
/// exactly `entry count` table records starting at byte 88.
pub open spec fn parse_pck(b: Seq<u8>) -> Result<PckModel, PckError> {
    if b.len() < 4 {
        Err(PckError::Truncated)
    } else if b.subrange(0, 4) != magic() {
        Err(PckError::BadMagic)
    } else if b.len() < 8 {
        Err(PckError::Truncated)
    } else if u32_of_le(b.subrange(4, 8)) != SUPPORTED_VERSION {
        Err(PckError::UnsupportedVersion)
    } else if b.len() < 88 {
        Err(PckError::Truncated)
    } else {
        match parse_entries(b, 88, u32_of_le(b.subrange(84, 88)) as nat) {
            None => Err(PckError::Truncated),
            Some(r) => Ok(
                PckModel {
                    version: SUPPORTED_VERSION,
                    godot_version: GodotVersion {
                        major: u32_of_le(b.subrange(8, 12)),
                        minor: u32_of_le(b.subrange(12, 16)),
                        patch: u32_of_le(b.subrange(16, 20)),
                    },
                    entries: r.0,
                },
            ),
        }
    }
}

impl Pck {
    /// Decodes an archive, returning exactly what the parsing specification
    /// says the bytes hold, or the error it assigns them.
    pub fn decode(bytes: &Vec<u8>) -> (r: Result<Pck, PckError>)
        ensures
            match r {
                Ok(p) => parse_pck(bytes@) == Ok::<PckModel, PckError>(p@),
                Err(e) => parse_pck(bytes@) == Err::<PckModel, PckError>(e),
            },
    {
        let n = bytes.len();
        if n < 4 {
            return Err(PckError::Truncated);
        }
        if !(bytes[0] == 0x47 && bytes[1] == 0x44 && bytes[2] == 0x50 && bytes[3] == 0x43) {
            proof {
                assert(bytes@.subrange(0, 4)[0] == bytes@[0]);
                assert(bytes@.subrange(0, 4) != magic());
            }
            return Err(PckError::BadMagic);
        }
        proof {
            assert(bytes@.subrange(0, 4) =~= magic());
        }
        if n < 8 {
            return Err(PckError::Truncated);
        }
        let version = read_u32_at(bytes, 4);
        if version != SUPPORTED_VERSION {
            return Err(PckError::UnsupportedVersion);
        }
        if n < 88 {
            return Err(PckError::Truncated);
        }
        let major = read_u32_at(bytes, 8);
        let minor = read_u32_at(bytes, 12);
        let patch = read_u32_at(bytes, 16);
        let count = read_u32_at(bytes, 84);

        let mut entries: Vec<PckEntry> = Vec::new();
        let mut pos: usize = 88;
        let mut i: u32 = 0;
        while i < count
            invariant
                n == bytes@.len(),
                n >= 88,
                bytes@.subrange(0, 4) == magic(),
                u32_of_le(bytes@.subrange(4, 8)) == SUPPORTED_VERSION,
                count == u32_of_le(bytes@.subrange(84, 88)),
                88 <= pos <= n,
                i <= count,
                entries@.len() == i,
                match parse_entries(bytes@, pos as int, (count - i) as nat) {
                    Some(tail) => parse_entries(bytes@, 88, count as nat) == Some::<
                        (Seq<EntryModel>, int),
                    >((entry_models(entries@) + tail.0, tail.1)),
                    None => parse_entries(bytes@, 88, count as nat) is None,
                },
            decreases count - i,
        {
            let ghost p0 = pos as int;
            let ghost prev = entries@;
            if n - pos < 4 {
                proof {
                    assert(parse_entry(bytes@, p0) is None);
                    assert(parse_entries(bytes@, p0, (count - i) as nat) is None);
                }
                return Err(PckError::Truncated);
            }
            let nlen32 = read_u32_at(bytes, pos);
            let nlen = nlen32 as usize;
            if nlen > n - pos - 4 {
                proof {
                    assert(parse_entry(bytes@, p0) is None);
                    assert(parse_entries(bytes@, p0, (count - i) as nat) is None);
                }
                return Err(PckError::Truncated);
            }
            let name_end = pos + 4 + nlen;
            if n - name_end < 32 {
                proof {
                    assert(parse_entry(bytes@, p0) is None);
                    assert(parse_entries(bytes@, p0, (count - i) as nat) is None);
                }
                return Err(PckError::Truncated);
            }
            let raw = slice_range(bytes, pos + 4, name_end);
            let name = decode_name(&raw);
            let offset = read_u64_at(bytes, name_end);
            let size = read_u64_at(bytes, name_end + 8);
            let md5 = read_16_at(bytes, name_end + 16);
            let e = PckEntry { name, offset, offset_pos: name_end as u64, size, md5 };
            proof {
                let b = bytes@;
                assert(parse_entry(b, p0) == Some::<(EntryModel, int)>((e@, p0 + 4 + nlen + 32)));
            }
            entries.push(e);
            pos = name_end + 32;
            i = i + 1;
            proof {
                let b = bytes@;
                assert(entry_models(prev.push(e)) =~= entry_models(prev) + seq![e@]);
                match parse_entries(b, pos as int, (count - i) as nat) {
                    Some(tail) => {
                        assert(entry_models(prev) + (seq![e@] + tail.0) =~= entry_models(
                            prev.push(e),
                        ) + tail.0);
                    },
                    None => {},
                }
            }
        }
        proof {
            assert(entry_models(entries@) + Seq::<EntryModel>::empty() =~= entry_models(entries@));
        }
        let p = Pck { version, godot_version: GodotVersion { major, minor, patch }, entries };
        Ok(p)
    }
}

impl Writeable for GodotVersion {
    type Args = ();

    open spec fn encoding(&self, args: ()) -> Seq<u8> {
        u32_le(self.major) + u32_le(self.minor) + u32_le(self.patch)
    }

    fn write_to(&self, out: &mut Vec<u8>, args: ()) {
        self.major.write_to(out, ());
        self.minor.write_to(out, ());
        self.patch.write_to(out, ());
        proof {
            assert(out@ =~= old(out)@ + self.encoding(args));
        }
    }
}

impl PckEntry {
    /// Records where this entry's offset field will sit in the output buffer:
    /// the entry starts at `offset_base`, and the offset field follows the
    /// 4-byte name length and the name itself.
    pub fn set_offset_pos(&mut self, offset_base: u64)
        requires
            offset_base + 4 + old(self)@.name.len() <= u64::MAX,
        ensures
            final(self)@ == (EntryModel {
                offset_pos: (offset_base + 4 + old(self)@.name.len()) as u64,
                ..old(self)@
            }),
    {
        self.offset_pos = offset_base + 4 + (self.name.len() as u64);
    }
}

impl Writeable for PckEntry {
    type Args = ();

    open spec fn encoding(&self, args: ()) -> Seq<u8> {
        entry_record(self.name@, self.offset, self.size, self.md5@)
    }

    fn write_to(&self, out: &mut Vec<u8>, args: ()) {
        self.name.write_to(out, ());
        self.offset.write_to(out, ());
        self.size.write_to(out, ());
        let mut i: usize = 0;
        let ghost mid = out@;
        while i < 16
            invariant
                i <= 16,
                self.md5@.len() == 16,
                out@ == mid + self.md5@.subrange(0, i as int),
            decreases 16 - i,
        {
            out.push(self.md5[i]);
            i = i + 1;
            proof {
                assert(out@ =~= mid + self.md5@.subrange(0, i as int));
            }
        }
        proof {
            assert(self.md5@.subrange(0, 16) =~= self.md5@);
            assert(out@ =~= old(out)@ + self.encoding(args));
        }
    }
}

} // verus!
