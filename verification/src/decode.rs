use vstd::prelude::*;
use crate::bytes::{be16_val, be32_val};
use crate::entry::Entry;
use crate::extension::{OpaqueExtension, TreeCache, TreeNode};
use crate::hash::hash_of;
use crate::state::State;
use crate::Version;

verus! {

/// Options of a decode run: the checksum algorithm the file was sealed
/// with, and whether a block with an unrecognized signature is a fault
/// rather than kept opaque.
#[derive(Clone, Copy, Debug, PartialEq, Eq, Structural)]
pub struct DecodeOptions {
    pub hash_kind: crate::hash::HashKind,
    pub reject_unknown_extensions: bool,
}

/// Faults a decode run reports; a corrupt index is never returned as a
/// partial or empty one.
#[derive(Clone, Copy, Debug, PartialEq, Eq, Structural)]
pub enum DecodeError {
    /// The 4-byte signature at the front is not the index signature.
    HeaderInvalid,
    /// The version field holds a number outside 2, 3 and 4.
    UnsupportedVersion { number: u32 },
    /// The buffer ends before the declared content does.
    Truncated,
    /// Fields contradict each other: an extended flags word where the
    /// version cannot carry one, a path length in conflict with its flags
    /// bits, a malformed extension payload, or a duplicate extension.
    Corrupt,
    /// The trailer digest does not match the digest of the preceding bytes;
    /// the file is sealed as one unit and never partially trusted.
    ChecksumMismatch,
}

/// Reads a big-endian 32-bit word at `pos`.
fn read_u32(data: &Vec<u8>, pos: usize) -> (r: u32)
    requires
        pos + 4 <= data@.len(),
    ensures
        r == be32_val(data@.subrange(pos as int, pos + 4)),
{
    let dl = data.len();
    proof {
        assert(pos + 4 <= dl);
    }
    let r = ((data[pos] as u32) << 24) | ((data[pos + 1] as u32) << 16) | ((data[pos + 2] as u32)
        << 8) | (data[pos + 3] as u32);
    proof {
        let s = data@.subrange(pos as int, pos + 4);
        assert(s[0] == data@[pos as int] && s[1] == data@[pos + 1] && s[2] == data@[pos + 2]
            && s[3] == data@[pos + 3]);
    }
    r
}

/// Reads a big-endian 16-bit word at `pos`.
fn read_u16(data: &Vec<u8>, pos: usize) -> (r: u16)
    requires
        pos + 2 <= data@.len(),
    ensures
        r == be16_val(data@.subrange(pos as int, pos + 2)),
{
    let dl = data.len();
    proof {
        assert(pos + 2 <= dl);
    }
    let r = ((data[pos] as u16) << 8) | (data[pos + 1] as u16);
    proof {
        let s = data@.subrange(pos as int, pos + 2);
        assert(s[0] == data@[pos as int] && s[1] == data@[pos + 1]);
    }
    r
}

/// Finds the first null byte at or after `pos`, up to `to`.
fn scan_nul(data: &Vec<u8>, pos: usize, to: usize) -> (r: usize)
    requires
        pos <= to <= data@.len(),
    ensures
        pos <= r <= to,
        forall|k: int| pos <= k < r ==> data@[k] != 0,
        r < to ==> data@[r as int] == 0,
{
    let mut p = pos;
    while p < to && data[p] != 0
        invariant
            pos <= p <= to <= data@.len(),
            forall|k: int| pos <= k < p ==> data@[k] != 0,
        decreases to - p,
    {
        p = p + 1;
    }
    p
}

/// Parses an unsigned decimal number of at least one digit at `pos`.
fn parse_dec(data: &Vec<u8>, pos: usize, to: usize) -> (r: Result<(u32, usize), DecodeError>)
    requires
        pos <= to <= data@.len(),
    ensures
        match r {
            Ok((v, np)) => pos < np <= to,
            Err(e) => e == DecodeError::Corrupt,
        },
{
    let mut p = pos;
    let mut v: u32 = 0;
    while p < to && data[p] >= 0x30 && data[p] <= 0x39
        invariant
            pos <= p <= to <= data@.len(),
        decreases to - p,
    {
        let d = (data[p] - 0x30) as u32;
        if v > 429496729 || (v == 429496729 && d > 5) {
            return Err(DecodeError::Corrupt);
        }
        v = v * 10 + d;
        p = p + 1;
    }
    if p == pos {
        return Err(DecodeError::Corrupt);
    }
    Ok((v, p))
}

/// Parses the variable-width prefix-strip count at `pos`.
fn parse_varint(data: &Vec<u8>, pos: usize, to: usize) -> (r: Result<(u64, usize), DecodeError>)
    requires
        pos <= to <= data@.len(),
    ensures
        match r {
            Ok((v, np)) => pos < np <= to,
            Err(e) => e == DecodeError::Truncated || e == DecodeError::Corrupt,
        },
{
    if pos >= to {
        return Err(DecodeError::Truncated);
    }
    let mut c = data[pos];
    let mut v: u64 = (c & 0x7f) as u64;
    let mut p = pos + 1;
    while c & 0x80 != 0
        invariant
            pos < p <= to <= data@.len(),
            v <= 0xffff_ffff_ffff_ffff,
        decreases to - p,
    {
        if p >= to {
            return Err(DecodeError::Truncated);
        }
        if v > 0x00ff_ffff_ffff_ffff {
            return Err(DecodeError::Corrupt);
        }
        c = data[p];
        v = (v + 1) * 128 + ((c & 0x7f) as u64);
        p = p + 1;
    }
    Ok((v, p))
}

/// Entry `e` stands literally in `data` at `start`: the ten metadata words
/// and the flags word as big-endian fields, the object id verbatim, the
/// extended word when its bit is set, and — below version 4 — the
/// null-terminated path, with `end` the position right after the entry's
/// padding.
pub open spec fn entry_at(
    e: Entry,
    data: Seq<u8>,
    start: int,
    end: int,
    hl: int,
    version: Version,
    backing: Seq<u8>,
    limit: int,
) -> bool {
    &&& 12 <= start < end <= limit <= data.len()
    &&& e.ctime_secs == be32_val(data.subrange(start, start + 4))
    &&& e.ctime_nsecs == be32_val(data.subrange(start + 4, start + 8))
    &&& e.mtime_secs == be32_val(data.subrange(start + 8, start + 12))
    &&& e.mtime_nsecs == be32_val(data.subrange(start + 12, start + 16))
    &&& e.dev == be32_val(data.subrange(start + 16, start + 20))
    &&& e.ino == be32_val(data.subrange(start + 20, start + 24))
    &&& e.mode == be32_val(data.subrange(start + 24, start + 28))
    &&& e.uid == be32_val(data.subrange(start + 28, start + 32))
    &&& e.gid == be32_val(data.subrange(start + 32, start + 36))
    &&& e.size == be32_val(data.subrange(start + 36, start + 40))
    &&& e.id@ == data.subrange(start + 40, start + 40 + hl)
    &&& e.flags == be16_val(data.subrange(start + 40 + hl, start + 42 + hl))
    &&& (e.is_extended() ==> e.extended_flags == be16_val(
        data.subrange(start + 42 + hl, start + 44 + hl),
    ))
    &&& (!(version is V4) ==> ({
        let pstart = start + 42 + hl + (if e.is_extended() {
            2int
        } else {
            0int
        });
        &&& e.path_in(backing) == data.subrange(pstart, pstart + e.path_len)
        &&& pstart + e.path_len < limit
        &&& data[pstart + e.path_len] == 0
        &&& end == pstart + e.path_len + crate::encode::pad_len(pstart - start + e.path_len)
    }))
}

/// The decoded entries stand consecutively in `data` from byte 12 on:
/// `starts` and `ends` bound each entry's bytes, each entry begins where
/// the one before it ended, and every field equals what `data` holds there.
pub open spec fn entries_traced(
    entries: Seq<Entry>,
    backing: Seq<u8>,
    data: Seq<u8>,
    hl: int,
    version: Version,
    limit: int,
    starts: Seq<int>,
    ends: Seq<int>,
) -> bool {
    &&& starts.len() == entries.len()
    &&& ends.len() == entries.len()
    &&& (forall|i: int|
        0 <= i < entries.len() ==> #[trigger] entry_at(
            entries[i],
            data,
            starts[i],
            ends[i],
            hl,
            version,
            backing,
            limit,
        ))
    &&& (forall|i: int|
        0 <= i < entries.len() ==> #[trigger] starts[i] == (if i == 0 {
            12int
        } else {
            ends[i - 1]
        }))
}

/// Parses one entry at `pos` and appends it, moving its path into the
/// backing buffer; returns the position after the entry.
#[verifier::loop_isolation(false)]
#[verifier::rlimit(100)]
fn parse_entry(
    data: &Vec<u8>,
    pos: usize,
    limit: usize,
    version: Version,
    hl: usize,
    entries: &mut Vec<Entry>,
    backing: &mut Vec<u8>,
) -> (r: Result<usize, DecodeError>)
    requires
        12 <= pos <= limit <= data@.len(),
        hl <= 32,
        forall|j: int|
            0 <= j < old(entries)@.len() ==> (#[trigger] old(entries)@[j]).wf(old(backing)@)
                && old(entries)@[j].id@.len() == hl,
    ensures
        match r {
            Ok(np) => {
                &&& pos < np <= limit
                &&& final(entries)@.len() == old(entries)@.len() + 1
                &&& final(entries)@.subrange(0, old(entries)@.len() as int) == old(entries)@
                &&& old(backing)@.is_prefix_of(final(backing)@)
                &&& (forall|j: int|
                    0 <= j < final(entries)@.len() ==> (#[trigger] final(entries)@[j]).wf(
                        final(backing)@,
                    ) && final(entries)@[j].id@.len() == hl)
                &&& entry_at(
                    final(entries)@.last(),
                    data@,
                    pos as int,
                    np as int,
                    hl as int,
                    version,
                    final(backing)@,
                    limit as int,
                )
            },
            Err(e) => e == DecodeError::Truncated || e == DecodeError::Corrupt,
        },
{
    if limit - pos < 40 + hl + 2 {
        return Err(DecodeError::Truncated);
    }
    let ctime_secs = read_u32(data, pos);
    let ctime_nsecs = read_u32(data, pos + 4);
    let mtime_secs = read_u32(data, pos + 8);
    let mtime_nsecs = read_u32(data, pos + 12);
    let dev = read_u32(data, pos + 16);
    let ino = read_u32(data, pos + 20);
    let mode = read_u32(data, pos + 24);
    let uid = read_u32(data, pos + 28);
    let gid = read_u32(data, pos + 32);
    let size = read_u32(data, pos + 36);
    let id = crate::bytes::copy_range(data, pos + 40, pos + 40 + hl);
    let flags = read_u16(data, pos + 40 + hl);
    let mut fpos = pos + 40 + hl + 2;
    let extended_flags: u16 = if flags & crate::entry::FLAG_EXTENDED != 0 {
        match version {
            Version::V2 => {
                return Err(DecodeError::Corrupt);
            },
            _ => {},
        }
        if limit - fpos < 2 {
            return Err(DecodeError::Truncated);
        }
        let w = read_u16(data, fpos);
        fpos = fpos + 2;
        w
    } else {
        0
    };
    let ghost old_backing: Seq<u8> = backing@;
    let off = backing.len();
    let plen: usize;
    let newpos: usize;
    match version {
        Version::V4 => {
            let (strip, vpos) = match parse_varint(data, fpos, limit) {
                Ok(x) => x,
                Err(e) => {
                    return Err(e);
                },
            };
            let (prev_off, prev_len): (usize, usize) = if entries.len() == 0 {
                (0, 0)
            } else {
                let last = &entries[entries.len() - 1];
                (last.path_offset, last.path_len)
            };
            if strip > prev_len as u64 {
                return Err(DecodeError::Corrupt);
            }
            proof {
                assert(strip as usize == strip && strip <= prev_len as u64);
            }
            let keep = prev_len - (strip as usize);
            let p = scan_nul(data, vpos, limit);
            if p == limit {
                return Err(DecodeError::Truncated);
            }
            let slen = p - vpos;
            if slen > usize::MAX - keep {
                return Err(DecodeError::Corrupt);
            }
            plen = keep + slen;
            if plen == 0 {
                return Err(DecodeError::Corrupt);
            }
            if flags & crate::entry::NAME_LENGTH_MASK != crate::entry::name_length_bits(plen) {
                return Err(DecodeError::Corrupt);
            }
            proof {
                if entries@.len() > 0 {
                    assert(entries@[entries@.len() - 1].wf(backing@));
                }
            }
            let prefix = crate::bytes::copy_range(backing, prev_off, prev_off + keep);
            crate::bytes::push_bytes(backing, &prefix, 0, keep);
            crate::bytes::push_bytes(backing, data, vpos, p);
            newpos = p + 1;
            proof {
                assert forall|k: int| off <= k < off + plen implies backing@[k] != 0 by {
                    if k < off + keep {
                        assert(backing@[k] == old_backing[prev_off + (k - off)]);
                    } else {
                        assert(backing@[k] == data@[vpos + (k - off - keep)]);
                    }
                }
            }
        },
        _ => {
            let p = scan_nul(data, fpos, limit);
            if p == limit {
                return Err(DecodeError::Truncated);
            }
            plen = p - fpos;
            if plen == 0 {
                return Err(DecodeError::Corrupt);
            }
            if flags & crate::entry::NAME_LENGTH_MASK != crate::entry::name_length_bits(plen) {
                return Err(DecodeError::Corrupt);
            }
            let content_len = p - pos;
            let pad = 8 - (content_len % 8);
            if limit - p < pad {
                return Err(DecodeError::Truncated);
            }
            crate::bytes::push_bytes(backing, data, fpos, p);
            newpos = p + pad;
            proof {
                assert forall|k: int| off <= k < off + plen implies backing@[k] != 0 by {
                    assert(backing@[k] == data@[fpos + (k - off)]);
                }
                assert(backing@.subrange(off as int, off + plen) =~= data@.subrange(
                    fpos as int,
                    fpos + plen,
                ));
                assert(data@[fpos + plen] == 0);
                assert(newpos == fpos + plen + crate::encode::pad_len(fpos - pos + plen));
            }
        },
    }
    let e = Entry {
        ctime_secs,
        ctime_nsecs,
        mtime_secs,
        mtime_nsecs,
        dev,
        ino,
        mode,
        uid,
        gid,
        size,
        id,
        flags,
        extended_flags,
        path_offset: off,
        path_len: plen,
    };
    proof {
        assert(old_backing.is_prefix_of(backing@)) by {
            assert(backing@.subrange(0, old_backing.len() as int) =~= old_backing);
        }
        assert(e.wf(backing@)) by {
            assert(e.flags & crate::entry::NAME_LENGTH_MASK == crate::entry::name_bits(
                plen as int,
            ));
        }
    }
    entries.push(e);
    proof {
        assert forall|j: int| 0 <= j < entries@.len() implies (#[trigger] entries@[j]).wf(
            backing@,
        ) && entries@[j].id@.len() == hl by {
            if j < entries@.len() - 1 {
                crate::entry::lemma_wf_backing_extend(entries@[j], old_backing, backing@);
            }
        }
        assert(entries@.subrange(0, entries@.len() - 1) =~= old(entries)@);
        assert(entry_at(
            e,
            data@,
            pos as int,
            newpos as int,
            hl as int,
            version,
            backing@,
            limit as int,
        )) by {
            if !(version is V4) {
                assert(fpos == pos + 42 + hl + (if e.is_extended() {
                    2int
                } else {
                    0int
                }));
                assert(e.path_in(backing@) == data@.subrange(fpos as int, fpos + plen));
            }
        }
    }
    Ok(newpos)
}

/// Parses the tree-cache payload in `data[from..to]`; it must be consumed
/// exactly.
#[verifier::loop_isolation(false)]
fn parse_tree(data: &Vec<u8>, from: usize, to: usize, hl: usize) -> (r: Result<
    TreeCache,
    DecodeError,
>)
    requires
        from <= to <= data@.len(),
        hl <= 32,
    ensures
        match r {
            Ok(t) => t.wf(),
            Err(e) => e == DecodeError::Truncated || e == DecodeError::Corrupt,
        },
{
    let mut nodes: Vec<TreeNode> = Vec::new();
    let mut pos = from;
    while pos < to
        invariant
            from <= pos <= to <= data@.len(),
            hl <= 32,
            forall|i: int| 0 <= i < nodes@.len() ==> (#[trigger] nodes@[i]).wf(),
        decreases to - pos,
    {
        let p = scan_nul(data, pos, to);
        if p == to {
            return Err(DecodeError::Corrupt);
        }
        let name = crate::bytes::copy_range(data, pos, p);
        let mut q = p + 1;
        let entry_count: Option<u32>;
        if q < to && data[q] == 0x2d {
            if q + 1 >= to || data[q + 1] != 0x31 {
                return Err(DecodeError::Corrupt);
            }
            entry_count = None;
            q = q + 2;
        } else {
            match parse_dec(data, q, to) {
                Ok((v, np)) => {
                    entry_count = Some(v);
                    q = np;
                },
                Err(e) => {
                    return Err(e);
                },
            }
        }
        if q >= to || data[q] != 0x20 {
            return Err(DecodeError::Corrupt);
        }
        q = q + 1;
        let child_count: u32;
        match parse_dec(data, q, to) {
            Ok((v, np)) => {
                child_count = v;
                q = np;
            },
            Err(e) => {
                return Err(e);
            },
        }
        if q >= to || data[q] != 0x0a {
            return Err(DecodeError::Corrupt);
        }
        q = q + 1;
        let id: Vec<u8>;
        match entry_count {
            Some(_) => {
                if to - q < hl {
                    return Err(DecodeError::Truncated);
                }
                id = crate::bytes::copy_range(data, q, q + hl);
                q = q + hl;
            },
            None => {
                id = Vec::new();
            },
        }
        nodes.push(TreeNode { name, entry_count, id, child_count });
        pos = q;
    }
    Ok(TreeCache { nodes })
}

/// Decodes an index file: the 12-byte header, `entry_count` entries in the
/// layout the version field dictates, extension blocks up to the trailer,
/// and the trailer itself, which must equal the digest of everything before
/// it. The checksum seals the file as one unit and is checked before
/// anything is parsed. Recognized extensions are decoded (the tree cache),
/// the end-of-index-entry marker is consumed (it is derived data,
/// recomputed on encode), and any other block is kept opaque byte-for-byte
/// unless the options reject unknown signatures. No bytes follow the
/// trailer, so the returned trailing data is always empty. Every decoded
/// entry is traced back to the input: its fields are exactly what the bytes
/// hold at its position, and the entries stand consecutively from the
/// header's end; a sealed, well-formed empty index is owed success.
#[verifier::loop_isolation(false)]
pub fn decode(data: &Vec<u8>, options: DecodeOptions) -> (r: Result<
    (State, Vec<u8>),
    DecodeError,
>)
    ensures
        data@.len() < 12 + options.hash_kind.spec_len() ==> (r matches Err(DecodeError::Truncated)),
        (r matches Err(DecodeError::ChecksumMismatch)) <==> (data@.len() >= 12
            + options.hash_kind.spec_len() && data@.subrange(
            data@.len() - options.hash_kind.spec_len(),
            data@.len() as int,
        ) != hash_of(
            options.hash_kind,
            data@.subrange(0, data@.len() - options.hash_kind.spec_len()),
        )),
        match r {
            Ok((s, trailing)) => {
                &&& s.wf()
                &&& data@.len() >= 12 + options.hash_kind.spec_len()
                &&& data@.subrange(0, 4) == crate::encode::header_sig()
                &&& s.version.spec_number() == be32_val(data@.subrange(4, 8))
                &&& s.entries@.len() == be32_val(data@.subrange(8, 12))
                &&& (forall|j: int|
                    0 <= j < s.entries@.len() ==> (#[trigger] s.entries@[j]).id@.len()
                        == options.hash_kind.spec_len())
                &&& (forall|i: int|
                    0 <= i < s.extensions@.len() ==> (#[trigger] s.extensions@[i]).payload@.len()
                        <= u32::MAX)
                &&& s.checksum@ == data@.subrange(
                    data@.len() - options.hash_kind.spec_len(),
                    data@.len() as int,
                )
                &&& s.checksum@ == hash_of(
                    options.hash_kind,
                    data@.subrange(0, data@.len() - options.hash_kind.spec_len()),
                )
                &&& (exists|starts: Seq<int>, ends: Seq<int>|
                    #[trigger] entries_traced(
                        s.entries@,
                        s.path_backing@,
                        data@,
                        options.hash_kind.spec_len(),
                        s.version,
                        data@.len() - options.hash_kind.spec_len(),
                        starts,
                        ends,
                    ))
                &&& trailing@.len() == 0
            },
            Err(e) => (e matches DecodeError::UnsupportedVersion { number } ==> number
                == be32_val(data@.subrange(4, 8)) && number != 2 && number != 3 && number != 4),
        },
        (data@.len() == 12 + options.hash_kind.spec_len() && data@.subrange(0, 4)
            == crate::encode::header_sig() && (be32_val(data@.subrange(4, 8)) == 2 || be32_val(
            data@.subrange(4, 8),
        ) == 3 || be32_val(data@.subrange(4, 8)) == 4) && be32_val(data@.subrange(8, 12)) == 0
            && data@.subrange(12, data@.len() as int) == hash_of(
            options.hash_kind,
            data@.subrange(0, 12),
        )) ==> r is Ok,
{
    let hl = options.hash_kind.len();
    if data.len() < 12 + hl {
        return Err(DecodeError::Truncated);
    }
    let limit = data.len() - hl;
    let body = crate::bytes::copy_range(data, 0, limit);
    let computed = crate::hash::compute_checksum(options.hash_kind, body.as_slice());
    let stored = crate::bytes::copy_range(data, limit, data.len());
    if !crate::verify::bytes_equal(&computed, &stored) {
        return Err(DecodeError::ChecksumMismatch);
    }
    if data[0] != 0x44 || data[1] != 0x49 || data[2] != 0x52 || data[3] != 0x43 {
        proof {
            assert(data@.subrange(0, 4)[0] == data@[0] && data@.subrange(0, 4)[1] == data@[1]
                && data@.subrange(0, 4)[2] == data@[2] && data@.subrange(0, 4)[3] == data@[3]);
        }
        return Err(DecodeError::HeaderInvalid);
    }
    let vnum = read_u32(data, 4);
    let version = if vnum == 2 {
        Version::V2
    } else if vnum == 3 {
        Version::V3
    } else if vnum == 4 {
        Version::V4
    } else {
        return Err(DecodeError::UnsupportedVersion { number: vnum });
    };
    let count = read_u32(data, 8);
    let mut entries: Vec<Entry> = Vec::new();
    let mut backing: Vec<u8> = Vec::new();
    let mut pos: usize = 12;
    let mut n: u32 = 0;
    let ghost mut starts: Seq<int> = Seq::empty();
    let ghost mut ends: Seq<int> = Seq::empty();
    while n < count
        invariant
            12 <= pos <= limit <= data@.len(),
            hl <= 32,
            limit == data@.len() - hl,
            n <= count,
            entries@.len() == n,
            forall|j: int|
                0 <= j < entries@.len() ==> (#[trigger] entries@[j]).wf(backing@)
                    && entries@[j].id@.len() == hl,
            starts.len() == n,
            ends.len() == n,
            forall|i: int|
                0 <= i < entries@.len() ==> #[trigger] entry_at(
                    entries@[i],
                    data@,
                    starts[i],
                    ends[i],
                    hl as int,
                    version,
                    backing@,
                    limit as int,
                ),
            forall|i: int|
                0 <= i < entries@.len() ==> (#[trigger] starts[i]) == (if i == 0 {
                    12int
                } else {
                    ends[i - 1]
                }),
            n == 0 ==> pos == 12,
            n > 0 ==> pos == ends[n as int - 1],
        decreases count - n,
    {
        let ghost pre_entries: Seq<Entry> = entries@;
        let ghost pre_backing: Seq<u8> = backing@;
        match parse_entry(data, pos, limit, version, hl, &mut entries, &mut backing) {
            Ok(np) => {
                proof {
                    starts = starts.push(pos as int);
                    ends = ends.push(np as int);
                    assert forall|i: int| 0 <= i < entries@.len() implies #[trigger] entry_at(
                        entries@[i],
                        data@,
                        starts[i],
                        ends[i],
                        hl as int,
                        version,
                        backing@,
                        limit as int,
                    ) by {
                        if i < entries@.len() - 1 {
                            assert(entries@.subrange(0, pre_entries.len() as int)[i]
                                == pre_entries[i]);
                            assert(entry_at(
                                pre_entries[i],
                                data@,
                                starts[i],
                                ends[i],
                                hl as int,
                                version,
                                pre_backing,
                                limit as int,
                            ));
                            crate::entry::lemma_wf_backing_extend(
                                entries@[i],
                                pre_backing,
                                backing@,
                            );
                        }
                    }
                }
                pos = np;
            },
            Err(e) => {
                return Err(e);
            },
        }
        n = n + 1;
    }
    let mut tree: Option<TreeCache> = None;
    let mut opaques: Vec<OpaqueExtension> = Vec::new();
    while pos < limit
        invariant
            12 <= pos <= limit <= data@.len(),
            hl <= 32,
            limit == data@.len() - hl,
            match tree {
                Some(t) => t.wf(),
                None => true,
            },
            forall|i: int|
                0 <= i < opaques@.len() ==> (#[trigger] opaques@[i]).signature@.len() == 4
                    && opaques@[i].payload@.len() <= u32::MAX,
        decreases limit - pos,
    {
        if limit - pos < 8 {
            return Err(DecodeError::Corrupt);
        }
        let size = read_u32(data, pos + 4) as usize;
        if size > limit - pos - 8 {
            return Err(DecodeError::Truncated);
        }
        let pstart = pos + 8;
        let pend = pstart + size;
        let s0 = data[pos];
        let s1 = data[pos + 1];
        let s2 = data[pos + 2];
        let s3 = data[pos + 3];
        if s0 == 0x54 && s1 == 0x52 && s2 == 0x45 && s3 == 0x45 {
            if tree.is_some() {
                return Err(DecodeError::Corrupt);
            }
            match parse_tree(data, pstart, pend, hl) {
                Ok(t) => {
                    tree = Some(t);
                },
                Err(e) => {
                    return Err(e);
                },
            }
        } else if s0 == 0x45 && s1 == 0x4f && s2 == 0x49 && s3 == 0x45 {
            // end-of-index-entry: a fast-skip marker over data already in
            // hand; recomputed on encode when requested.
        } else {
            let recognized = (s0 == 0x6c && s1 == 0x69 && s2 == 0x6e && s3 == 0x6b)  // link
             || (s0 == 0x55 && s1 == 0x4e && s2 == 0x54 && s3 == 0x52)  // untracked cache
             || (s0 == 0x46 && s1 == 0x53 && s2 == 0x4d && s3 == 0x4e)  // filesystem monitor
             || (s0 == 0x73 && s1 == 0x64 && s2 == 0x69 && s3 == 0x72);  // sparse directories
            if options.reject_unknown_extensions && !recognized {
                return Err(DecodeError::Corrupt);
            }
            let signature = crate::bytes::copy_range(data, pos, pos + 4);
            let payload = crate::bytes::copy_range(data, pstart, pend);
            opaques.push(OpaqueExtension { signature, payload });
        }
        pos = pend;
    }
    proof {
        assert(data@.subrange(0, 4) =~= crate::encode::header_sig());
    }
    let state = State {
        version,
        entries,
        path_backing: backing,
        tree,
        extensions: opaques,
        checksum: stored,
    };
    proof {
        assert(entries_traced(
            state.entries@,
            state.path_backing@,
            data@,
            options.hash_kind.spec_len(),
            state.version,
            data@.len() - options.hash_kind.spec_len(),
            starts,
            ends,
        ));
        assert(exists|a: Seq<int>, b: Seq<int>|
            #[trigger] entries_traced(
                state.entries@,
                state.path_backing@,
                data@,
                options.hash_kind.spec_len(),
                state.version,
                data@.len() - options.hash_kind.spec_len(),
                a,
                b,
            ));
    }
    Ok((state, Vec::new()))
}

} // verus!
