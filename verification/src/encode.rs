use vstd::prelude::*;
use crate::bytes::{be16, be32, varint_bytes, zero_seq};
use crate::entry::Entry;
use crate::extension::OpaqueExtension;
use crate::hash::{hash_of, HashKind};
use crate::state::State;
use crate::Version;

verus! {

/// Which extension blocks an encode run emits: all the state holds, none at
/// all, or exactly the named ones.
#[derive(Clone, Copy, Debug, PartialEq, Eq, Structural)]
pub enum Extensions {
    /// Every extension the state holds, unrecognized blocks byte-for-byte.
    All,
    /// Exactly the named extensions, when the state holds them; the
    /// end-of-index-entry marker is written last when requested.
    Given { tree_cache: bool, end_of_index_entry: bool },
    /// No extension blocks at all.
    Omit,
}

/// Options of an encode run: the checksum algorithm and the extension
/// selection.
#[derive(Clone, Copy, Debug, PartialEq, Eq, Structural)]
pub struct EncodeOptions {
    pub hash_kind: HashKind,
    pub extensions: Extensions,
}

/// Faults that make an encode run refuse to serialize.
#[derive(Clone, Copy, Debug, PartialEq, Eq, Structural)]
pub enum EncodeError {
    /// The entries are not strictly ascending by (path, stage); writing
    /// them would produce a structurally invalid file.
    OrderingViolation,
}

/// The header's 4-byte signature.
pub open spec fn header_sig() -> Seq<u8> {
    seq![0x44u8, 0x49u8, 0x52u8, 0x43u8]
}

/// The tree-cache extension's 4-byte signature.
pub open spec fn tree_sig() -> Seq<u8> {
    seq![0x54u8, 0x52u8, 0x45u8, 0x45u8]
}

/// The end-of-index-entry extension's 4-byte signature.
pub open spec fn eoie_sig() -> Seq<u8> {
    seq![0x45u8, 0x4fu8, 0x49u8, 0x45u8]
}

/// The version an encode run writes: the state's own version, promoted to
/// at least V3 when any entry carries the extended flags bit, which V2
/// cannot represent. V4 is kept only when the state already records it.
pub open spec fn written_version(s: State) -> Version {
    if s.any_extended() && s.version is V2 {
        Version::V3
    } else {
        s.version
    }
}

/// The 12-byte header: signature, version number, entry count.
pub open spec fn header_bytes(v: Version, n: u32) -> Seq<u8> {
    header_sig() + be32(v.spec_number()) + be32(n)
}

/// The fixed-width front of one entry: the ten metadata words, the object
/// id, the flags word, and the extended flags word when its bit is set.
pub open spec fn entry_fixed_bytes(e: Entry) -> Seq<u8> {
    be32(e.ctime_secs) + be32(e.ctime_nsecs) + be32(e.mtime_secs) + be32(e.mtime_nsecs) + be32(
        e.dev,
    ) + be32(e.ino) + be32(e.mode) + be32(e.uid) + be32(e.gid) + be32(e.size) + e.id@ + be16(
        e.flags,
    ) + (if e.is_extended() {
        be16(e.extended_flags)
    } else {
        Seq::<u8>::empty()
    })
}

/// The first position at or after `i` where the two strings stop agreeing.
pub open spec fn mismatch_from(a: Seq<u8>, b: Seq<u8>, i: int) -> int
    decreases a.len() - i,
{
    if 0 <= i && i < a.len() && i < b.len() && a[i] == b[i] {
        mismatch_from(a, b, i + 1)
    } else {
        i
    }
}

/// The length of the longest common prefix of two byte strings.
pub open spec fn common_prefix_len(a: Seq<u8>, b: Seq<u8>) -> int {
    mismatch_from(a, b, 0)
}

/// The count of zero bytes closing a V2/V3 entry of `n` content bytes: up
/// to the next multiple of eight, at least one (the path's terminator).
pub open spec fn pad_len(n: int) -> int {
    8 - (n % 8)
}

/// The path of the entry before entry `k`, empty for the first entry; V4
/// prefix compression is relative to it.
pub open spec fn prev_path(entries: Seq<Entry>, backing: Seq<u8>, k: int) -> Seq<u8> {
    if k <= 0 {
        Seq::<u8>::empty()
    } else {
        entries[k - 1].path_in(backing)
    }
}

/// One entry's on-disk bytes. V2 and V3 store the path verbatim and pad
/// with zeros to an 8-byte boundary measured from the entry's start; V4
/// stores a strip count against the previous path, the new suffix, and a
/// single terminator, unpadded.
pub open spec fn entry_bytes(e: Entry, backing: Seq<u8>, version: Version, prev: Seq<u8>) -> Seq<
    u8,
> {
    let path = e.path_in(backing);
    if version is V4 {
        let common = common_prefix_len(prev, path);
        entry_fixed_bytes(e) + varint_bytes((prev.len() - common) as nat) + path.skip(common)
            + seq![0u8]
    } else {
        let content = entry_fixed_bytes(e) + path;
        content + zero_seq(pad_len(content.len() as int) as nat)
    }
}

/// The on-disk bytes of the first `k` entries, concatenated.
pub open spec fn entries_bytes_upto(
    entries: Seq<Entry>,
    backing: Seq<u8>,
    version: Version,
    k: int,
) -> Seq<u8>
    decreases k,
{
    if k <= 0 {
        Seq::<u8>::empty()
    } else {
        entries_bytes_upto(entries, backing, version, k - 1) + entry_bytes(
            entries[k - 1],
            backing,
            version,
            prev_path(entries, backing, k - 1),
        )
    }
}

/// The full entry section of a state under a version.
pub open spec fn entries_bytes(s: State, version: Version) -> Seq<u8> {
    entries_bytes_upto(s.entries@, s.path_backing@, version, s.entries@.len() as int)
}

/// One extension block: signature, big-endian payload length, payload.
pub open spec fn block_bytes(sig: Seq<u8>, payload: Seq<u8>) -> Seq<u8> {
    sig + be32(payload.len() as u32) + payload
}

/// One extension block's header alone: signature and length. The
/// end-of-index-entry digest covers these.
pub open spec fn block_header(sig: Seq<u8>, payload: Seq<u8>) -> Seq<u8> {
    sig + be32(payload.len() as u32)
}

/// The tree-cache block of a state, empty when it holds no tree cache.
pub open spec fn tree_block(s: State) -> Seq<u8> {
    match s.tree {
        Some(t) => block_bytes(tree_sig(), t.spec_payload()),
        None => Seq::<u8>::empty(),
    }
}

/// The tree-cache block's header, empty when the state holds no tree cache.
pub open spec fn tree_header(s: State) -> Seq<u8> {
    match s.tree {
        Some(t) => block_header(tree_sig(), t.spec_payload()),
        None => Seq::<u8>::empty(),
    }
}

/// The blocks of the first `k` opaque extensions, byte-for-byte as decoded.
pub open spec fn opaque_blocks_upto(exts: Seq<OpaqueExtension>, k: int) -> Seq<u8>
    decreases k,
{
    if k <= 0 {
        Seq::<u8>::empty()
    } else {
        opaque_blocks_upto(exts, k - 1) + block_bytes(
            exts[k - 1].signature@,
            exts[k - 1].payload@,
        )
    }
}

/// The headers of the first `k` opaque extensions' blocks.
pub open spec fn opaque_headers_upto(exts: Seq<OpaqueExtension>, k: int) -> Seq<u8>
    decreases k,
{
    if k <= 0 {
        Seq::<u8>::empty()
    } else {
        opaque_headers_upto(exts, k - 1) + block_header(
            exts[k - 1].signature@,
            exts[k - 1].payload@,
        )
    }
}

/// Every extension block an encode run emits before the end-of-index-entry
/// marker, in canonical order: the tree cache first, then the opaque blocks
/// in their decoded order.
pub open spec fn ext_blocks_bytes(s: State, x: Extensions) -> Seq<u8> {
    match x {
        Extensions::Omit => Seq::<u8>::empty(),
        Extensions::Given { tree_cache, .. } => if tree_cache {
            tree_block(s)
        } else {
            Seq::<u8>::empty()
        },
        Extensions::All => tree_block(s) + opaque_blocks_upto(
            s.extensions@,
            s.extensions@.len() as int,
        ),
    }
}

/// The headers of those blocks, in the same order.
pub open spec fn ext_headers_bytes(s: State, x: Extensions) -> Seq<u8> {
    match x {
        Extensions::Omit => Seq::<u8>::empty(),
        Extensions::Given { tree_cache, .. } => if tree_cache {
            tree_header(s)
        } else {
            Seq::<u8>::empty()
        },
        Extensions::All => tree_header(s) + opaque_headers_upto(
            s.extensions@,
            s.extensions@.len() as int,
        ),
    }
}

/// Whether the options ask for the end-of-index-entry marker.
pub open spec fn eoie_requested(x: Extensions) -> bool {
    x matches Extensions::Given { end_of_index_entry: true, .. }
}

/// The end-of-index-entry block: its payload records the byte offset where
/// the extension section begins and a digest over the headers of every
/// preceding extension block.
pub open spec fn eoie_block(s: State, x: Extensions, kind: HashKind, offset: u32) -> Seq<u8> {
    eoie_sig() + be32((4 + kind.spec_len()) as u32) + be32(offset) + hash_of(
        kind,
        ext_headers_bytes(s, x),
    )
}

/// The whole extension section: the selected blocks, then the
/// end-of-index-entry marker last when requested.
pub open spec fn ext_section_bytes(s: State, x: Extensions, kind: HashKind, offset: u32) -> Seq<
    u8,
> {
    ext_blocks_bytes(s, x) + (if eoie_requested(x) {
        eoie_block(s, x, kind, offset)
    } else {
        Seq::<u8>::empty()
    })
}

/// Everything an encode run writes before the checksum trailer.
pub open spec fn body_bytes(s: State, o: EncodeOptions) -> Seq<u8> {
    let v = written_version(s);
    let ents = entries_bytes(s, v);
    header_bytes(v, s.entries@.len() as u32) + ents + ext_section_bytes(
        s,
        o.extensions,
        o.hash_kind,
        (12 + ents.len()) as u32,
    )
}

/// The full file: the body sealed by its digest under the chosen algorithm.
pub open spec fn file_bytes(s: State, o: EncodeOptions) -> Seq<u8> {
    body_bytes(s, o) + hash_of(o.hash_kind, body_bytes(s, o))
}

/// Format limits an encode run relies on: counts and lengths that on-disk
/// 32-bit fields must hold, and object ids of the trailer algorithm's
/// width.
pub open spec fn encodable(s: State, o: EncodeOptions) -> bool {
    &&& s.entries@.len() <= u32::MAX
    &&& (forall|i: int|
        0 <= i < s.entries@.len() ==> (#[trigger] s.entries@[i]).id@.len()
            == o.hash_kind.spec_len())
    &&& (match s.tree {
        Some(t) => t.spec_payload().len() <= u32::MAX,
        None => true,
    })
    &&& (forall|i: int|
        0 <= i < s.extensions@.len() ==> (#[trigger] s.extensions@[i]).payload@.len()
            <= u32::MAX)
    &&& (eoie_requested(o.extensions) ==> 12 + entries_bytes(s, written_version(s)).len()
        <= u32::MAX)
}

/// The length of the longest common prefix of two byte strings.
fn common_prefix(a: &Vec<u8>, b: &Vec<u8>) -> (r: usize)
    ensures
        r == common_prefix_len(a@, b@),
        r <= a@.len(),
        r <= b@.len(),
{
    let mut k: usize = 0;
    while k < a.len() && k < b.len() && a[k] == b[k]
        invariant
            k <= a@.len(),
            k <= b@.len(),
            mismatch_from(a@, b@, 0) == mismatch_from(a@, b@, k as int),
        decreases a@.len() - k,
    {
        proof {
            assert(mismatch_from(a@, b@, k as int) == mismatch_from(a@, b@, k + 1));
        }
        k = k + 1;
    }
    proof {
        assert(mismatch_from(a@, b@, k as int) == k);
    }
    k
}

fn any_extended(s: &State) -> (r: bool)
    ensures
        r == s.any_extended(),
{
    let mut i: usize = 0;
    while i < s.entries.len()
        invariant
            i <= s.entries@.len(),
            forall|j: int| 0 <= j < i ==> !(#[trigger] s.entries@[j]).is_extended(),
        decreases s.entries@.len() - i,
    {
        if s.entries[i].has_extended_flags() {
            return true;
        }
        i = i + 1;
    }
    false
}

/// Appends the on-disk bytes of entry `i` to `out`.
#[verifier::rlimit(100)]
fn write_entry(s: &State, i: usize, version: Version, out: &mut Vec<u8>)
    requires
        i < s.entries@.len(),
        s.wf(),
    ensures
        final(out)@ == old(out)@ + entry_bytes(
            s.entries@[i as int],
            s.path_backing@,
            version,
            prev_path(s.entries@, s.path_backing@, i as int),
        ),
{
    let ghost orig: Seq<u8> = out@;
    let start = out.len();
    let e = &s.entries[i];
    crate::bytes::push_be32(out, e.ctime_secs);
    crate::bytes::push_be32(out, e.ctime_nsecs);
    crate::bytes::push_be32(out, e.mtime_secs);
    crate::bytes::push_be32(out, e.mtime_nsecs);
    crate::bytes::push_be32(out, e.dev);
    crate::bytes::push_be32(out, e.ino);
    crate::bytes::push_be32(out, e.mode);
    crate::bytes::push_be32(out, e.uid);
    crate::bytes::push_be32(out, e.gid);
    crate::bytes::push_be32(out, e.size);
    crate::bytes::push_bytes(out, &e.id, 0, e.id.len());
    crate::bytes::push_be16(out, e.flags);
    if e.has_extended_flags() {
        crate::bytes::push_be16(out, e.extended_flags);
    }
    proof {
        assert(e.id@.subrange(0, e.id@.len() as int) =~= e.id@);
        assert(out@ =~= orig + entry_fixed_bytes(*e));
    }
    match version {
        Version::V4 => {
            let prev: Vec<u8> = if i == 0 {
                Vec::new()
            } else {
                s.path_of(i - 1)
            };
            let cur: Vec<u8> = s.path_of(i);
            let c = common_prefix(&prev, &cur);
            crate::bytes::push_varint(out, (prev.len() - c) as u64);
            crate::bytes::push_bytes(out, &cur, c, cur.len());
            out.push(0u8);
            proof {
                assert(prev@ =~= prev_path(s.entries@, s.path_backing@, i as int));
                assert(cur@.subrange(c as int, cur@.len() as int) =~= cur@.skip(c as int));
                assert(out@ =~= orig + entry_bytes(
                    s.entries@[i as int],
                    s.path_backing@,
                    version,
                    prev_path(s.entries@, s.path_backing@, i as int),
                ));
            }
        },
        _ => {
            let backing_len = s.path_backing.len();
            proof {
                assert(e.path_offset + e.path_len <= backing_len);
            }
            crate::bytes::push_bytes(out, &s.path_backing, e.path_offset, e.path_offset + e.path_len);
            let content_len = out.len() - start;
            let pad = 8 - (content_len % 8);
            crate::bytes::push_zeros(out, pad);
            proof {
                let content = entry_fixed_bytes(*e) + e.path_in(s.path_backing@);
                assert(out@ =~= orig + content + zero_seq(pad as nat));
                assert(pad == pad_len(content.len() as int));
                assert(out@ =~= orig + entry_bytes(
                    s.entries@[i as int],
                    s.path_backing@,
                    version,
                    prev_path(s.entries@, s.path_backing@, i as int),
                ));
            }
        },
    }
}

/// Appends one extension block to `out` and its header to `hdrs`.
fn push_block(out: &mut Vec<u8>, hdrs: &mut Vec<u8>, sig: &Vec<u8>, payload: &Vec<u8>)
    requires
        sig@.len() == 4,
        payload@.len() <= u32::MAX,
    ensures
        final(out)@ == old(out)@ + block_bytes(sig@, payload@),
        final(hdrs)@ == old(hdrs)@ + block_header(sig@, payload@),
{
    crate::bytes::push_bytes(out, sig, 0, sig.len());
    crate::bytes::push_be32(out, payload.len() as u32);
    crate::bytes::push_bytes(out, payload, 0, payload.len());
    crate::bytes::push_bytes(hdrs, sig, 0, sig.len());
    crate::bytes::push_be32(hdrs, payload.len() as u32);
    proof {
        assert(sig@.subrange(0, sig@.len() as int) =~= sig@);
        assert(payload@.subrange(0, payload@.len() as int) =~= payload@);
        assert(out@ =~= old(out)@ + block_bytes(sig@, payload@));
        assert(hdrs@ =~= old(hdrs)@ + block_header(sig@, payload@));
    }
}

fn tree_sig_vec() -> (r: Vec<u8>)
    ensures
        r@ == tree_sig(),
{
    let mut v: Vec<u8> = Vec::new();
    v.push(0x54u8);
    v.push(0x52u8);
    v.push(0x45u8);
    v.push(0x45u8);
    proof {
        assert(v@ =~= tree_sig());
    }
    v
}

/// Appends the whole extension section to `out`; `offset` is the byte
/// position where the section begins, as the end-of-index-entry marker
/// records it.
fn write_extensions(s: &State, options: EncodeOptions, offset: u32, out: &mut Vec<u8>)
    requires
        s.wf(),
        encodable(*s, options),
    ensures
        final(out)@ == old(out)@ + ext_section_bytes(*s, options.extensions, options.hash_kind, offset),
{
    let ghost orig: Seq<u8> = out@;
    let mut hdrs: Vec<u8> = Vec::new();
    let emit_tree: bool = match options.extensions {
        Extensions::Omit => false,
        Extensions::Given { tree_cache, .. } => tree_cache,
        Extensions::All => true,
    };
    if emit_tree {
        match &s.tree {
            Some(t) => {
                let mut payload: Vec<u8> = Vec::new();
                t.encode_payload(&mut payload);
                let sig = tree_sig_vec();
                push_block(out, &mut hdrs, &sig, &payload);
            },
            None => {},
        }
    }
    proof {
        assert(out@ =~= orig + (if emit_tree {
            tree_block(*s)
        } else {
            Seq::<u8>::empty()
        }));
        assert(hdrs@ =~= if emit_tree {
            tree_header(*s)
        } else {
            Seq::<u8>::empty()
        });
    }
    match options.extensions {
        Extensions::All => {
            let ghost after_tree: Seq<u8> = out@;
            let ghost after_tree_h: Seq<u8> = hdrs@;
            let mut i: usize = 0;
            while i < s.extensions.len()
                invariant
                    i <= s.extensions@.len(),
                    s.wf(),
                    encodable(*s, options),
                    out@ == after_tree + opaque_blocks_upto(s.extensions@, i as int),
                    hdrs@ == after_tree_h + opaque_headers_upto(s.extensions@, i as int),
                decreases s.extensions@.len() - i,
            {
                let ext = &s.extensions[i];
                push_block(out, &mut hdrs, &ext.signature, &ext.payload);
                proof {
                    assert(out@ =~= after_tree + opaque_blocks_upto(s.extensions@, i + 1));
                    assert(hdrs@ =~= after_tree_h + opaque_headers_upto(s.extensions@, i + 1));
                }
                i = i + 1;
            }
            proof {
                assert(out@ =~= orig + ext_blocks_bytes(*s, options.extensions));
                assert(out@ =~= orig + ext_section_bytes(
                    *s,
                    options.extensions,
                    options.hash_kind,
                    offset,
                ));
            }
        },
        Extensions::Given { end_of_index_entry, .. } => {
            proof {
                assert(out@ =~= orig + ext_blocks_bytes(*s, options.extensions));
                assert(hdrs@ =~= ext_headers_bytes(*s, options.extensions));
            }
            if end_of_index_entry {
                let digest = crate::hash::compute_checksum(options.hash_kind, hdrs.as_slice());
                let mut sig: Vec<u8> = Vec::new();
                sig.push(0x45u8);
                sig.push(0x4fu8);
                sig.push(0x49u8);
                sig.push(0x45u8);
                crate::bytes::push_bytes(out, &sig, 0, 4);
                crate::bytes::push_be32(out, 4 + (options.hash_kind.len() as u32));
                crate::bytes::push_be32(out, offset);
                crate::bytes::push_bytes(out, &digest, 0, digest.len());
                proof {
                    assert(sig@.subrange(0, 4) =~= eoie_sig());
                    assert(digest@.subrange(0, digest@.len() as int) =~= digest@);
                    assert(out@ =~= orig + ext_blocks_bytes(*s, options.extensions) + eoie_block(
                        *s,
                        options.extensions,
                        options.hash_kind,
                        offset,
                    ));
                }
            }
            proof {
                assert(out@ =~= orig + ext_section_bytes(
                    *s,
                    options.extensions,
                    options.hash_kind,
                    offset,
                ));
            }
        },
        Extensions::Omit => {
            proof {
                assert(out@ =~= orig + ext_section_bytes(
                    *s,
                    options.extensions,
                    options.hash_kind,
                    offset,
                ));
            }
        },
    }
}

/// Serializes a state per the options: header, entries in ascending
/// (path, stage) order, the selected extension blocks, and the checksum
/// trailer. The version written is the state's, promoted to V3 when any
/// entry carries extended flags; it is returned so a caller learns of the
/// upgrade. A state whose entries are out of order is refused, never
/// written.
pub fn encode(state: &State, options: EncodeOptions) -> (r: Result<(Vec<u8>, Version), EncodeError>)
    requires
        state.wf(),
        encodable(*state, options),
    ensures
        r is Err <==> !state.sorted(),
        match r {
            Ok((out, v)) => out@ == file_bytes(*state, options) && v == written_version(*state),
            Err(e) => e == EncodeError::OrderingViolation,
        },
{
    match state.verify_entries() {
        Err(_) => {
            return Err(EncodeError::OrderingViolation);
        },
        Ok(()) => {},
    }
    let version = if any_extended(state) {
        match state.version {
            Version::V2 => Version::V3,
            v => v,
        }
    } else {
        state.version
    };
    proof {
        assert(version == written_version(*state));
    }
    let mut out: Vec<u8> = Vec::new();
    out.push(0x44u8);
    out.push(0x49u8);
    out.push(0x52u8);
    out.push(0x43u8);
    crate::bytes::push_be32(&mut out, version.to_number());
    crate::bytes::push_be32(&mut out, state.entries.len() as u32);
    proof {
        assert(out@ =~= header_bytes(version, state.entries@.len() as u32));
    }
    let ghost hdr: Seq<u8> = out@;
    let mut i: usize = 0;
    while i < state.entries.len()
        invariant
            i <= state.entries@.len(),
            state.wf(),
            out@ == hdr + entries_bytes_upto(state.entries@, state.path_backing@, version, i as int),
        decreases state.entries@.len() - i,
    {
        write_entry(state, i, version, &mut out);
        i = i + 1;
        proof {
            assert(out@ =~= hdr + entries_bytes_upto(
                state.entries@,
                state.path_backing@,
                version,
                i as int,
            ));
        }
    }
    proof {
        assert(out@.len() == 12 + entries_bytes(*state, version).len());
    }
    // The offset reaches the file only when the end-of-index-entry marker
    // is requested, and the preconditions then guarantee it fits the field.
    let offset: u32 = if out.len() <= 0xffff_ffffusize {
        out.len() as u32
    } else {
        0
    };
    write_extensions(state, options, offset, &mut out);
    let digest = crate::hash::compute_checksum(options.hash_kind, out.as_slice());
    let ghost body: Seq<u8> = out@;
    crate::bytes::push_bytes(&mut out, &digest, 0, digest.len());
    proof {
        assert(digest@.subrange(0, digest@.len() as int) =~= digest@);
        assert(body =~= body_bytes(*state, options));
        assert(out@ =~= file_bytes(*state, options));
    }
    Ok((out, version))
}

} // verus!
