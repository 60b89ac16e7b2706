use vstd::prelude::*;
use crate::bytes::{be32, be32_val};
use crate::bytes::{be16, be16_val, zero_seq};
use crate::encode::{
    block_bytes, body_bytes, entries_bytes, entries_bytes_upto, entry_bytes, entry_fixed_bytes,
    eoie_requested, eoie_sig, ext_blocks_bytes, ext_headers_bytes, file_bytes, header_bytes,
    header_sig, opaque_blocks_upto, pad_len, prev_path, tree_block, written_version,
    EncodeOptions,
};
use crate::decode::{entries_traced, entry_at};
use crate::entry::Entry;
use crate::extension::OpaqueExtension;
use crate::hash::hash_of;
use crate::state::State;
use crate::Version;

verus! {

/// Law: a V2 state in which at least one entry carries the extended flags
/// bit is written as V3 — the encoder promotes the version instead of
/// dropping the extended word.
pub proof fn lemma_extended_flags_upgrade(s: State)
    requires
        s.version == Version::V2,
        exists|i: int| 0 <= i < s.entries@.len() && (#[trigger] s.entries@[i]).is_extended(),
    ensures
        written_version(s) == Version::V3,
{
}

/// Law: the written version is never below the state's recorded version; a
/// version promotion never becomes a downgrade.
pub proof fn lemma_no_downgrade(s: State)
    ensures
        written_version(s).spec_number() >= s.version.spec_number(),
{
}

/// Law: encoding with all extensions suppressed yields exactly the header,
/// the entries and the checksum trailer — not one extension byte, whatever
/// extensions the state holds.
pub proof fn lemma_extension_suppression(s: State, o: EncodeOptions)
    requires
        o.extensions is Omit,
    ensures
        body_bytes(s, o) == header_bytes(written_version(s), s.entries@.len() as u32)
            + entries_bytes(s, written_version(s)),
        file_bytes(s, o) == body_bytes(s, o) + hash_of(o.hash_kind, body_bytes(s, o)),
{
    assert(body_bytes(s, o) =~= header_bytes(written_version(s), s.entries@.len() as u32)
        + entries_bytes(s, written_version(s)));
}

/// Law: when the end-of-index-entry marker is requested, its block is the
/// last of the body, after every other emitted extension, and the offset
/// its payload records equals the byte position where the extension section
/// begins — the length of the header plus the entry section.
pub proof fn lemma_eoie_placement(s: State, o: EncodeOptions)
    requires
        eoie_requested(o.extensions),
    ensures
        ({
            let ents = entries_bytes(s, written_version(s));
            body_bytes(s, o) == header_bytes(written_version(s), s.entries@.len() as u32) + ents
                + ext_blocks_bytes(s, o.extensions) + (eoie_sig() + be32(
                (4 + o.hash_kind.spec_len()) as u32,
            ) + be32((12 + ents.len()) as u32) + hash_of(
                o.hash_kind,
                ext_headers_bytes(s, o.extensions),
            ))
        }),
{
    let ents = entries_bytes(s, written_version(s));
    assert(body_bytes(s, o) =~= header_bytes(written_version(s), s.entries@.len() as u32) + ents
        + ext_blocks_bytes(s, o.extensions) + (eoie_sig() + be32(
        (4 + o.hash_kind.spec_len()) as u32,
    ) + be32((12 + ents.len()) as u32) + hash_of(
        o.hash_kind,
        ext_headers_bytes(s, o.extensions),
    )));
}

/// Within the concatenation of the first `k` opaque blocks, block `i` sits
/// right after the first `i` blocks, byte-for-byte.
proof fn lemma_opaque_block_in_upto(exts: Seq<OpaqueExtension>, i: int, k: int)
    requires
        0 <= i < k <= exts.len(),
    ensures
        ({
            let block = block_bytes(exts[i].signature@, exts[i].payload@);
            let off = opaque_blocks_upto(exts, i).len() as int;
            &&& off + block.len() <= opaque_blocks_upto(exts, k).len()
            &&& opaque_blocks_upto(exts, k).subrange(off, off + block.len()) == block
        }),
    decreases k,
{
    let block = block_bytes(exts[i].signature@, exts[i].payload@);
    let off = opaque_blocks_upto(exts, i).len() as int;
    if k == i + 1 {
        assert(opaque_blocks_upto(exts, k) == opaque_blocks_upto(exts, i) + block);
        assert(opaque_blocks_upto(exts, k).subrange(off, off + block.len()) =~= block);
    } else {
        lemma_opaque_block_in_upto(exts, i, k - 1);
        assert(opaque_blocks_upto(exts, k).subrange(off, off + block.len())
            =~= opaque_blocks_upto(exts, k - 1).subrange(off, off + block.len()));
    }
}

/// The byte position of opaque extension `i`'s block in the encoded file
/// when every extension is written.
pub open spec fn opaque_block_offset(s: State, i: int) -> int {
    (12 + entries_bytes(s, written_version(s)).len() + tree_block(s).len() + opaque_blocks_upto(
        s.extensions@,
        i,
    ).len()) as int
}

/// Law: with all extensions requested, every opaque extension block the
/// state holds — a block whose signature the decoder did not recognize —
/// appears in the encoded file contiguously and byte-for-byte: signature,
/// length, payload, at its position in the extension section.
pub proof fn lemma_unknown_extension_preserved(s: State, o: EncodeOptions, i: int)
    requires
        o.extensions is All,
        0 <= i < s.extensions@.len(),
    ensures
        ({
            let block = block_bytes(s.extensions@[i].signature@, s.extensions@[i].payload@);
            let off = opaque_block_offset(s, i);
            &&& 0 <= off
            &&& off + block.len() <= file_bytes(s, o).len()
            &&& file_bytes(s, o).subrange(off, off + block.len()) == block
        }),
{
    let exts = s.extensions@;
    let n = exts.len() as int;
    let block = block_bytes(exts[i].signature@, exts[i].payload@);
    let off = opaque_block_offset(s, i);
    lemma_opaque_block_in_upto(exts, i, n);
    let hdr = header_bytes(written_version(s), s.entries@.len() as u32);
    let ents = entries_bytes(s, written_version(s));
    let prefix = hdr + ents + tree_block(s);
    assert(hdr.len() == 12);
    assert(body_bytes(s, o) =~= prefix + opaque_blocks_upto(exts, n));
    assert(off == prefix.len() + opaque_blocks_upto(exts, i).len());
    assert(body_bytes(s, o).subrange(off, off + block.len()) =~= opaque_blocks_upto(
        exts,
        n,
    ).subrange(
        opaque_blocks_upto(exts, i).len() as int,
        (opaque_blocks_upto(exts, i).len() + block.len()) as int,
    ));
    assert(file_bytes(s, o).subrange(off, off + block.len()) =~= body_bytes(s, o).subrange(
        off,
        off + block.len(),
    ));
}

/// Law: the encoded file under any options is its body sealed by the digest
/// of exactly that body; the trailer never covers or omits a byte.
pub proof fn lemma_checksum_seals_body(s: State, o: EncodeOptions)
    ensures
        file_bytes(s, o).len() == body_bytes(s, o).len() + hash_of(
            o.hash_kind,
            body_bytes(s, o),
        ).len(),
        file_bytes(s, o).subrange(0, body_bytes(s, o).len() as int) == body_bytes(s, o),
        file_bytes(s, o).subrange(
            body_bytes(s, o).len() as int,
            file_bytes(s, o).len() as int,
        ) == hash_of(o.hash_kind, body_bytes(s, o)),
{
    assert(file_bytes(s, o).subrange(0, body_bytes(s, o).len() as int) =~= body_bytes(s, o));
    assert(file_bytes(s, o).subrange(body_bytes(s, o).len() as int, file_bytes(s, o).len() as int)
        =~= hash_of(o.hash_kind, body_bytes(s, o)));
}

/// Law: the extension selection never touches the header or the entry
/// section: under any two option sets with them, the encoded bodies agree
/// byte-for-byte up to the end of the entries.
pub proof fn lemma_extensions_do_not_touch_entries(s: State, o1: EncodeOptions, o2: EncodeOptions)
    ensures
        ({
            let end = 12 + entries_bytes(s, written_version(s)).len() as int;
            body_bytes(s, o1).subrange(0, end) == body_bytes(s, o2).subrange(0, end)
                && body_bytes(s, o1).subrange(0, end) == header_bytes(
                written_version(s),
                s.entries@.len() as u32,
            ) + entries_bytes(s, written_version(s))
        }),
{
    let end = 12 + entries_bytes(s, written_version(s)).len() as int;
    assert(body_bytes(s, o1).subrange(0, end) =~= header_bytes(
        written_version(s),
        s.entries@.len() as u32,
    ) + entries_bytes(s, written_version(s)));
    assert(body_bytes(s, o2).subrange(0, end) =~= header_bytes(
        written_version(s),
        s.entries@.len() as u32,
    ) + entries_bytes(s, written_version(s)));
}

/// Two strings equal as prefixes of length `n` agree at every position
/// below `n`.
proof fn lemma_prefix_point(x: Seq<u8>, y: Seq<u8>, n: int, i: int)
    requires
        0 <= i < n <= x.len(),
        n <= y.len(),
        x.subrange(0, n) == y.subrange(0, n),
    ensures
        x[i] == y[i],
{
    assert(x.subrange(0, n)[i] == y.subrange(0, n)[i]);
    assert(x.subrange(0, n)[i] == x[i]);
    assert(y.subrange(0, n)[i] == y[i]);
}

/// No string is lexicographically below itself.
pub proof fn lemma_lex_less_irreflexive(a: Seq<u8>)
    ensures
        !crate::state::lex_less(a, a),
{
}

/// Strict lexicographic order on byte strings is transitive.
pub proof fn lemma_lex_less_transitive(a: Seq<u8>, b: Seq<u8>, c: Seq<u8>)
    requires
        crate::state::lex_less(a, b),
        crate::state::lex_less(b, c),
    ensures
        crate::state::lex_less(a, c),
{
    assert(a.subrange(0, a.len() as int) =~= a);
    assert(b.subrange(0, b.len() as int) =~= b);
    if a.len() < b.len() && a == b.subrange(0, a.len() as int) {
        if b.len() < c.len() && b == c.subrange(0, b.len() as int) {
            assert forall|i: int| 0 <= i < a.len() implies a[i] == c[i] by {
                lemma_prefix_point(a, b, a.len() as int, i);
                lemma_prefix_point(b, c, b.len() as int, i);
            }
            assert(a =~= c.subrange(0, a.len() as int));
        } else {
            let k2 = choose|i: int|
                0 <= i < b.len() && i < c.len() && b.subrange(0, i) == c.subrange(0, i) && b[i]
                    < c[i];
            if k2 < a.len() {
                assert forall|i: int| 0 <= i < k2 implies a[i] == c[i] by {
                    lemma_prefix_point(a, b, a.len() as int, i);
                    lemma_prefix_point(b, c, k2, i);
                }
                assert(a.subrange(0, k2) =~= c.subrange(0, k2));
                lemma_prefix_point(a, b, a.len() as int, k2);
                assert(a[k2] < c[k2]);
            } else {
                assert forall|i: int| 0 <= i < a.len() implies a[i] == c[i] by {
                    lemma_prefix_point(a, b, a.len() as int, i);
                    lemma_prefix_point(b, c, k2, i);
                }
                assert(a =~= c.subrange(0, a.len() as int));
            }
        }
    } else {
        let k1 = choose|i: int|
            0 <= i < a.len() && i < b.len() && a.subrange(0, i) == b.subrange(0, i) && a[i] < b[i];
        if b.len() < c.len() && b == c.subrange(0, b.len() as int) {
            assert forall|i: int| 0 <= i < k1 implies a[i] == c[i] by {
                lemma_prefix_point(a, b, k1, i);
                lemma_prefix_point(b, c, b.len() as int, i);
            }
            assert(a.subrange(0, k1) =~= c.subrange(0, k1));
            lemma_prefix_point(b, c, b.len() as int, k1);
            assert(a[k1] < c[k1]);
        } else {
            let k2 = choose|i: int|
                0 <= i < b.len() && i < c.len() && b.subrange(0, i) == c.subrange(0, i) && b[i]
                    < c[i];
            let k = if k1 < k2 {
                k1
            } else {
                k2
            };
            assert forall|i: int| 0 <= i < k implies a[i] == c[i] by {
                lemma_prefix_point(a, b, k1, i);
                lemma_prefix_point(b, c, k2, i);
            }
            assert(a.subrange(0, k) =~= c.subrange(0, k));
            if k1 < k2 {
                lemma_prefix_point(b, c, k2, k1);
                assert(a[k1] < c[k1]);
            } else if k2 < k1 {
                lemma_prefix_point(a, b, k1, k2);
                assert(a[k2] < c[k2]);
            } else {
                assert(a[k1] < b[k1] && b[k1] < c[k1]);
            }
        }
    }
}

/// Law: in a sorted state every earlier entry comes strictly before every
/// later one, not only its neighbour.
pub proof fn lemma_sorted_total(s: State, i: int, j: int)
    requires
        s.sorted(),
        0 <= i < j < s.entries@.len(),
    ensures
        s.entry_less(i, j),
    decreases j - i,
{
    if j == i + 1 {
        assert(s.entry_less(i, i + 1));
    } else {
        lemma_sorted_total(s, i, j - 1);
        assert(s.entry_less(j - 1, (j - 1) + 1));
        if crate::state::lex_less(s.spec_path(i), s.spec_path(j - 1)) {
            if crate::state::lex_less(s.spec_path(j - 1), s.spec_path(j)) {
                lemma_lex_less_transitive(s.spec_path(i), s.spec_path(j - 1), s.spec_path(j));
            }
        }
    }
}

/// Law: the ordering invariant rules out duplicates — no two distinct
/// entries of a sorted state share both path and stage.
pub proof fn lemma_sorted_unique(s: State, i: int, j: int)
    requires
        s.sorted(),
        0 <= i < j < s.entries@.len(),
    ensures
        !(s.spec_path(i) == s.spec_path(j) && s.entries@[i].stage() == s.entries@[j].stage()),
{
    lemma_sorted_total(s, i, j);
    lemma_lex_less_irreflexive(s.spec_path(i));
}

/// Reading back the big-endian bytes of a 32-bit word gives the word.
pub proof fn lemma_be32_roundtrip(v: u32)
    ensures
        be32_val(be32(v)) == v,
{
    let b0 = ((v >> 24) & 0xff) as u8;
    let b1 = ((v >> 16) & 0xff) as u8;
    let b2 = ((v >> 8) & 0xff) as u8;
    let b3 = (v & 0xff) as u8;
    assert((((b0 as u32) << 24) | ((b1 as u32) << 16) | ((b2 as u32) << 8) | (b3 as u32)) as u32
        == v) by (bit_vector)
        requires
            b0 == ((v >> 24) & 0xff) as u8,
            b1 == ((v >> 16) & 0xff) as u8,
            b2 == ((v >> 8) & 0xff) as u8,
            b3 == (v & 0xff) as u8,
    ;
}

/// Law: every encoded file opens with the index signature, the written
/// version and the entry count, in the very fields a decode run reads them
/// back from.
pub proof fn lemma_header_fields(s: State, o: EncodeOptions)
    ensures
        file_bytes(s, o).subrange(0, 4) == header_sig(),
        be32_val(file_bytes(s, o).subrange(4, 8)) == written_version(s).spec_number(),
        be32_val(file_bytes(s, o).subrange(8, 12)) == s.entries@.len() as u32,
{
    lemma_be32_roundtrip(written_version(s).spec_number());
    lemma_be32_roundtrip(s.entries@.len() as u32);
    assert(file_bytes(s, o).subrange(0, 4) =~= header_sig());
    assert(file_bytes(s, o).subrange(4, 8) =~= be32(written_version(s).spec_number()));
    assert(file_bytes(s, o).subrange(8, 12) =~= be32(s.entries@.len() as u32));
}

/// Two entries carry the same record: every stored field agrees, and the
/// paths read out of the respective backing buffers are the same bytes.
pub open spec fn entry_record_equal(a: Entry, ab: Seq<u8>, b: Entry, bb: Seq<u8>) -> bool {
    &&& a.ctime_secs == b.ctime_secs
    &&& a.ctime_nsecs == b.ctime_nsecs
    &&& a.mtime_secs == b.mtime_secs
    &&& a.mtime_nsecs == b.mtime_nsecs
    &&& a.dev == b.dev
    &&& a.ino == b.ino
    &&& a.mode == b.mode
    &&& a.uid == b.uid
    &&& a.gid == b.gid
    &&& a.size == b.size
    &&& a.id@ == b.id@
    &&& a.flags == b.flags
    &&& a.extended_flags == b.extended_flags
    &&& a.path_len == b.path_len
    &&& a.path_in(ab) == b.path_in(bb)
}

proof fn lemma_traced_prefix_equal(
    e1: Seq<Entry>,
    b1: Seq<u8>,
    e2: Seq<Entry>,
    b2: Seq<u8>,
    data: Seq<u8>,
    hl: int,
    version: Version,
    limit: int,
    s1: Seq<int>,
    n1: Seq<int>,
    s2: Seq<int>,
    n2: Seq<int>,
    k: int,
    limit2: int,
)
    requires
        !(version is V4),
        0 <= hl,
        entries_traced(e1, b1, data, hl, version, limit, s1, n1),
        entries_traced(e2, b2, data, hl, version, limit2, s2, n2),
        e1.len() == e2.len(),
        forall|i: int| 0 <= i < e1.len() ==> (#[trigger] e1[i]).wf(b1),
        forall|i: int| 0 <= i < e2.len() ==> (#[trigger] e2[i]).wf(b2),
        0 <= k <= e1.len(),
    ensures
        forall|i: int| 0 <= i < k ==> #[trigger] entry_record_equal(e1[i], b1, e2[i], b2),
        forall|i: int| 0 <= i < k ==> (#[trigger] s1[i]) == s2[i],
        forall|i: int| 0 <= i < k ==> (#[trigger] n1[i]) == n2[i],
    decreases k,
{
    if k > 0 {
        lemma_traced_prefix_equal(
            e1,
            b1,
            e2,
            b2,
            data,
            hl,
            version,
            limit,
            s1,
            n1,
            s2,
            n2,
            k - 1,
            limit2,
        );
        let i = k - 1;
        let a = e1[i];
        let b = e2[i];
        assert(entry_at(a, data, s1[i], n1[i], hl, version, b1, limit));
        assert(entry_at(b, data, s2[i], n2[i], hl, version, b2, limit2));
        assert(a.wf(b1));
        assert(b.wf(b2));
        if i > 0 {
            assert(n1[i - 1] == n2[i - 1]);
        }
        assert(s1[i] == s2[i]);
        let start = s1[i];
        assert(a.flags == b.flags);
        assert(a.is_extended() == b.is_extended());
        let pstart = start + 42 + hl + (if a.is_extended() {
            2int
        } else {
            0int
        });
        assert(a.path_len == b.path_len) by {
            if a.path_len < b.path_len {
                assert(b.path_in(b2) == data.subrange(pstart, pstart + b.path_len));
                assert(data.subrange(pstart, pstart + b.path_len)[a.path_len as int] == data[pstart
                    + a.path_len]);
                assert(b2.subrange(b.path_offset as int, b.path_offset + b.path_len)[a.path_len as int]
                    == b2[b.path_offset + a.path_len]);
                assert(data[pstart + a.path_len] == 0);
                assert(b2[b.path_offset + a.path_len] != 0);
            } else if b.path_len < a.path_len {
                assert(a.path_in(b1) == data.subrange(pstart, pstart + a.path_len));
                assert(data.subrange(pstart, pstart + a.path_len)[b.path_len as int] == data[pstart
                    + b.path_len]);
                assert(b1.subrange(a.path_offset as int, a.path_offset + a.path_len)[b.path_len as int]
                    == b1[a.path_offset + b.path_len]);
                assert(data[pstart + b.path_len] == 0);
                assert(b1[a.path_offset + b.path_len] != 0);
            }
        }
        assert(entry_record_equal(a, b1, b, b2));
        assert(n1[i] == n2[i]);
    }
}

/// Law: below version 4, the byte trace determines the entries. Two
/// well-formed entry lists of equal length traced over the same bytes agree
/// record for record — same fields, same paths — and occupy the same
/// positions, whatever bound each trace was stated under. In particular, a
/// successful decode of an encoded file returns the encoder's entry records:
/// the encoder's trace comes from `lemma_encoded_entries_traced`, the
/// decoder's from `decode`'s own postcondition, and the entry counts agree
/// by `lemma_header_fields`.
pub proof fn lemma_trace_determines_entries(
    e1: Seq<Entry>,
    b1: Seq<u8>,
    e2: Seq<Entry>,
    b2: Seq<u8>,
    data: Seq<u8>,
    hl: int,
    version: Version,
    limit: int,
    s1: Seq<int>,
    n1: Seq<int>,
    s2: Seq<int>,
    n2: Seq<int>,
    limit2: int,
)
    requires
        !(version is V4),
        0 <= hl,
        entries_traced(e1, b1, data, hl, version, limit, s1, n1),
        entries_traced(e2, b2, data, hl, version, limit2, s2, n2),
        e1.len() == e2.len(),
        forall|i: int| 0 <= i < e1.len() ==> (#[trigger] e1[i]).wf(b1),
        forall|i: int| 0 <= i < e2.len() ==> (#[trigger] e2[i]).wf(b2),
    ensures
        forall|i: int| 0 <= i < e1.len() ==> #[trigger] entry_record_equal(e1[i], b1, e2[i], b2),
{
    lemma_traced_prefix_equal(
        e1,
        b1,
        e2,
        b2,
        data,
        hl,
        version,
        limit,
        s1,
        n1,
        s2,
        n2,
        e1.len() as int,
        limit2,
    );
    assert forall|i: int| 0 <= i < e1.len() implies #[trigger] entry_record_equal(
        e1[i],
        b1,
        e2[i],
        b2,
    ) by {
        assert(entry_record_equal(e1[i], b1, e2[i], b2) && s1[i] == s2[i] && n1[i] == n2[i]);
    }
}

/// Reading back the big-endian bytes of a 16-bit word gives the word.
pub proof fn lemma_be16_roundtrip(v: u16)
    ensures
        be16_val(be16(v)) == v,
{
    let b0 = ((v >> 8) & 0xff) as u8;
    let b1 = (v & 0xff) as u8;
    assert((((b0 as u16) << 8) | (b1 as u16)) as u16 == v) by (bit_vector)
        requires
            b0 == ((v >> 8) & 0xff) as u8,
            b1 == (v & 0xff) as u8,
    ;
}

/// Within the concatenation of the first `k` entries' bytes, entry `i`'s
/// bytes sit right after the first `i` entries', byte-for-byte.
proof fn lemma_entry_bytes_position(
    entries: Seq<Entry>,
    backing: Seq<u8>,
    version: Version,
    i: int,
    k: int,
)
    requires
        0 <= i < k <= entries.len(),
    ensures
        ({
            let eb = entry_bytes(entries[i], backing, version, prev_path(entries, backing, i));
            let off = entries_bytes_upto(entries, backing, version, i).len() as int;
            &&& off + eb.len() <= entries_bytes_upto(entries, backing, version, k).len()
            &&& entries_bytes_upto(entries, backing, version, k).subrange(off, off + eb.len())
                == eb
        }),
    decreases k,
{
    let eb = entry_bytes(entries[i], backing, version, prev_path(entries, backing, i));
    let off = entries_bytes_upto(entries, backing, version, i).len() as int;
    if k == i + 1 {
        assert(entries_bytes_upto(entries, backing, version, k) == entries_bytes_upto(
            entries,
            backing,
            version,
            i,
        ) + eb);
        assert(entries_bytes_upto(entries, backing, version, k).subrange(off, off + eb.len())
            =~= eb);
    } else {
        lemma_entry_bytes_position(entries, backing, version, i, k - 1);
        assert(entries_bytes_upto(entries, backing, version, k).subrange(off, off + eb.len())
            =~= entries_bytes_upto(entries, backing, version, k - 1).subrange(
            off,
            off + eb.len(),
        ));
    }
}

/// An entry whose on-disk bytes stand at `start` in `data` satisfies the
/// byte-trace relation there: each field is read back from its own bytes.
#[verifier::rlimit(100)]
proof fn lemma_entry_bytes_at(
    e: Entry,
    backing: Seq<u8>,
    version: Version,
    prev: Seq<u8>,
    data: Seq<u8>,
    start: int,
    hl: int,
    limit: int,
)
    requires
        !(version is V4),
        e.wf(backing),
        e.id@.len() == hl,
        0 <= hl,
        12 <= start,
        start + entry_bytes(e, backing, version, prev).len() <= limit <= data.len(),
        data.subrange(start, start + entry_bytes(e, backing, version, prev).len() as int)
            == entry_bytes(e, backing, version, prev),
    ensures
        entry_at(
            e,
            data,
            start,
            start + entry_bytes(e, backing, version, prev).len() as int,
            hl,
            version,
            backing,
            limit,
        ),
{
    let eb = entry_bytes(e, backing, version, prev);
    let fixed = entry_fixed_bytes(e);
    let path = e.path_in(backing);
    let content = fixed + path;
    let ext2: int = if e.is_extended() {
        2int
    } else {
        0int
    };
    assert(fixed.len() == 42 + hl + ext2);
    assert(eb == content + zero_seq(pad_len(content.len() as int) as nat));
    let end = start + eb.len() as int;
    assert forall|j: int| 0 <= j < eb.len() implies data[start + j] == eb[j] by {
        assert(data.subrange(start, end)[j] == eb[j]);
    }
    let p1 = crate::bytes::be32(e.ctime_secs);
    let p2 = p1 + crate::bytes::be32(e.ctime_nsecs);
    let p3 = p2 + crate::bytes::be32(e.mtime_secs);
    let p4 = p3 + crate::bytes::be32(e.mtime_nsecs);
    let p5 = p4 + crate::bytes::be32(e.dev);
    let p6 = p5 + crate::bytes::be32(e.ino);
    let p7 = p6 + crate::bytes::be32(e.mode);
    let p8 = p7 + crate::bytes::be32(e.uid);
    let p9 = p8 + crate::bytes::be32(e.gid);
    let p10 = p9 + crate::bytes::be32(e.size);
    let p11 = p10 + e.id@;
    let p12 = p11 + be16(e.flags);
    assert(fixed == p12 + (if e.is_extended() {
        be16(e.extended_flags)
    } else {
        Seq::<u8>::empty()
    }));
    assert forall|m: int| 0 <= m < fixed.len() implies eb[m] == fixed[m] by {}
    assert forall|m: int| 0 <= m < p12.len() implies fixed[m] == p12[m] by {}
    assert forall|m: int| 0 <= m < p11.len() implies p12[m] == p11[m] by {}
    assert forall|m: int| 0 <= m < p10.len() implies p11[m] == p10[m] by {}
    assert forall|m: int| 0 <= m < p9.len() implies p10[m] == p9[m] by {}
    assert forall|m: int| 0 <= m < p8.len() implies p9[m] == p8[m] by {}
    assert forall|m: int| 0 <= m < p7.len() implies p8[m] == p7[m] by {}
    assert forall|m: int| 0 <= m < p6.len() implies p7[m] == p6[m] by {}
    assert forall|m: int| 0 <= m < p5.len() implies p6[m] == p5[m] by {}
    assert forall|m: int| 0 <= m < p4.len() implies p5[m] == p4[m] by {}
    assert forall|m: int| 0 <= m < p3.len() implies p4[m] == p3[m] by {}
    assert forall|m: int| 0 <= m < p2.len() implies p3[m] == p2[m] by {}
    assert(data.subrange(start, start + 4) =~= crate::bytes::be32(e.ctime_secs)) by {
        assert forall|j: int| 0 <= j < 4 implies data[start + j] == crate::bytes::be32(e.ctime_secs)[j] by {
            assert(eb[j] == fixed[j]);
            assert(fixed[j] == p12[j]);
            assert(p12[j] == p11[j]);
            assert(p11[j] == p10[j]);
            assert(p10[j] == p9[j]);
            assert(p9[j] == p8[j]);
            assert(p8[j] == p7[j]);
            assert(p7[j] == p6[j]);
            assert(p6[j] == p5[j]);
            assert(p5[j] == p4[j]);
            assert(p4[j] == p3[j]);
            assert(p3[j] == p2[j]);
            assert(p2[j] == p1[j]);
        }
    }
    assert(data.subrange(start + 4, start + 8) =~= crate::bytes::be32(e.ctime_nsecs)) by {
        assert forall|j: int| 0 <= j < 4 implies data[start + 4 + j] == crate::bytes::be32(e.ctime_nsecs)[j] by {
            assert(eb[4 + j] == fixed[4 + j]);
            assert(fixed[4 + j] == p12[4 + j]);
            assert(p12[4 + j] == p11[4 + j]);
            assert(p11[4 + j] == p10[4 + j]);
            assert(p10[4 + j] == p9[4 + j]);
            assert(p9[4 + j] == p8[4 + j]);
            assert(p8[4 + j] == p7[4 + j]);
            assert(p7[4 + j] == p6[4 + j]);
            assert(p6[4 + j] == p5[4 + j]);
            assert(p5[4 + j] == p4[4 + j]);
            assert(p4[4 + j] == p3[4 + j]);
            assert(p3[4 + j] == p2[4 + j]);
        }
    }
    assert(data.subrange(start + 8, start + 12) =~= crate::bytes::be32(e.mtime_secs)) by {
        assert forall|j: int| 0 <= j < 4 implies data[start + 8 + j] == crate::bytes::be32(e.mtime_secs)[j] by {
            assert(eb[8 + j] == fixed[8 + j]);
            assert(fixed[8 + j] == p12[8 + j]);
            assert(p12[8 + j] == p11[8 + j]);
            assert(p11[8 + j] == p10[8 + j]);
            assert(p10[8 + j] == p9[8 + j]);
            assert(p9[8 + j] == p8[8 + j]);
            assert(p8[8 + j] == p7[8 + j]);
            assert(p7[8 + j] == p6[8 + j]);
            assert(p6[8 + j] == p5[8 + j]);
            assert(p5[8 + j] == p4[8 + j]);
            assert(p4[8 + j] == p3[8 + j]);
        }
    }
    assert(data.subrange(start + 12, start + 16) =~= crate::bytes::be32(e.mtime_nsecs)) by {
        assert forall|j: int| 0 <= j < 4 implies data[start + 12 + j] == crate::bytes::be32(e.mtime_nsecs)[j] by {
            assert(eb[12 + j] == fixed[12 + j]);
            assert(fixed[12 + j] == p12[12 + j]);
            assert(p12[12 + j] == p11[12 + j]);
            assert(p11[12 + j] == p10[12 + j]);
            assert(p10[12 + j] == p9[12 + j]);
            assert(p9[12 + j] == p8[12 + j]);
            assert(p8[12 + j] == p7[12 + j]);
            assert(p7[12 + j] == p6[12 + j]);
            assert(p6[12 + j] == p5[12 + j]);
            assert(p5[12 + j] == p4[12 + j]);
        }
    }
    assert(data.subrange(start + 16, start + 20) =~= crate::bytes::be32(e.dev)) by {
        assert forall|j: int| 0 <= j < 4 implies data[start + 16 + j] == crate::bytes::be32(e.dev)[j] by {
            assert(eb[16 + j] == fixed[16 + j]);
            assert(fixed[16 + j] == p12[16 + j]);
            assert(p12[16 + j] == p11[16 + j]);
            assert(p11[16 + j] == p10[16 + j]);
            assert(p10[16 + j] == p9[16 + j]);
            assert(p9[16 + j] == p8[16 + j]);
            assert(p8[16 + j] == p7[16 + j]);
            assert(p7[16 + j] == p6[16 + j]);
            assert(p6[16 + j] == p5[16 + j]);
        }
    }
    assert(data.subrange(start + 20, start + 24) =~= crate::bytes::be32(e.ino)) by {
        assert forall|j: int| 0 <= j < 4 implies data[start + 20 + j] == crate::bytes::be32(e.ino)[j] by {
            assert(eb[20 + j] == fixed[20 + j]);
            assert(fixed[20 + j] == p12[20 + j]);
            assert(p12[20 + j] == p11[20 + j]);
            assert(p11[20 + j] == p10[20 + j]);
            assert(p10[20 + j] == p9[20 + j]);
            assert(p9[20 + j] == p8[20 + j]);
            assert(p8[20 + j] == p7[20 + j]);
            assert(p7[20 + j] == p6[20 + j]);
        }
    }
    assert(data.subrange(start + 24, start + 28) =~= crate::bytes::be32(e.mode)) by {
        assert forall|j: int| 0 <= j < 4 implies data[start + 24 + j] == crate::bytes::be32(e.mode)[j] by {
            assert(eb[24 + j] == fixed[24 + j]);
            assert(fixed[24 + j] == p12[24 + j]);
            assert(p12[24 + j] == p11[24 + j]);
            assert(p11[24 + j] == p10[24 + j]);
            assert(p10[24 + j] == p9[24 + j]);
            assert(p9[24 + j] == p8[24 + j]);
            assert(p8[24 + j] == p7[24 + j]);
        }
    }
    assert(data.subrange(start + 28, start + 32) =~= crate::bytes::be32(e.uid)) by {
        assert forall|j: int| 0 <= j < 4 implies data[start + 28 + j] == crate::bytes::be32(e.uid)[j] by {
            assert(eb[28 + j] == fixed[28 + j]);
            assert(fixed[28 + j] == p12[28 + j]);
            assert(p12[28 + j] == p11[28 + j]);
            assert(p11[28 + j] == p10[28 + j]);
            assert(p10[28 + j] == p9[28 + j]);
            assert(p9[28 + j] == p8[28 + j]);
        }
    }
    assert(data.subrange(start + 32, start + 36) =~= crate::bytes::be32(e.gid)) by {
        assert forall|j: int| 0 <= j < 4 implies data[start + 32 + j] == crate::bytes::be32(e.gid)[j] by {
            assert(eb[32 + j] == fixed[32 + j]);
            assert(fixed[32 + j] == p12[32 + j]);
            assert(p12[32 + j] == p11[32 + j]);
            assert(p11[32 + j] == p10[32 + j]);
            assert(p10[32 + j] == p9[32 + j]);
        }
    }
    assert(data.subrange(start + 36, start + 40) =~= crate::bytes::be32(e.size)) by {
        assert forall|j: int| 0 <= j < 4 implies data[start + 36 + j] == crate::bytes::be32(e.size)[j] by {
            assert(eb[36 + j] == fixed[36 + j]);
            assert(fixed[36 + j] == p12[36 + j]);
            assert(p12[36 + j] == p11[36 + j]);
            assert(p11[36 + j] == p10[36 + j]);
        }
    }
    assert(data.subrange(start + 40, start + 40 + hl) =~= e.id@) by {
        assert forall|j: int| 0 <= j < hl implies data[start + 40 + j] == e.id@[j] by {
            assert(eb[40 + j] == fixed[40 + j]);
            assert(fixed[40 + j] == p12[40 + j]);
            assert(p12[40 + j] == p11[40 + j]);
            assert(p11[40 + j] == e.id@[j]);
        }
    }
    assert(data.subrange(start + 40 + hl, start + 42 + hl) =~= be16(e.flags)) by {
        assert forall|j: int| 0 <= j < 2 implies data[start + 40 + hl + j] == be16(e.flags)[j] by {
            assert(eb[40 + hl + j] == fixed[40 + hl + j]);
            assert(fixed[40 + hl + j] == p12[40 + hl + j]);
            assert(p12[40 + hl + j] == be16(e.flags)[j]);
        }
    }
    lemma_be32_roundtrip(e.ctime_secs);
    lemma_be32_roundtrip(e.ctime_nsecs);
    lemma_be32_roundtrip(e.mtime_secs);
    lemma_be32_roundtrip(e.mtime_nsecs);
    lemma_be32_roundtrip(e.dev);
    lemma_be32_roundtrip(e.ino);
    lemma_be32_roundtrip(e.mode);
    lemma_be32_roundtrip(e.uid);
    lemma_be32_roundtrip(e.gid);
    lemma_be32_roundtrip(e.size);
    lemma_be16_roundtrip(e.flags);
    if e.is_extended() {
        assert(data.subrange(start + 42 + hl, start + 44 + hl) =~= be16(e.extended_flags)) by {
            assert forall|j: int| 0 <= j < 2 implies data[start + 42 + hl + j] == be16(
                e.extended_flags,
            )[j] by {
                assert(eb[42 + hl + j] == fixed[42 + hl + j]);
                assert(fixed[42 + hl + j] == be16(e.extended_flags)[j]);
            }
        }
        lemma_be16_roundtrip(e.extended_flags);
    }
    let pstart = start + 42 + hl + ext2;
    assert(data.subrange(pstart, pstart + e.path_len) =~= path) by {
        assert forall|j: int| 0 <= j < e.path_len implies data[pstart + j] == path[j] by {
            assert(eb[42 + hl + ext2 + j] == content[42 + hl + ext2 + j]);
            assert(content[42 + hl + ext2 + j] == path[j]);
        }
    }
    assert(data[pstart + e.path_len] == eb[content.len() as int]);
    assert(eb[content.len() as int] == 0);
    assert(pstart + e.path_len < end);
    assert(end == pstart + e.path_len + pad_len(pstart - start + e.path_len));
}

/// Law: an encoded file carries the byte trace of the very entries it was
/// written from (below version 4): together with the trace a decode run
/// returns, the records of any successful re-decode are pinned to the
/// encoder's input. The trace's positions start at the header's end and
/// chain through the entry section.
#[verifier::rlimit(100)]
pub proof fn lemma_encoded_entries_traced(s: State, o: EncodeOptions)
    requires
        s.wf(),
        crate::encode::encodable(s, o),
        !(written_version(s) is V4),
    ensures
        exists|starts: Seq<int>, ends: Seq<int>|
            #[trigger] entries_traced(
                s.entries@,
                s.path_backing@,
                file_bytes(s, o),
                o.hash_kind.spec_len(),
                written_version(s),
                body_bytes(s, o).len() as int,
                starts,
                ends,
            ),
{
    let v = written_version(s);
    let entries = s.entries@;
    let backing = s.path_backing@;
    let data = file_bytes(s, o);
    let n = entries.len() as int;
    let limit = body_bytes(s, o).len() as int;
    let hl = o.hash_kind.spec_len();
    let starts = Seq::new(n as nat, |i: int| 12 + entries_bytes_upto(entries, backing, v, i).len() as int);
    let ends = Seq::new(n as nat, |i: int| 12 + entries_bytes_upto(entries, backing, v, i + 1).len() as int);
    let hdr = header_bytes(v, s.entries@.len() as u32);
    let ents = entries_bytes(s, v);
    assert(hdr.len() == 12);
    assert(body_bytes(s, o) == hdr + ents + ext_section_tail(s, o));
    assert forall|i: int| 0 <= i < n implies #[trigger] entry_at(
        entries[i],
        data,
        starts[i],
        ends[i],
        hl,
        v,
        backing,
        limit,
    ) by {
        lemma_entry_bytes_position(entries, backing, v, i, n);
        let eb = entry_bytes(entries[i], backing, v, prev_path(entries, backing, i));
        let off = entries_bytes_upto(entries, backing, v, i).len() as int;
        assert(data.subrange(starts[i], starts[i] + eb.len()) =~= ents.subrange(
            off,
            off + eb.len(),
        ));
        assert(entries[i].wf(backing));
        assert(entries[i].id@.len() == hl);
        lemma_entry_bytes_at(entries[i], backing, v, prev_path(entries, backing, i), data, starts[i], hl, limit);
    }
    assert forall|i: int| 0 <= i < n implies (#[trigger] starts[i]) == (if i == 0 {
        12int
    } else {
        ends[i - 1]
    }) by {}
    assert(entries_traced(entries, backing, data, hl, v, limit, starts, ends));
}

/// What follows the entry section in the encoded body.
pub open spec fn ext_section_tail(s: State, o: EncodeOptions) -> Seq<u8> {
    crate::encode::ext_section_bytes(
        s,
        o.extensions,
        o.hash_kind,
        (12 + entries_bytes(s, written_version(s)).len()) as u32,
    )
}

} // verus!
