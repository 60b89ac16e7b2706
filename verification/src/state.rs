use vstd::prelude::*;
use crate::entry::Entry;
use crate::extension::{OpaqueExtension, TreeCache};
use crate::Version;

verus! {

/// Strict lexicographic order on byte strings: `a` is a proper prefix of
/// `b`, or the two agree up to some position where `a` holds the smaller
/// byte.
pub open spec fn lex_less(a: Seq<u8>, b: Seq<u8>) -> bool {
    ||| (a.len() < b.len() && a == b.subrange(0, a.len() as int))
    ||| (exists|i: int|
        0 <= i < a.len() && i < b.len() && a.subrange(0, i) == b.subrange(0, i) && a[i] < b[i])
}

/// The in-memory index: the recorded format version, the ordered entries,
/// the single buffer backing all entry paths, the decoded tree cache if the
/// file carried one, every other extension block kept opaque, and the
/// checksum read from or written to the trailer.
#[derive(Clone, Debug, PartialEq, Eq)]
pub struct State {
    pub version: Version,
    pub entries: Vec<Entry>,
    pub path_backing: Vec<u8>,
    pub tree: Option<TreeCache>,
    pub extensions: Vec<OpaqueExtension>,
    pub checksum: Vec<u8>,
}

impl State {
    /// The path of entry `i`, read out of the backing buffer.
    pub open spec fn spec_path(self, i: int) -> Seq<u8> {
        self.entries@[i].path_in(self.path_backing@)
    }

    /// Entry `i` comes strictly before entry `j`: its path is
    /// lexicographically smaller, or the paths are equal and its stage is
    /// smaller.
    pub open spec fn entry_less(self, i: int, j: int) -> bool {
        ||| lex_less(self.spec_path(i), self.spec_path(j))
        ||| (self.spec_path(i) == self.spec_path(j) && self.entries@[i].stage()
            < self.entries@[j].stage())
    }

    /// The ordering invariant: every adjacent pair of entries is strictly
    /// ascending by (path, stage), which also rules out duplicates.
    pub open spec fn sorted(self) -> bool {
        forall|i: int| 0 <= i < self.entries@.len() - 1 ==> #[trigger] self.entry_less(i, i + 1)
    }

    /// Some entry carries the extended flags bit.
    pub open spec fn any_extended(self) -> bool {
        exists|i: int| 0 <= i < self.entries@.len() && self.entries@[i].is_extended()
    }

    /// Structural validity: every entry is valid against the path backing,
    /// the tree cache's nodes are valid, and every opaque extension has a
    /// 4-byte signature.
    pub open spec fn wf(self) -> bool {
        &&& (forall|i: int|
            0 <= i < self.entries@.len() ==> (#[trigger] self.entries@[i]).wf(
                self.path_backing@,
            ))
        &&& (match self.tree {
            Some(t) => t.wf(),
            None => true,
        })
        &&& (forall|i: int|
            0 <= i < self.extensions@.len() ==> (#[trigger] self.extensions@[i]).signature@.len()
                == 4)
    }

    /// A fresh, empty index of the given version.
    pub fn new(version: Version) -> (s: State)
        ensures
            s.version == version,
            s.entries@.len() == 0,
            s.path_backing@.len() == 0,
            s.tree is None,
            s.extensions@.len() == 0,
            s.checksum@.len() == 0,
            s.wf(),
            s.sorted(),
    {
        State {
            version,
            entries: Vec::new(),
            path_backing: Vec::new(),
            tree: None,
            extensions: Vec::new(),
            checksum: Vec::new(),
        }
    }

    /// Appends an entry whose path is `path`: the path bytes move into the
    /// backing buffer and the stored flags get their path-length bits set
    /// from the actual length. The caller keeps the ordering invariant; this
    /// only appends.
    pub fn push_entry(&mut self, path: &Vec<u8>, e: Entry)
        requires
            path@.len() > 0,
            forall|i: int| 0 <= i < path@.len() ==> path@[i] != 0,
            e.flags & crate::entry::NAME_LENGTH_MASK == 0,
            !e.is_extended() ==> e.extended_flags == 0,
        ensures
            final(self).version == old(self).version,
            final(self).tree == old(self).tree,
            final(self).extensions == old(self).extensions,
            final(self).checksum == old(self).checksum,
            final(self).path_backing@ == old(self).path_backing@ + path@,
            final(self).entries@.len() == old(self).entries@.len() + 1,
            final(self).entries@.subrange(0, old(self).entries@.len() as int) == old(
                self,
            ).entries@,
            final(self).entries@.last() == (Entry {
                flags: (e.flags | crate::entry::name_bits(path@.len() as int)) as u16,
                path_offset: old(self).path_backing@.len() as usize,
                path_len: path@.len() as usize,
                ..e
            }),
            final(self).spec_path(old(self).entries@.len() as int) == path@,
            old(self).wf() ==> final(self).wf(),
    {
        let offset = self.path_backing.len();
        crate::bytes::push_bytes(&mut self.path_backing, path, 0, path.len());
        let bits = crate::entry::name_length_bits(path.len());
        let new_entry = Entry { flags: e.flags | bits, path_offset: offset, path_len: path.len(), ..e };
        self.entries.push(new_entry);
        proof {
            assert(path@.subrange(0, path@.len() as int) =~= path@);
            assert(self.spec_path(old(self).entries@.len() as int) =~= path@);
            assert(self.entries@.subrange(0, old(self).entries@.len() as int) =~= old(
                self,
            ).entries@);
            assert(bits <= 0x0fff);
            lemma_flag_bits(e.flags, bits);
            if old(self).wf() {
                assert forall|i: int| 0 <= i < self.entries@.len() implies (
                #[trigger] self.entries@[i]).wf(self.path_backing@) by {
                    if i < old(self).entries@.len() {
                        assert(old(self).entries@[i].wf(old(self).path_backing@));
                        assert(self.entries@[i] == old(self).entries@[i]);
                        assert forall|k: int|
                            self.entries@[i].path_offset <= k < self.entries@[i].path_offset
                                + self.entries@[i].path_len implies self.path_backing@[k]
                            != 0 by {
                            assert(self.path_backing@[k] == old(self).path_backing@[k]);
                        }
                    } else {
                        assert(self.entries@[i] == new_entry);
                        assert forall|k: int|
                            new_entry.path_offset <= k < new_entry.path_offset
                                + new_entry.path_len implies self.path_backing@[k] != 0 by {
                            assert(self.path_backing@[k] == path@[k - new_entry.path_offset]);
                        }
                    }
                }
            }
        }
    }

    /// A copy of entry `i`'s path bytes.
    pub fn path_of(&self, i: usize) -> (r: Vec<u8>)
        requires
            i < self.entries@.len(),
            self.entries@[i as int].wf(self.path_backing@),
        ensures
            r@ == self.spec_path(i as int),
    {
        let e = &self.entries[i];
        let backing_len = self.path_backing.len();
        proof {
            assert(e.path_offset + e.path_len <= backing_len);
        }
        crate::bytes::copy_range(&self.path_backing, e.path_offset, e.path_offset + e.path_len)
    }
}

/// With the low twelve bits of `flags` clear and `bits` within them, the two
/// words combine without interference.
proof fn lemma_flag_bits(flags: u16, bits: u16)
    requires
        flags & 0x0fff == 0,
        bits <= 0x0fff,
    ensures
        (flags | bits) & 0x0fff == bits,
        (flags | bits) & 0x4000 == flags & 0x4000,
        ((flags | bits) >> 12) & 3 == (flags >> 12) & 3,
{
    assert((flags | bits) & 0x0fff == bits && (flags | bits) & 0x4000 == flags & 0x4000 && ((flags
        | bits) >> 12) & 3 == (flags >> 12) & 3) by (bit_vector)
        requires
            flags & 0x0fff == 0,
            bits <= 0x0fff,
    ;
}

} // verus!
