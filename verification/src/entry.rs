use vstd::prelude::*;

verus! {

/// Bit in the first flags word saying a second, extended flags word follows
/// on disk; representable only from version 3 on.
pub const FLAG_EXTENDED: u16 = 0x4000;

/// Bit in the first flags word marking the entry as assume-valid.
pub const FLAG_ASSUME_VALID: u16 = 0x8000;

/// Low bits of the first flags word holding the path length, saturated
/// at 0xfff for longer paths.
pub const NAME_LENGTH_MASK: u16 = 0x0fff;

/// The path-length bits stored in the flags word for a path of `len` bytes.
pub open spec fn name_bits(len: int) -> u16 {
    if len < 0xfff {
        len as u16
    } else {
        0x0fffu16
    }
}

/// One tracked path's record: a filesystem metadata snapshot, the object id
/// of the staged content, bit-packed flags, and the path as an offset and
/// length into the owning state's path backing buffer.
#[derive(Clone, Debug, PartialEq, Eq)]
pub struct Entry {
    pub ctime_secs: u32,
    pub ctime_nsecs: u32,
    pub mtime_secs: u32,
    pub mtime_nsecs: u32,
    pub dev: u32,
    pub ino: u32,
    pub mode: u32,
    pub uid: u32,
    pub gid: u32,
    pub size: u32,
    pub id: Vec<u8>,
    pub flags: u16,
    pub extended_flags: u16,
    pub path_offset: usize,
    pub path_len: usize,
}

impl Entry {
    /// The merge stage (0 to 3) packed into the flags word.
    pub open spec fn stage(self) -> u16 {
        (self.flags >> 12) & 3
    }

    /// Whether the extended flags word is present.
    pub open spec fn is_extended(self) -> bool {
        self.flags & FLAG_EXTENDED != 0
    }

    /// This entry's path, read out of the backing buffer.
    pub open spec fn path_in(self, backing: Seq<u8>) -> Seq<u8> {
        backing.subrange(self.path_offset as int, self.path_offset + self.path_len)
    }

    /// Structural validity against the backing buffer: the path slice is in
    /// range, non-empty and free of null bytes (it is null-terminated on
    /// disk), the extended word is zero when its flag bit is absent, and the
    /// path-length bits agree with the actual length.
    pub open spec fn wf(self, backing: Seq<u8>) -> bool {
        &&& self.path_offset + self.path_len <= backing.len()
        &&& self.path_len > 0
        &&& (forall|i: int|
            self.path_offset <= i < self.path_offset + self.path_len ==> backing[i] != 0)
        &&& (!self.is_extended() ==> self.extended_flags == 0)
        &&& self.flags & NAME_LENGTH_MASK == name_bits(self.path_len as int)
    }

    /// The merge stage (0 to 3) packed into the flags word.
    pub fn stage_number(&self) -> (s: u16)
        ensures
            s == self.stage(),
    {
        (self.flags >> 12) & 3
    }

    /// Whether the extended flags word is present.
    pub fn has_extended_flags(&self) -> (r: bool)
        ensures
            r == self.is_extended(),
    {
        self.flags & FLAG_EXTENDED != 0
    }
}

/// Growing the backing buffer disturbs no existing entry: validity and the
/// path itself carry over.
pub proof fn lemma_wf_backing_extend(e: Entry, b1: Seq<u8>, b2: Seq<u8>)
    requires
        e.wf(b1),
        b1.is_prefix_of(b2),
    ensures
        e.wf(b2),
        e.path_in(b2) == e.path_in(b1),
{
    assert forall|i: int| e.path_offset <= i < e.path_offset + e.path_len implies b2[i] != 0 by {
        assert(b2.subrange(0, b1.len() as int)[i] == b1[i]);
    }
    assert(e.path_in(b2) =~= e.path_in(b1));
}

/// The path-length bits stored in the flags word for a path of `len` bytes.
pub fn name_length_bits(len: usize) -> (r: u16)
    ensures
        r == name_bits(len as int),
{
    if len < 0xfff {
        len as u16
    } else {
        0x0fff
    }
}

} // verus!
