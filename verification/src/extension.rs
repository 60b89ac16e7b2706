use vstd::prelude::*;
use crate::bytes::dec_bytes;

verus! {

/// One node of the tree cache, in the depth-first order the on-disk payload
/// uses: a path component, the number of covered index entries (absent when
/// the node is invalidated), the object id of the cached subtree (present
/// exactly when the count is), and the number of child nodes that follow.
#[derive(Clone, Debug, PartialEq, Eq)]
pub struct TreeNode {
    pub name: Vec<u8>,
    pub entry_count: Option<u32>,
    pub id: Vec<u8>,
    pub child_count: u32,
}

/// The decoded tree-cache extension: its nodes in on-disk (depth-first)
/// order.
#[derive(Clone, Debug, PartialEq, Eq)]
pub struct TreeCache {
    pub nodes: Vec<TreeNode>,
}

/// An extension block kept opaque: its 4-byte signature and its payload,
/// preserved byte-for-byte so an unrecognized block survives a round trip.
#[derive(Clone, Debug, PartialEq, Eq)]
pub struct OpaqueExtension {
    pub signature: Vec<u8>,
    pub payload: Vec<u8>,
}

impl TreeNode {
    /// Structural validity: the name is free of null bytes (it is
    /// null-terminated on disk) and the id is present exactly when the entry
    /// count is.
    pub open spec fn wf(self) -> bool {
        &&& (forall|i: int| 0 <= i < self.name@.len() ==> self.name@[i] != 0)
        &&& (self.entry_count is None ==> self.id@.len() == 0)
    }

    /// The bytes this node contributes to the tree-cache payload: name,
    /// null, entry count in decimal ASCII (`-1` when invalidated), a space,
    /// the child count in decimal ASCII, a newline, then the id when the
    /// node is valid.
    pub open spec fn spec_bytes(self) -> Seq<u8> {
        self.name@ + seq![0u8] + (match self.entry_count {
            Some(c) => dec_bytes(c as nat),
            None => seq![0x2du8, 0x31u8],
        }) + seq![0x20u8] + dec_bytes(self.child_count as nat) + seq![0x0au8] + (
        if self.entry_count is Some {
            self.id@
        } else {
            Seq::<u8>::empty()
        })
    }
}

/// The payload bytes of the first `k` nodes, concatenated.
pub open spec fn tree_nodes_bytes_upto(nodes: Seq<TreeNode>, k: int) -> Seq<u8>
    decreases k,
{
    if k <= 0 {
        Seq::<u8>::empty()
    } else {
        tree_nodes_bytes_upto(nodes, k - 1) + nodes[k - 1].spec_bytes()
    }
}

impl TreeCache {
    /// Structural validity of every node.
    pub open spec fn wf(self) -> bool {
        forall|i: int| 0 <= i < self.nodes@.len() ==> (#[trigger] self.nodes@[i]).wf()
    }

    /// The full payload of the tree-cache extension block.
    pub open spec fn spec_payload(self) -> Seq<u8> {
        tree_nodes_bytes_upto(self.nodes@, self.nodes@.len() as int)
    }

    /// Every recorded entry count is at most `n`, the number of entries in
    /// the index: a node cannot cover more entries than exist.
    pub open spec fn counts_bounded(self, n: int) -> bool {
        forall|i: int|
            0 <= i < self.nodes@.len() ==> (match (#[trigger] self.nodes@[i]).entry_count {
                Some(c) => c <= n,
                None => true,
            })
    }

    /// Appends the tree-cache payload to `out`.
    pub fn encode_payload(&self, out: &mut Vec<u8>)
        ensures
            final(out)@ == old(out)@ + self.spec_payload(),
    {
        let ghost orig: Seq<u8> = out@;
        let mut i: usize = 0;
        while i < self.nodes.len()
            invariant
                i <= self.nodes@.len(),
                out@ == orig + tree_nodes_bytes_upto(self.nodes@, i as int),
            decreases self.nodes@.len() - i,
        {
            let node = &self.nodes[i];
            let ghost before: Seq<u8> = out@;
            crate::bytes::push_bytes(out, &node.name, 0, node.name.len());
            out.push(0u8);
            match node.entry_count {
                Some(c) => crate::bytes::push_dec(out, c),
                None => {
                    out.push(0x2du8);
                    out.push(0x31u8);
                },
            }
            out.push(0x20u8);
            crate::bytes::push_dec(out, node.child_count);
            out.push(0x0au8);
            if node.entry_count.is_some() {
                crate::bytes::push_bytes(out, &node.id, 0, node.id.len());
            }
            proof {
                assert(node.name@.subrange(0, node.name@.len() as int) =~= node.name@);
                assert(node.id@.subrange(0, node.id@.len() as int) =~= node.id@);
                assert(out@ =~= before + node.spec_bytes());
                assert(out@ =~= orig + tree_nodes_bytes_upto(self.nodes@, i + 1));
            }
            i = i + 1;
        }
    }
}

} // verus!
