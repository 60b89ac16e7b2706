use vstd::prelude::*;
use crate::state::{lex_less, State};

verus! {

/// Structural faults a verifier run reports.
#[derive(Debug)]
pub enum VerifyError {
    /// Entries are not strictly ascending by (path, stage): entry `index`
    /// does not come strictly before entry `index + 1`; both paths are
    /// reported.
    OrderingViolation { index: usize, first_path: Vec<u8>, second_path: Vec<u8> },
    /// A tree-cache node claims to cover more entries than the index holds.
    TreeCountInvalid { node: usize },
}

/// Decides `lex_less(a@, b@)`, strict lexicographic byte order.
pub fn bytes_less(a: &Vec<u8>, b: &Vec<u8>) -> (r: bool)
    ensures
        r == lex_less(a@, b@),
{
    let n = if a.len() < b.len() {
        a.len()
    } else {
        b.len()
    };
    let mut k: usize = 0;
    while k < n && a[k] == b[k]
        invariant
            k <= n,
            n <= a@.len(),
            n <= b@.len(),
            n == a@.len() || n == b@.len(),
            a@.subrange(0, k as int) == b@.subrange(0, k as int),
        decreases n - k,
    {
        proof {
            assert(a@.subrange(0, k + 1) =~= b@.subrange(0, k + 1));
        }
        k = k + 1;
    }
    if k < n {
        if a[k] < b[k] {
            proof {
                assert(lex_less(a@, b@));
            }
            true
        } else {
            proof {
                lemma_not_less(a@, b@, k as int);
            }
            false
        }
    } else {
        if a.len() < b.len() {
            proof {
                assert(a@ =~= b@.subrange(0, a@.len() as int));
            }
            true
        } else {
            proof {
                lemma_not_less_prefix(a@, b@);
            }
            false
        }
    }
}

/// Decides whether two byte strings are equal.
pub fn bytes_equal(a: &Vec<u8>, b: &Vec<u8>) -> (r: bool)
    ensures
        r == (a@ == b@),
{
    if a.len() != b.len() {
        return false;
    }
    let mut k: usize = 0;
    while k < a.len()
        invariant
            k <= a@.len(),
            a@.len() == b@.len(),
            a@.subrange(0, k as int) == b@.subrange(0, k as int),
        decreases a@.len() - k,
    {
        if a[k] != b[k] {
            return false;
        }
        proof {
            assert(a@.subrange(0, k + 1) =~= b@.subrange(0, k + 1));
        }
        k = k + 1;
    }
    proof {
        assert(a@ =~= a@.subrange(0, a@.len() as int));
        assert(b@ =~= b@.subrange(0, b@.len() as int));
    }
    true
}

/// With the two strings equal up to `k` and differing there in `b`'s
/// favour, `a` is not lexicographically below `b`.
proof fn lemma_not_less(a: Seq<u8>, b: Seq<u8>, k: int)
    requires
        0 <= k < a.len(),
        k < b.len(),
        a.subrange(0, k) == b.subrange(0, k),
        a[k] > b[k],
    ensures
        !lex_less(a, b),
{
    assert forall|i: int|
        !(0 <= i < a.len() && i < b.len() && a.subrange(0, i) == b.subrange(0, i) && a[i]
            < b[i]) by {
        if 0 <= i < a.len() && i < b.len() && a.subrange(0, i) == b.subrange(0, i) {
            if i < k {
                assert(a.subrange(0, k)[i] == b.subrange(0, k)[i]);
                assert(a.subrange(0, k)[i] == a[i]);
                assert(b.subrange(0, k)[i] == b[i]);
            } else if i > k {
                assert(a.subrange(0, i)[k] == b.subrange(0, i)[k]);
                assert(a[k] == b[k]);
            }
        }
    }
    if a.len() < b.len() && a == b.subrange(0, a.len() as int) {
        assert(a[k] == b.subrange(0, a.len() as int)[k]);
        assert(a[k] == b[k]);
    }
}

/// With `b` a prefix of `a` and no longer than it, `a` is not
/// lexicographically below `b`.
proof fn lemma_not_less_prefix(a: Seq<u8>, b: Seq<u8>)
    requires
        b.len() <= a.len(),
        a.subrange(0, b.len() as int) == b.subrange(0, b.len() as int),
    ensures
        !lex_less(a, b),
{
    assert forall|i: int|
        !(0 <= i < a.len() && i < b.len() && a.subrange(0, i) == b.subrange(0, i) && a[i]
            < b[i]) by {
        if 0 <= i < b.len() {
            assert(a.subrange(0, b.len() as int)[i] == b.subrange(0, b.len() as int)[i]);
            assert(a.subrange(0, b.len() as int)[i] == a[i]);
            assert(b.subrange(0, b.len() as int)[i] == b[i]);
        }
    }
}

/// Decides whether entry `i` comes strictly before entry `j`.
fn entry_key_less(s: &State, i: usize, j: usize) -> (r: bool)
    requires
        i < s.entries@.len(),
        j < s.entries@.len(),
        s.wf(),
    ensures
        r == s.entry_less(i as int, j as int),
{
    let pa = s.path_of(i);
    let pb = s.path_of(j);
    if bytes_less(&pa, &pb) {
        true
    } else if bytes_equal(&pa, &pb) {
        s.entries[i].stage_number() < s.entries[j].stage_number()
    } else {
        false
    }
}

impl State {
    /// Confirms the ordering invariant: entries strictly ascending by
    /// (path, stage), hence no duplicate (path, stage) pair. On failure
    /// reports the first offending position and both paths.
    pub fn verify_entries(&self) -> (r: Result<(), VerifyError>)
        requires
            self.wf(),
        ensures
            r is Ok <==> self.sorted(),
            match r {
                Ok(()) => true,
                Err(e) => e matches VerifyError::OrderingViolation {
                    index,
                    first_path,
                    second_path,
                } && 0 <= index < self.entries@.len() - 1 && !self.entry_less(
                    index as int,
                    index + 1,
                ) && (forall|j: int| 0 <= j < index ==> #[trigger] self.entry_less(j, j + 1))
                    && first_path@ == self.spec_path(index as int) && second_path@
                    == self.spec_path(index + 1),
            },
    {
        if self.entries.len() == 0 {
            return Ok(());
        }
        let mut i: usize = 0;
        while i < self.entries.len() - 1
            invariant
                self.wf(),
                self.entries@.len() > 0,
                i <= self.entries@.len() - 1,
                forall|j: int| 0 <= j < i ==> #[trigger] self.entry_less(j, j + 1),
            decreases self.entries@.len() - i,
        {
            if !entry_key_less(self, i, i + 1) {
                return Err(VerifyError::OrderingViolation {
                    index: i,
                    first_path: self.path_of(i),
                    second_path: self.path_of(i + 1),
                });
            }
            i = i + 1;
        }
        Ok(())
    }

    /// Confirms the tree cache is consistent with the entry list: no node
    /// may claim to cover more entries than the index holds. Reports the
    /// first offending node.
    pub fn verify_extensions(&self) -> (r: Result<(), VerifyError>)
        ensures
            r is Ok <==> (match self.tree {
                Some(t) => t.counts_bounded(self.entries@.len() as int),
                None => true,
            }),
            match r {
                Ok(()) => true,
                Err(e) => e matches VerifyError::TreeCountInvalid { node } && (match self.tree {
                    Some(t) => 0 <= node < t.nodes@.len() && (match t.nodes@[node as int].entry_count {
                        Some(c) => c > self.entries@.len(),
                        None => false,
                    }),
                    None => false,
                }),
            },
    {
        match &self.tree {
            None => Ok(()),
            Some(t) => {
                let n = self.entries.len();
                let mut i: usize = 0;
                while i < t.nodes.len()
                    invariant
                        i <= t.nodes@.len(),
                        n == self.entries@.len(),
                        self.tree == Some(*t),
                        forall|j: int|
                            0 <= j < i ==> (match (#[trigger] t.nodes@[j]).entry_count {
                                Some(c) => c <= n,
                                None => true,
                            }),
                    decreases t.nodes@.len() - i,
                {
                    match t.nodes[i].entry_count {
                        Some(c) => {
                            if c as usize > n {
                                return Err(VerifyError::TreeCountInvalid { node: i });
                            }
                        },
                        None => {},
                    }
                    i = i + 1;
                }
                Ok(())
            },
        }
    }
}

} // verus!
