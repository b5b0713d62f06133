//! Hash-consing for command trees: interning returns a handle that
//! carries its content fingerprint, and equal trees intern to handles
//! with equal fingerprints.

use vstd::prelude::*;
use crate::command::{content_hash_spec, views_of, RenderCommand};

verus! {

/// A hash-consed command tree: the value with its content fingerprint.
#[derive(Debug)]
pub struct Hc {
    pub value: RenderCommand,
    pub hash: u64,
}

impl Hc {
    /// The handle's fingerprint always matches its value.
    pub open spec fn wf(self) -> bool {
        self.hash == content_hash_spec(seq![self.value@])
    }

    /// The content fingerprint of the interned tree.
    pub fn hash_value(&self) -> (r: u64)
        requires
            self.wf(),
        ensures
            r == content_hash_spec(seq![self.value@]),
    {
        self.hash
    }
}

/// An intern table for command trees.
#[derive(Debug)]
pub struct InternTable {
    pub entries: Vec<Hc>,
}

impl InternTable {
    pub open spec fn wf(self) -> bool {
        forall|i: int| 0 <= i < self.entries@.len() ==> (#[trigger] self.entries@[i]).wf()
    }

    /// An empty table.
    pub fn new() -> (r: Self)
        ensures
            r.wf(),
    {
        InternTable { entries: Vec::new() }
    }

    /// Interns a command tree: the returned handle holds a tree with the
    /// same view and the tree's content fingerprint.  Structurally equal
    /// trees reuse one stored entry.
    #[verifier::loop_isolation(false)]
    pub fn intern(&mut self, value: RenderCommand) -> (r: Hc)
        requires
            old(self).wf(),
        ensures
            final(self).wf(),
            r.wf(),
            r.value@ == value@,
    {
        let hash = value.hash_value_of();
        let n = self.entries.len();
        let mut i: usize = 0;
        while i < n
            invariant
                n == self.entries@.len(),
                0 <= i <= n,
                self.wf(),
            decreases n - i,
        {
            let e = &self.entries[i];
            if e.hash_value() == hash {
                if e.value.same_tree(&value) {
                    let copy = e.value.clone();
                    return Hc { value: copy, hash };
                }
            }
            i = i + 1;
        }
        let stored = Hc { value: value.clone(), hash };
        self.entries.push(stored);
        Hc { value, hash }
    }
}

/// A hash-consed command list: the values with their combined content
/// fingerprint.
#[derive(Debug)]
pub struct HcSlice {
    pub values: Vec<RenderCommand>,
    pub hash: u64,
}

impl HcSlice {
    pub open spec fn wf(self) -> bool {
        self.hash == content_hash_spec(views_of(self.values@))
    }

    /// The content fingerprint of the interned list.
    pub fn hash_value(&self) -> (r: u64)
        requires
            self.wf(),
        ensures
            r == content_hash_spec(views_of(self.values@)),
    {
        self.hash
    }
}

/// An intern table for command lists.
#[derive(Debug)]
pub struct SliceInternTable {
    pub entries: Vec<HcSlice>,
}

impl SliceInternTable {
    pub open spec fn wf(self) -> bool {
        forall|i: int| 0 <= i < self.entries@.len() ==> (#[trigger] self.entries@[i]).wf()
    }

    /// An empty table.
    pub fn new() -> (r: Self)
        ensures
            r.wf(),
    {
        SliceInternTable { entries: Vec::new() }
    }

    /// Interns a command list, like `InternTable::intern`.
    #[verifier::loop_isolation(false)]
    pub fn intern_slice(&mut self, values: Vec<RenderCommand>) -> (r: HcSlice)
        requires
            old(self).wf(),
        ensures
            final(self).wf(),
            r.wf(),
            views_of(r.values@) == views_of(values@),
    {
        let hash = RenderCommand::content_hash(values.as_slice());
        let n = self.entries.len();
        let mut i: usize = 0;
        while i < n
            invariant
                n == self.entries@.len(),
                0 <= i <= n,
                self.wf(),
            decreases n - i,
        {
            let e = &self.entries[i];
            if e.hash_value() == hash {
                if same_trees(&e.values, &values) {
                    let copy = clone_commands(&e.values);
                    return HcSlice { values: copy, hash };
                }
            }
            i = i + 1;
        }
        let stored = HcSlice { values: clone_commands(&values), hash };
        self.entries.push(stored);
        HcSlice { values, hash }
    }
}

/// Structural equality of two command lists; sound for deduplication.
#[verifier::loop_isolation(false)]
fn same_trees(a: &Vec<RenderCommand>, b: &Vec<RenderCommand>) -> (r: bool)
    ensures
        r ==> views_of(a@) == views_of(b@),
{
    broadcast use crate::command::lemma_views_of_len;

    if a.len() != b.len() {
        return false;
    }
    let n = a.len();
    let mut i: usize = 0;
    let mut same = true;
    while i < n
        invariant
            n == a@.len() == b@.len(),
            0 <= i <= n,
            same ==> forall|j: int| 0 <= j < i ==> (#[trigger] a@[j])@ == b@[j]@,
        decreases n - i,
    {
        let x = &a[i];
        let y = &b[i];
        if !x.same_tree(y) {
            same = false;
        }
        i = i + 1;
    }
    proof {
        if same {
            assert(views_of(a@) =~= views_of(b@));
        }
    }
    same
}

/// A deep copy of a command list with the same views.
#[verifier::loop_isolation(false)]
fn clone_commands(v: &Vec<RenderCommand>) -> (r: Vec<RenderCommand>)
    ensures
        views_of(r@) == views_of(v@),
{
    broadcast use crate::command::lemma_views_of_len;

    let n = v.len();
    let mut out: Vec<RenderCommand> = Vec::new();
    let mut i: usize = 0;
    while i < n
        invariant
            n == v@.len(),
            0 <= i <= n,
            out@.len() == i,
            forall|j: int| 0 <= j < i ==> (#[trigger] out@[j])@ == v@[j]@,
        decreases n - i,
    {
        let c = v[i].clone();
        out.push(c);
        i = i + 1;
    }
    proof {
        assert(views_of(out@) =~= views_of(v@));
    }
    out
}

} // verus!
