//! The registry bridge: bindings from an external block-identity
//! enumeration to compiled block descriptors.
//!
//! The external registry is an exhaustively enumerated namespace of
//! canonical block names supplied by another component; here it is taken
//! as the ordered list of those names. Construction is total or fails: a
//! name with no compiled block is a fatal configuration error, never a
//! runtime fallback. Each binding gives the block's default instance, its
//! precomputed default state id, and its full state-id range.

use vstd::prelude::*;

verus! {

use crate::registry::{BlockInstance, BlockStateRegistry};

/// A registry identity with no compiled block: a fatal configuration
/// error at build time.
#[derive(Debug)]
pub enum BridgeError {
    MissingBinding { name: String },
}

/// One binding per external registry identity, in enumeration order: the
/// index of the bound block descriptor.
pub struct RegistryBridge {
    pub bindings: Vec<usize>,
}

impl RegistryBridge {
    /// Every binding points at a real block of the registry.
    pub open spec fn bound_to(self, r: BlockStateRegistry) -> bool {
        forall|i: int|
            0 <= i < self.bindings@.len() ==> ((#[trigger] self.bindings@[i]) as int)
                < r.blocks@.len()
    }

    /// The bridge is total and exact over the enumeration: one binding per
    /// identity, each to the first block carrying the identity's canonical
    /// name.
    pub open spec fn wf(self, r: BlockStateRegistry, names: Seq<Seq<char>>) -> bool {
        &&& self.bindings@.len() == names.len()
        &&& self.bound_to(r)
        &&& forall|i: int|
            0 <= i < names.len() ==> {
                &&& r.blocks@[(#[trigger] self.bindings@[i]) as int].id@ == names[i]
                &&& forall|m: int|
                    0 <= m < self.bindings@[i] as int ==> r.blocks@[m].id@ != names[i]
            }
    }

    /// The first block carrying a canonical name, if any.
    fn find_block_by_id(r: &BlockStateRegistry, name: &String) -> (res: Option<usize>)
        ensures
            match res {
                Some(b) => {
                    &&& (b as int) < r.blocks@.len()
                    &&& r.blocks@[b as int].id@ == name@
                    &&& forall|m: int|
                        0 <= m < b ==> (#[trigger] r.blocks@[m]).id@ != name@
                },
                None => forall|b: int|
                    0 <= b < r.blocks@.len() ==> (#[trigger] r.blocks@[b]).id@ != name@,
            },
    {
        let mut b: usize = 0;
        while b < r.blocks.len()
            invariant
                b <= r.blocks@.len(),
                forall|m: int| 0 <= m < b ==> (#[trigger] r.blocks@[m]).id@ != name@,
            decreases r.blocks@.len() - b,
        {
            if r.blocks[b].id == *name {
                return Some(b);
            }
            b = b + 1;
        }
        None
    }

    /// Builds the bridge: binds every external identity to the block with
    /// its canonical name. Exhaustiveness is mandatory: a name with no
    /// block fails the whole construction.
    pub fn build(r: &BlockStateRegistry, names: &Vec<String>) -> (res: Result<
        RegistryBridge,
        BridgeError,
    >)
        ensures
            match res {
                Ok(br) => br.wf(*r, names@.map_values(|s: String| s@)),
                Err(e) => match e {
                    BridgeError::MissingBinding { name } => exists|i: int|
                        0 <= i < names@.len() && (#[trigger] names@[i])@ == name@ && (forall|
                            b: int,
                        |
                            0 <= b < r.blocks@.len() ==> (#[trigger] r.blocks@[b]).id@
                                != name@),
                },
            },
    {
        let ghost nn = names@.map_values(|s: String| s@);
        let mut bindings: Vec<usize> = Vec::new();
        let mut i: usize = 0;
        while i < names.len()
            invariant
                nn == names@.map_values(|s: String| s@),
                i <= names@.len(),
                bindings@.len() == i,
                forall|t: int|
                    0 <= t < i ==> {
                        &&& ((#[trigger] bindings@[t]) as int) < r.blocks@.len()
                        &&& r.blocks@[bindings@[t] as int].id@ == nn[t]
                        &&& forall|m: int|
                            0 <= m < bindings@[t] as int ==> r.blocks@[m].id@ != nn[t]
                    },
            decreases names@.len() - i,
        {
            match Self::find_block_by_id(r, &names[i]) {
                Some(idx) => {
                    bindings.push(idx);
                },
                None => {
                    let missing = names[i].clone();
                    proof {
                        assert((names@[i as int])@ == missing@);
                    }
                    return Err(BridgeError::MissingBinding { name: missing });
                },
            }
            i = i + 1;
        }
        Ok(RegistryBridge { bindings })
    }

    /// The precomputed default state id bound to a registry identity.
    pub fn default_state_of(&self, r: &BlockStateRegistry, identity: usize) -> (s: u32)
        requires
            self.bound_to(*r),
            (identity as int) < self.bindings@.len(),
        ensures
            s == r.blocks@[self.bindings@[identity as int] as int].default_state,
    {
        r.blocks[self.bindings[identity]].default_state
    }

    /// The full state-id range `[first, last]` bound to a registry
    /// identity.
    pub fn state_range_of(&self, r: &BlockStateRegistry, identity: usize) -> (range: (u32, u32))
        requires
            r.wf(),
            self.bound_to(*r),
            (identity as int) < self.bindings@.len(),
        ensures
            range.0 == r.blocks@[self.bindings@[identity as int] as int].first,
            (range.1 as int) == r.blocks@[self.bindings@[identity as int] as int].first
                + r.blocks@[self.bindings@[identity as int] as int].size - 1,
    {
        proof {
            assert(r.block_wf(self.bindings@[identity as int] as int));
        }
        let blk = &r.blocks[self.bindings[identity]];
        (blk.first, blk.first + (blk.size - 1))
    }

    /// The default descriptor instance bound to a registry identity: the
    /// bound block with every field at its declared default.
    pub fn default_instance_of(&self, r: &BlockStateRegistry, identity: usize) -> (inst:
        BlockInstance)
        requires
            r.wf(),
            self.bound_to(*r),
            (identity as int) < self.bindings@.len(),
        ensures
            r.instance_wf(inst),
            inst.block == self.bindings@[identity as int],
            inst.ordinals@.map_values(|o: u32| o as nat) == r.block_defaults(
                self.bindings@[identity as int] as int,
            ),
    {
        r.default_instance(self.bindings[identity])
    }
}

} // verus!
