//! The compiled block-state tables and the state-id codec.
//!
//! A [`BlockStateRegistry`] is the immutable result of compiling a
//! definition set: a domain table with stable zero-based ordinals, one
//! descriptor per block with its contiguous state-id range and its default
//! state id, and the total number of states. Encoding and decoding between
//! block instances and flat 32-bit state ids is a mixed-radix positional
//! code over each block's field domain sizes, and the laws at the end of
//! this module prove that it is a gap-free bijection.

use vstd::prelude::*;

use crate::radix;
use crate::token::Token;

verus! {

use crate::radix::{
    space, encode, digits_of, digit_at, digits_in_range, sizes_positive, lemma_encode_bound,
    lemma_digit_at_encode, lemma_encode_digits_of,
};

/// A named, ordered, finite set of variants. Ordinals are the positions in
/// `variants`, which is the reverse table (ordinal to variant name).
pub struct PropertyDomain {
    /// The label under which the domain was declared (`"snowy" => bool`
    /// declares the label `snowy`).
    pub label: String,
    /// The enumeration type name, or `bool` for a boolean domain.
    pub domain_type: String,
    /// Variant names in declaration order; the index is the ordinal.
    pub variants: Vec<String>,
    /// Whether this is a boolean domain, whose ordinal assignment is fixed:
    /// ordinal 0 is `true`, ordinal 1 is `false`.
    pub boolean: bool,
}

/// One field of a block descriptor: a disambiguated name, the domain it
/// draws its values from, and the declared default ordinal.
pub struct PropertyField {
    pub name: String,
    /// Index into the registry's domain table.
    pub domain: usize,
    /// Ordinal of the declared default variant.
    pub default: u32,
}

/// The immutable runtime type for one block definition.
pub struct BlockDescriptor {
    /// The canonical identifying string: the block name, unmodified.
    pub id: String,
    /// The opaque behavior expression, passed through unexamined as its
    /// raw token sequence.
    pub behavior: Vec<Token>,
    /// The ordered field list.
    pub fields: Vec<PropertyField>,
    /// First state id of this block's contiguous range.
    pub first: u32,
    /// Number of states: the product of the field domain sizes.
    pub size: u32,
    /// The unique state id in the range that decodes to every field's
    /// declared default.
    pub default_state: u32,
}

/// The compiled, immutable block-state tables.
pub struct BlockStateRegistry {
    pub domains: Vec<PropertyDomain>,
    pub blocks: Vec<BlockDescriptor>,
    /// Total number of states; `max_state` is this minus one.
    pub state_count: u32,
}

/// One concrete block state: a block and one ordinal per field, in
/// declared field order.
pub struct BlockInstance {
    /// Index into the registry's block table.
    pub block: usize,
    pub ordinals: Vec<u32>,
}

/// An internal-consistency error: a state id outside every block's range.
#[derive(Debug)]
pub enum StateError {
    UnknownStateId { id: u32 },
}

/// The field domain sizes of a field list, against a domain table.
pub open spec fn fields_sizes(domains: Seq<PropertyDomain>, fields: Seq<PropertyField>) -> Seq<
    nat,
> {
    fields.map_values(|f: PropertyField| domains[f.domain as int].variants@.len())
}

/// The declared default ordinals of a field list.
pub open spec fn fields_defaults(fields: Seq<PropertyField>) -> Seq<nat> {
    fields.map_values(|f: PropertyField| f.default as nat)
}

/// A well-formed domain: at least one variant, ordinals that fit the
/// 32-bit id space, and for a boolean domain the fixed reverse table
/// `0 -> true, 1 -> false`.
pub open spec fn domain_wf(d: PropertyDomain) -> bool {
    &&& 1 <= d.variants@.len() <= u32::MAX
    &&& d.boolean ==> {
        &&& d.variants@.len() == 2
        &&& d.variants@[0]@ == "true"@
        &&& d.variants@[1]@ == "false"@
    }
}

impl BlockStateRegistry {
    /// A field references a real domain and its default is a real ordinal.
    pub open spec fn field_wf(self, f: PropertyField) -> bool {
        &&& (f.domain as int) < self.domains@.len()
        &&& (f.default as nat) < self.domains@[f.domain as int].variants@.len()
    }

    /// The field domain sizes of block `b`, in declared field order.
    pub open spec fn block_sizes(self, b: int) -> Seq<nat> {
        fields_sizes(self.domains@, self.blocks@[b].fields@)
    }

    /// The declared default ordinals of block `b`, in declared field order.
    pub open spec fn block_defaults(self, b: int) -> Seq<nat> {
        fields_defaults(self.blocks@[b].fields@)
    }

    /// A well-formed block: well-formed fields, a size that is exactly the
    /// product of the field domain sizes, a range inside the 32-bit id
    /// space, and a default state id that encodes the declared defaults.
    pub open spec fn block_wf(self, b: int) -> bool {
        let blk = self.blocks@[b];
        &&& forall|j: int| 0 <= j < blk.fields@.len() ==> self.field_wf(blk.fields@[j])
        &&& blk.size as nat == space(self.block_sizes(b))
        &&& 1 <= blk.size
        &&& blk.first + blk.size <= u32::MAX
        &&& blk.default_state as nat == blk.first + encode(
            self.block_sizes(b),
            self.block_defaults(b),
        )
    }

    /// The registry invariant: every domain and block is well-formed, the
    /// ranges are assigned in declaration order starting at 0 with no gaps,
    /// and their union is exactly `[0, state_count)`.
    pub open spec fn wf(self) -> bool {
        &&& forall|d: int| 0 <= d < self.domains@.len() ==> domain_wf(self.domains@[d])
        &&& forall|b: int| 0 <= b < self.blocks@.len() ==> self.block_wf(b)
        &&& (self.blocks@.len() > 0 ==> self.blocks@[0].first == 0)
        &&& forall|b: int|
            1 <= b < self.blocks@.len() ==> (#[trigger] self.blocks@[b].first as int)
                == self.blocks@[b - 1].first + self.blocks@[b - 1].size
        &&& (self.state_count as int) == if self.blocks@.len() == 0 {
            0int
        } else {
            self.blocks@.last().first + self.blocks@.last().size
        }
    }

    /// A valid instance of a block of this registry: every ordinal is
    /// within its field's domain.
    pub open spec fn instance_wf(self, inst: BlockInstance) -> bool {
        &&& (inst.block as int) < self.blocks@.len()
        &&& digits_in_range(
            self.block_sizes(inst.block as int),
            inst.ordinals@.map_values(|o: u32| o as nat),
        )
    }

    proof fn lemma_block_sizes_positive(self, b: int)
        requires
            self.wf(),
            0 <= b < self.blocks@.len(),
        ensures
            sizes_positive(self.block_sizes(b)),
            digits_in_range(self.block_sizes(b), self.block_defaults(b)),
    {
        assert(self.block_wf(b));
        assert forall|j: int| 0 <= j < self.block_sizes(b).len() implies self.block_sizes(b)[j]
            >= 1 && self.block_defaults(b)[j] < self.block_sizes(b)[j] by {
            let f = self.blocks@[b].fields@[j];
            assert(self.field_wf(f));
            assert(domain_wf(self.domains@[f.domain as int]));
        }
    }

    /// The canonical identifying string of a block descriptor.
    pub fn identify(&self, block: usize) -> (r: &String)
        requires
            (block as int) < self.blocks@.len(),
        ensures
            r == self.blocks@[block as int].id,
    {
        &self.blocks[block].id
    }

    /// The opaque behavior value attached to a block descriptor.
    pub fn behavior_of(&self, block: usize) -> (r: &Vec<Token>)
        requires
            (block as int) < self.blocks@.len(),
        ensures
            r == self.blocks@[block as int].behavior,
    {
        &self.blocks[block].behavior
    }

    /// The variant name a field ordinal decodes to, via the domain's
    /// reverse table.
    pub fn variant_name(&self, block: usize, field: usize, ordinal: u32) -> (r: &String)
        requires
            self.wf(),
            (block as int) < self.blocks@.len(),
            (field as int) < self.blocks@[block as int].fields@.len(),
            (ordinal as nat) < self.block_sizes(block as int)[field as int],
        ensures
            r == self.domains@[self.blocks@[block as int].fields@[field as int].domain as int]
                .variants@[ordinal as int],
    {
        proof {
            assert(self.block_wf(block as int));
            assert(self.field_wf(self.blocks@[block as int].fields@[field as int]));
        }
        let f = &self.blocks[block].fields[field];
        &self.domains[f.domain].variants[ordinal as usize]
    }

    /// The highest state id.
    pub fn max_state(&self) -> (r: u32)
        requires
            self.wf(),
            self.blocks@.len() > 0,
        ensures
            (r as int) == self.state_count - 1,
            (r as int) == self.blocks@.last().first + self.blocks@.last().size - 1,
    {
        proof {
            assert(self.block_wf(self.blocks@.len() - 1));
        }
        self.state_count - 1
    }

    /// The field domain sizes of a block, for the codec.
    fn block_sizes_vec(&self, block: usize) -> (r: Vec<u64>)
        requires
            self.wf(),
            (block as int) < self.blocks@.len(),
        ensures
            r@.map_values(|s: u64| s as nat) == self.block_sizes(block as int),
            forall|j: int| 0 <= j < r@.len() ==> 1 <= (r@[j] as nat),
    {
        let fields = &self.blocks[block].fields;
        let mut r: Vec<u64> = Vec::new();
        let mut j: usize = 0;
        while j < fields.len()
            invariant
                self.wf(),
                (block as int) < self.blocks@.len(),
                fields == self.blocks@[block as int].fields,
                j <= fields@.len(),
                r@.len() == j,
                forall|k: int| 0 <= k < j ==> (r@[k] as nat) == self.block_sizes(
                    block as int,
                )[k] && 1 <= (r@[k] as nat),
            decreases fields@.len() - j,
        {
            proof {
                assert(self.block_wf(block as int));
                assert(self.field_wf(fields@[j as int]));
                assert(domain_wf(self.domains@[fields@[j as int].domain as int]));
            }
            let f = &fields[j];
            r.push(self.domains[f.domain].variants.len() as u64);
            j = j + 1;
        }
        proof {
            assert(r@.map_values(|s: u64| s as nat) =~= self.block_sizes(block as int));
        }
        r
    }

    /// Encodes a block instance into its global state id: the block's
    /// `first` plus the mixed-radix local offset of its ordinals.
    pub fn to_state_id(&self, instance: &BlockInstance) -> (id: u32)
        requires
            self.wf(),
            self.instance_wf(*instance),
        ensures
            (id as nat) == self.blocks@[instance.block as int].first + encode(
                self.block_sizes(instance.block as int),
                instance.ordinals@.map_values(|o: u32| o as nat),
            ),
            self.blocks@[instance.block as int].first <= id,
            (id as int) < self.blocks@[instance.block as int].first
                + self.blocks@[instance.block as int].size,
    {
        let ghost b = instance.block as int;
        let sizes = self.block_sizes_vec(instance.block);
        proof {
            assert(self.block_wf(b));
            let ss = self.block_sizes(b);
            let oo = instance.ordinals@.map_values(|o: u32| o as nat);
            assert forall|i: int| 0 <= i < sizes@.len() implies (instance.ordinals@[i] as nat) < (
            sizes@[i] as nat) by {
                assert(oo[i] == instance.ordinals@[i] as nat);
                assert((sizes@.map_values(|s: u64| s as nat))[i] == sizes@[i] as nat);
                assert(oo[i] < ss[i]);
            }
        }
        let local = radix::encode_ordinals(&sizes, &instance.ordinals);
        proof {
            lemma_encode_bound(
                self.block_sizes(b),
                instance.ordinals@.map_values(|o: u32| o as nat),
            );
        }
        self.blocks[instance.block].first + (local as u32)
    }

    /// Decodes a global state id into the owning block and its field
    /// ordinals; ids outside `[0, state_count)` are rejected as an
    /// internal-consistency error, never mapped to a default.
    pub fn from_state_id(&self, id: u32) -> (r: Result<BlockInstance, StateError>)
        requires
            self.wf(),
        ensures
            match r {
                Ok(inst) => {
                    &&& id < self.state_count
                    &&& self.instance_wf(inst)
                    &&& self.blocks@[inst.block as int].first <= id
                    &&& (id as int) < self.blocks@[inst.block as int].first
                        + self.blocks@[inst.block as int].size
                    &&& inst.ordinals@.map_values(|o: u32| o as nat) == digits_of(
                        self.block_sizes(inst.block as int),
                        (id - self.blocks@[inst.block as int].first) as nat,
                    )
                },
                Err(e) => {
                    &&& id >= self.state_count
                    &&& e == (StateError::UnknownStateId { id })
                },
            },
    {
        if id >= self.state_count {
            return Err(StateError::UnknownStateId { id });
        }
        let n = self.blocks.len();
        let mut b: usize = 0;
        while b < n
            invariant
                self.wf(),
                id < self.state_count,
                n == self.blocks@.len(),
                b <= n,
                forall|j: int|
                    0 <= j < b ==> (id as int) >= self.blocks@[j].first + self.blocks@[j].size,
            decreases n - b,
        {
            proof {
                assert(self.block_wf(b as int));
            }
            let blk_first = self.blocks[b].first;
            let blk_size = self.blocks[b].size;
            if id < blk_first + blk_size {
                proof {
                    if b > 0 {
                        assert((id as int) >= self.blocks@[b - 1].first + self.blocks@[b
                            - 1].size);
                    }
                    assert(blk_first <= id);
                    self.lemma_block_sizes_positive(b as int);
                    lemma_encode_digits_of(self.block_sizes(b as int), (id - blk_first) as nat);
                }
                let sizes = self.block_sizes_vec(b);
                let local = (id - blk_first) as u64;
                let ordinals = radix::decode_ordinals(&sizes, local);
                return Ok(BlockInstance { block: b, ordinals });
            }
            b = b + 1;
        }
        proof {
            assert((id as int) >= self.blocks@[n - 1].first + self.blocks@[n - 1].size);
            assert(false);
        }
        Err(StateError::UnknownStateId { id })
    }

    /// The instance of a block with every field at its declared default.
    pub fn default_instance(&self, block: usize) -> (r: BlockInstance)
        requires
            self.wf(),
            (block as int) < self.blocks@.len(),
        ensures
            self.instance_wf(r),
            r.block == block,
            r.ordinals@.map_values(|o: u32| o as nat) == self.block_defaults(block as int),
    {
        let fields = &self.blocks[block].fields;
        let mut ordinals: Vec<u32> = Vec::new();
        let mut j: usize = 0;
        while j < fields.len()
            invariant
                self.wf(),
                (block as int) < self.blocks@.len(),
                fields == self.blocks@[block as int].fields,
                j <= fields@.len(),
                ordinals@.len() == j,
                forall|k: int| 0 <= k < j ==> (ordinals@[k] as nat) == self.block_defaults(
                    block as int,
                )[k],
            decreases fields@.len() - j,
        {
            ordinals.push(fields[j].default);
            j = j + 1;
        }
        proof {
            assert(ordinals@.map_values(|o: u32| o as nat) =~= self.block_defaults(block as int));
            self.lemma_block_sizes_positive(block as int);
        }
        BlockInstance { block, ordinals }
    }
}

/// Coverage law: sorted by `first` (they are assigned in declaration order,
/// so they already stand sorted), the ranges begin at 0, each ends where
/// the next begins, and the last ends at `max_state`.
pub proof fn lemma_ranges_cover(r: BlockStateRegistry)
    requires
        r.wf(),
        r.blocks@.len() > 0,
    ensures
        r.blocks@[0].first == 0,
        forall|b: int|
            0 <= b < r.blocks@.len() - 1 ==> (#[trigger] r.blocks@[b].first + r.blocks@[b].size)
                as int == r.blocks@[b + 1].first,
        (r.blocks@.last().first + r.blocks@.last().size) as int == r.state_count,
        forall|b: int|
            0 <= b < r.blocks@.len() - 1 ==> (#[trigger] r.blocks@[b].first as int)
                < r.blocks@[b + 1].first,
{
    assert forall|b: int| 0 <= b < r.blocks@.len() - 1 implies (r.blocks@[b].first
        + r.blocks@[b].size) as int == r.blocks@[b + 1].first && (r.blocks@[b].first as int)
        < r.blocks@[b + 1].first by {
        assert(r.block_wf(b));
    }
}

/// Ranges are assigned in declaration order: an earlier block's range ends
/// at or before a later block's range begins.
pub proof fn lemma_range_order(r: BlockStateRegistry, b1: int, b2: int)
    requires
        r.wf(),
        0 <= b1 < b2 < r.blocks@.len(),
    ensures
        r.blocks@[b1].first + r.blocks@[b1].size <= r.blocks@[b2].first,
    decreases b2 - b1,
{
    if b1 + 1 < b2 {
        lemma_range_order(r, b1, b2 - 1);
    }
}

/// Every state id has at most one owning block: the ranges are disjoint.
pub proof fn lemma_owner_unique(r: BlockStateRegistry, b1: int, b2: int, id: u32)
    requires
        r.wf(),
        0 <= b1 < r.blocks@.len(),
        0 <= b2 < r.blocks@.len(),
        r.blocks@[b1].first <= id,
        (id as int) < r.blocks@[b1].first + r.blocks@[b1].size,
        r.blocks@[b2].first <= id,
        (id as int) < r.blocks@[b2].first + r.blocks@[b2].size,
    ensures
        b1 == b2,
{
    if b1 < b2 {
        lemma_range_order(r, b1, b2);
    }
    if b2 < b1 {
        lemma_range_order(r, b2, b1);
    }
}

/// Bijection law: every state id of `[0, state_count)` belongs to exactly
/// one block range, and re-encoding its decoded ordinals gives the id back.
pub proof fn lemma_state_id_round_trip(r: BlockStateRegistry, b: int, id: u32)
    requires
        r.wf(),
        0 <= b < r.blocks@.len(),
        r.blocks@[b].first <= id,
        (id as int) < r.blocks@[b].first + r.blocks@[b].size,
    ensures
        r.blocks@[b].first + encode(
            r.block_sizes(b),
            digits_of(r.block_sizes(b), (id - r.blocks@[b].first) as nat),
        ) == id,
{
    assert(r.block_wf(b));
    r.lemma_block_sizes_positive(b);
    lemma_encode_digits_of(r.block_sizes(b), (id - r.blocks@[b].first) as nat);
}

/// Round-trip law on instances: decoding the state id of any valid ordinal
/// combination yields exactly that combination.
pub proof fn lemma_instance_round_trip(r: BlockStateRegistry, inst: BlockInstance)
    requires
        r.wf(),
        r.instance_wf(inst),
    ensures
        digits_of(
            r.block_sizes(inst.block as int),
            encode(
                r.block_sizes(inst.block as int),
                inst.ordinals@.map_values(|o: u32| o as nat),
            ),
        ) == inst.ordinals@.map_values(|o: u32| o as nat),
{
    let b = inst.block as int;
    let sizes = r.block_sizes(b);
    let ords = inst.ordinals@.map_values(|o: u32| o as nat);
    assert forall|j: int| 0 <= j < sizes.len() implies digit_at(sizes, encode(sizes, ords), j)
        == ords[j] by {
        lemma_digit_at_encode(sizes, ords, j);
    }
    assert(digits_of(sizes, encode(sizes, ords)) =~= ords);
}

/// Default-correctness law: each block's recorded default state id lies in
/// its range and decodes to every field's declared default ordinal.
pub proof fn lemma_default_state_decodes_to_defaults(r: BlockStateRegistry, b: int)
    requires
        r.wf(),
        0 <= b < r.blocks@.len(),
    ensures
        r.blocks@[b].first <= r.blocks@[b].default_state,
        (r.blocks@[b].default_state as int) < r.blocks@[b].first + r.blocks@[b].size,
        digits_of(
            r.block_sizes(b),
            (r.blocks@[b].default_state - r.blocks@[b].first) as nat,
        ) == r.block_defaults(b),
{
    assert(r.block_wf(b));
    r.lemma_block_sizes_positive(b);
    let sizes = r.block_sizes(b);
    let defaults = r.block_defaults(b);
    lemma_encode_bound(sizes, defaults);
    assert forall|j: int| 0 <= j < sizes.len() implies digit_at(sizes, encode(sizes, defaults), j)
        == defaults[j] by {
        lemma_digit_at_encode(sizes, defaults, j);
    }
    assert(digits_of(sizes, encode(sizes, defaults)) =~= defaults);
}

/// Boolean-polarity law: in every boolean domain, ordinal 0 names `true`
/// and ordinal 1 names `false`, exactly.
pub proof fn lemma_boolean_polarity(r: BlockStateRegistry, d: int)
    requires
        r.wf(),
        0 <= d < r.domains@.len(),
        r.domains@[d].boolean,
    ensures
        r.domains@[d].variants@.len() == 2,
        r.domains@[d].variants@[0]@ == "true"@,
        r.domains@[d].variants@[1]@ == "false"@,
{
    assert(domain_wf(r.domains@[d]));
}

} // verus!
