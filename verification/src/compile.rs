//! The compiler: from a parsed definition to the compiled state tables.
//!
//! The pass builds the property-domain table (ordinals equal to declaration
//! order), resolves every block's field usages against it, disambiguates
//! repeated domains with zero-based occurrence indices, assigns each block
//! a contiguous state-id range in declaration order with a single running
//! counter, and records each block's default state id. Every definition
//! error (unknown domain, duplicate variant, invalid default, an id space
//! that the 32-bit counter cannot hold) is fatal: there is no partial
//! result. The reference semantics of every step is stated by the spec
//! functions at the top, and `compile` is proved against them.

use vstd::prelude::*;

verus! {

use crate::definition::{
    MakeBlockStates, BlockDefinition, PropertyDefinition, PropertyType, PropertyValue,
    PropertyWithNameAndDefault,
};
use crate::registry::{
    BlockDescriptor, BlockStateRegistry, PropertyDomain, PropertyField, domain_wf, fields_sizes,
    fields_defaults,
};
use crate::radix::{
    space, encode, sizes_positive, lemma_space_drop_last, lemma_space_prefix_le,
    lemma_encode_bound, encode_ordinals,
};
use crate::strutil::{
    count_eq, first_index, no_duplicates, numbered_name, count_in_prefix, find_first,
    find_duplicate, make_numbered, clone_string_vec, lemma_first_index_in_bounds,
    lemma_count_eq_prefix_le, lemma_spec_decimal_injective, spec_decimal,
};
use crate::token::clone_tokens;
use vstd::string::StringExecFns;

/// A fatal definition or configuration error; compilation produces no
/// partial result.
#[derive(Debug)]
pub enum CompileError {
    /// An enumerated domain declared with no variants.
    EmptyDomain { domain_type: String },
    /// An enumerated domain with more variants than ordinals fit.
    DomainTooLarge { domain_type: String },
    /// A variant name declared twice within one domain.
    DuplicateVariant { domain_type: String, variant: String },
    /// A block field referencing a domain that was never declared.
    UnknownDomain { block: String, domain_type: String },
    /// A declared default variant that does not exist in its domain; the
    /// whole attempted default combination of the block comes along for
    /// diagnosis.
    InvalidDefault { block: String, field: String, variant: String, defaults: Vec<String> },
    /// The running state counter left the 32-bit id space.
    StateSpaceExhausted { block: String },
}

/// The variant names of a declaration, in ordinal order (boolean domains
/// have the fixed table `true`, `false`).
pub open spec fn decl_variants(d: PropertyDefinition) -> Seq<Seq<char>> {
    match d.property_type {
        PropertyType::Enum { domain_type, variants } => variants@.map_values(|s: String| s@),
        PropertyType::Boolean => seq!["true"@, "false"@],
    }
}

/// A declaration the domain builder accepts: at least one variant, no
/// duplicate variant names, ordinals that fit 32 bits.
pub open spec fn decl_ok(d: PropertyDefinition) -> bool {
    match d.property_type {
        PropertyType::Enum { domain_type, variants } => {
            &&& variants@.len() >= 1
            &&& variants@.len() <= u32::MAX
            &&& no_duplicates(variants@.map_values(|s: String| s@))
        },
        PropertyType::Boolean => true,
    }
}

/// The domain-table index an enumeration type name resolves to: the
/// builtin boolean domain sits at index 0, declaration `i` at `i + 1`, the
/// last declaration of a name wins, and -1 means the name was never
/// declared.
pub open spec fn resolve_enum(decls: Seq<PropertyDefinition>, t: Seq<char>) -> int
    decreases decls.len(),
{
    if decls.len() == 0 {
        -1
    } else if match decls.last().property_type {
        PropertyType::Enum { domain_type, .. } => domain_type@ == t,
        PropertyType::Boolean => false,
    } {
        decls.len() as int
    } else {
        resolve_enum(decls.drop_last(), t)
    }
}

/// The domain-table index a field usage resolves to: boolean literals use
/// the builtin boolean domain, variant defaults resolve their type name.
pub open spec fn usage_domain(decls: Seq<PropertyDefinition>, u: PropertyWithNameAndDefault) -> int {
    match u.default {
        PropertyValue::Bool(_) => 0,
        PropertyValue::Enum { domain_type, .. } => resolve_enum(decls, domain_type@),
    }
}

/// The size of the domain a usage draws its values from.
pub open spec fn usage_size(decls: Seq<PropertyDefinition>, u: PropertyWithNameAndDefault) -> nat {
    if usage_domain(decls, u) == 0 {
        2
    } else {
        decl_variants(decls[usage_domain(decls, u) - 1]).len()
    }
}

/// The ordinal of a usage's declared default: boolean `true` is ordinal 0
/// and `false` is ordinal 1 (the fixed polarity), a variant default is its
/// declaration position; -1 means the variant does not exist.
pub open spec fn usage_default_ordinal(
    decls: Seq<PropertyDefinition>,
    u: PropertyWithNameAndDefault,
) -> int {
    match u.default {
        PropertyValue::Bool(b) => if b {
            0
        } else {
            1
        },
        PropertyValue::Enum { domain_type, variant } => {
            let d = resolve_enum(decls, domain_type@);
            if d <= 0 {
                -1
            } else {
                first_index(decl_variants(decls[d - 1]), variant@)
            }
        },
    }
}

/// The base field name of a usage before disambiguation: the referenced
/// domain's declared label for a variant default, the written label for a
/// boolean.
pub open spec fn usage_base_name(
    decls: Seq<PropertyDefinition>,
    u: PropertyWithNameAndDefault,
) -> Seq<char> {
    match u.default {
        PropertyValue::Bool(_) => u.name@,
        PropertyValue::Enum { .. } => decls[usage_domain(decls, u) - 1].name@,
    }
}

/// The base names of all of a block's usages, in declared order.
pub open spec fn base_names(
    decls: Seq<PropertyDefinition>,
    usages: Seq<PropertyWithNameAndDefault>,
) -> Seq<Seq<char>> {
    usages.map_values(|u: PropertyWithNameAndDefault| usage_base_name(decls, u))
}

/// The disambiguated name of field `j`: when the same base name occurs
/// more than once in the block, the zero-based occurrence index among the
/// earlier same-named usages is appended; when it occurs once, the base
/// name stands unchanged.
pub open spec fn field_name_spec(
    decls: Seq<PropertyDefinition>,
    usages: Seq<PropertyWithNameAndDefault>,
    j: int,
) -> Seq<char> {
    let bases = base_names(decls, usages);
    if count_eq(bases, bases[j]) > 1 {
        numbered_name(bases[j], count_eq(bases.subrange(0, j), bases[j]))
    } else {
        bases[j]
    }
}

/// The field domain sizes of a block definition, in declared order.
pub open spec fn block_sizes_of(
    decls: Seq<PropertyDefinition>,
    usages: Seq<PropertyWithNameAndDefault>,
) -> Seq<nat> {
    usages.map_values(|u: PropertyWithNameAndDefault| usage_size(decls, u))
}

/// The number of states a block definition owns: the product of its field
/// domain sizes, or exactly 1 when it has no fields.
pub open spec fn block_space_of(
    decls: Seq<PropertyDefinition>,
    usages: Seq<PropertyWithNameAndDefault>,
) -> nat {
    space(block_sizes_of(decls, usages))
}

/// Every field usage of the block resolves, and its declared default
/// exists in the resolved domain.
pub open spec fn block_ok(decls: Seq<PropertyDefinition>, bd: BlockDefinition) -> bool {
    forall|j: int|
        0 <= j < bd.properties_and_defaults@.len() ==> {
            &&& usage_domain(decls, #[trigger] bd.properties_and_defaults@[j]) >= 0
            &&& usage_default_ordinal(decls, bd.properties_and_defaults@[j]) >= 0
        }
}

/// The total number of states of the first blocks of the list.
pub open spec fn total_states(
    decls: Seq<PropertyDefinition>,
    blocks: Seq<BlockDefinition>,
) -> nat
    decreases blocks.len(),
{
    if blocks.len() == 0 {
        0
    } else {
        total_states(decls, blocks.drop_last()) + block_space_of(
            decls,
            blocks.last().properties_and_defaults@,
        )
    }
}

/// A definition set the compiler accepts: every declaration and block is
/// valid and the whole state space fits the 32-bit id counter.
pub open spec fn defs_ok(defs: MakeBlockStates) -> bool {
    &&& forall|i: int|
        0 <= i < defs.property_definitions.declarations@.len() ==> decl_ok(
            #[trigger] defs.property_definitions.declarations@[i],
        )
    &&& forall|k: int|
        0 <= k < defs.block_definitions.blocks@.len() ==> block_ok(
            defs.property_definitions.declarations@,
            #[trigger] defs.block_definitions.blocks@[k],
        )
    &&& total_states(defs.property_definitions.declarations@, defs.block_definitions.blocks@)
        <= u32::MAX
}

/// The declaration is an enumerated domain with this type name.
pub open spec fn decl_named(d: PropertyDefinition, t: Seq<char>) -> bool {
    match d.property_type {
        PropertyType::Enum { domain_type, .. } => domain_type@ == t,
        PropertyType::Boolean => false,
    }
}

/// The usage's default names this enumeration type.
pub open spec fn usage_names_enum(u: PropertyWithNameAndDefault, t: Seq<char>) -> bool {
    match u.default {
        PropertyValue::Enum { domain_type, .. } => domain_type@ == t,
        PropertyValue::Bool(_) => false,
    }
}

/// The default a usage writes, as text: the boolean literal, or the
/// variant name.
pub open spec fn usage_default_text(u: PropertyWithNameAndDefault) -> Seq<char> {
    match u.default {
        PropertyValue::Bool(b) => if b {
            "true"@
        } else {
            "false"@
        },
        PropertyValue::Enum { variant, .. } => variant@,
    }
}

/// The usage's default is this variant of some enumeration type.
pub open spec fn usage_variant_is(u: PropertyWithNameAndDefault, v: Seq<char>) -> bool {
    match u.default {
        PropertyValue::Enum { variant, .. } => variant@ == v,
        PropertyValue::Bool(_) => false,
    }
}

/// The domain-table entry built from one declaration.
pub open spec fn domain_matches_decl(decl: PropertyDefinition, dom: PropertyDomain) -> bool {
    &&& dom.label@ == decl.name@
    &&& dom.variants@.map_values(|s: String| s@) == decl_variants(decl)
    &&& match decl.property_type {
        PropertyType::Enum { domain_type, .. } => !dom.boolean && dom.domain_type@
            == domain_type@,
        PropertyType::Boolean => dom.boolean && dom.domain_type@ == "bool"@,
    }
}

/// The builtin boolean domain at table index 0.
pub open spec fn builtin_boolean(dom: PropertyDomain) -> bool {
    &&& dom.boolean
    &&& dom.label@ == "bool"@
    &&& dom.domain_type@ == "bool"@
    &&& dom.variants@.map_values(|s: String| s@) == seq!["true"@, "false"@]
}

/// The whole domain table corresponds to the declarations.
pub open spec fn domains_match(
    decls: Seq<PropertyDefinition>,
    domains: Seq<PropertyDomain>,
) -> bool {
    &&& domains.len() == decls.len() + 1
    &&& builtin_boolean(domains[0])
    &&& forall|i: int| 0 <= i < decls.len() ==> domain_matches_decl(
        #[trigger] decls[i],
        domains[i + 1],
    )
}

/// Every field of the descriptor carries exactly what the reference
/// semantics assigns to the corresponding usage.
pub open spec fn fields_match(
    decls: Seq<PropertyDefinition>,
    usages: Seq<PropertyWithNameAndDefault>,
    fields: Seq<PropertyField>,
) -> bool {
    &&& fields.len() == usages.len()
    &&& forall|j: int|
        0 <= j < usages.len() ==> {
            &&& ((#[trigger] fields[j]).domain as int) == usage_domain(decls, usages[j])
            &&& (fields[j].default as int) == usage_default_ordinal(decls, usages[j])
            &&& fields[j].name@ == field_name_spec(decls, usages, j)
        }
}

/// The registry is exactly the compilation of the definition set: the
/// domain table corresponds to the declarations, every descriptor carries
/// the block's name, behavior, resolved fields, disambiguated field names
/// and range size, and the state count is the total of the block spaces.
pub open spec fn compiled_from(defs: MakeBlockStates, reg: BlockStateRegistry) -> bool {
    &&& reg.wf()
    &&& domains_match(defs.property_definitions.declarations@, reg.domains@)
    &&& reg.blocks@.len() == defs.block_definitions.blocks@.len()
    &&& forall|k: int|
        0 <= k < reg.blocks@.len() ==> {
            &&& (#[trigger] reg.blocks@[k]).id@ == defs.block_definitions.blocks@[k].name@
            &&& reg.blocks@[k].behavior@ == defs.block_definitions.blocks@[k].behavior@
            &&& fields_match(
                defs.property_definitions.declarations@,
                defs.block_definitions.blocks@[k].properties_and_defaults@,
                reg.blocks@[k].fields@,
            )
            &&& (reg.blocks@[k].size as nat) == block_space_of(
                defs.property_definitions.declarations@,
                defs.block_definitions.blocks@[k].properties_and_defaults@,
            )
        }
    &&& (reg.state_count as nat) == total_states(
        defs.property_definitions.declarations@,
        defs.block_definitions.blocks@,
    )
}

/// The error names its cause: the reported domain, block, field and
/// variant stand in the definition set and exhibit the failure.
pub open spec fn compile_error_justified(defs: MakeBlockStates, e: CompileError) -> bool {
    let decls = defs.property_definitions.declarations@;
    let blocks = defs.block_definitions.blocks@;
    match e {
        CompileError::EmptyDomain { domain_type } => exists|i: int|
            0 <= i < decls.len() && decl_named(#[trigger] decls[i], domain_type@)
                && decl_variants(decls[i]).len() == 0,
        CompileError::DomainTooLarge { domain_type } => exists|i: int|
            0 <= i < decls.len() && decl_named(#[trigger] decls[i], domain_type@)
                && decl_variants(decls[i]).len() > u32::MAX,
        CompileError::DuplicateVariant { domain_type, variant } => exists|i: int|
            0 <= i < decls.len() && decl_named(#[trigger] decls[i], domain_type@) && exists|
                a: int,
                b: int,
            |
                0 <= a < b < decl_variants(decls[i]).len() && decl_variants(decls[i])[a]
                    == decl_variants(decls[i])[b] && decl_variants(decls[i])[b] == variant@,
        CompileError::UnknownDomain { block, domain_type } => {
            &&& resolve_enum(decls, domain_type@) == -1
            &&& exists|k: int, j: int|
                {
                    &&& 0 <= k < blocks.len()
                    &&& blocks[k].name@ == block@
                    &&& 0 <= j < blocks[k].properties_and_defaults@.len()
                    &&& usage_names_enum(
                        #[trigger] blocks[k].properties_and_defaults@[j],
                        domain_type@,
                    )
                }
        },
        CompileError::InvalidDefault { block, field, variant, defaults } => exists|k: int, j: int|
            {
                &&& 0 <= k < blocks.len()
                &&& blocks[k].name@ == block@
                &&& 0 <= j < blocks[k].properties_and_defaults@.len()
                &&& (#[trigger] blocks[k].properties_and_defaults@[j]).name@ == field@
                &&& usage_variant_is(blocks[k].properties_and_defaults@[j], variant@)
                &&& usage_default_ordinal(decls, blocks[k].properties_and_defaults@[j]) < 0
                &&& defaults@.map_values(|s: String| s@) == blocks[k].properties_and_defaults@
                    .map_values(|u: PropertyWithNameAndDefault| usage_default_text(u))
            },
        CompileError::StateSpaceExhausted { block } => {
            &&& total_states(decls, blocks) > u32::MAX
            &&& exists|k: int|
                0 <= k < blocks.len() && (#[trigger] blocks[k]).name@ == block@
        },
    }
}

fn make_boolean_variants() -> (r: Vec<String>)
    ensures
        r@.map_values(|s: String| s@) == seq!["true"@, "false"@],
        r@.len() == 2,
        r@[0]@ == "true"@,
        r@[1]@ == "false"@,
{
    let mut r: Vec<String> = Vec::new();
    r.push(String::from_str("true"));
    r.push(String::from_str("false"));
    proof {
        assert(r@.map_values(|s: String| s@) =~= seq!["true"@, "false"@]);
    }
    r
}

/// Builds the domain table: the builtin boolean domain, then one entry per
/// declaration with ordinals equal to declaration order. Rejects a
/// declaration with no variants, too many variants, or a duplicate
/// variant name.
fn build_domains(decls: &Vec<PropertyDefinition>) -> (r: Result<Vec<PropertyDomain>, CompileError>)
    ensures
        match r {
            Ok(doms) => {
                &&& domains_match(decls@, doms@)
                &&& forall|i: int| 0 <= i < doms@.len() ==> domain_wf(#[trigger] doms@[i])
                &&& forall|i: int| 0 <= i < decls@.len() ==> decl_ok(#[trigger] decls@[i])
            },
            Err(e) => {
                &&& exists|i: int| 0 <= i < decls@.len() && !decl_ok(#[trigger] decls@[i])
                &&& match e {
                    CompileError::EmptyDomain { domain_type } => exists|i: int|
                        0 <= i < decls@.len() && decl_named(#[trigger] decls@[i], domain_type@)
                            && decl_variants(decls@[i]).len() == 0,
                    CompileError::DomainTooLarge { domain_type } => exists|i: int|
                        0 <= i < decls@.len() && decl_named(#[trigger] decls@[i], domain_type@)
                            && decl_variants(decls@[i]).len() > u32::MAX,
                    CompileError::DuplicateVariant { domain_type, variant } => exists|i: int|
                        0 <= i < decls@.len() && decl_named(#[trigger] decls@[i], domain_type@)
                            && exists|a: int, b: int|
                            0 <= a < b < decl_variants(decls@[i]).len() && decl_variants(
                                decls@[i],
                            )[a] == decl_variants(decls@[i])[b] && decl_variants(
                                decls@[i],
                            )[b] == variant@,
                    _ => false,
                }
            },
        },
{
    let mut doms: Vec<PropertyDomain> = Vec::new();
    let builtin = PropertyDomain {
        label: String::from_str("bool"),
        domain_type: String::from_str("bool"),
        variants: make_boolean_variants(),
        boolean: true,
    };
    proof {
        assert(builtin.variants@[0]@ == "true"@);
        assert(builtin.variants@[1]@ == "false"@);
    }
    doms.push(builtin);
    let mut i: usize = 0;
    while i < decls.len()
        invariant
            i <= decls@.len(),
            doms@.len() == i + 1,
            builtin_boolean(doms@[0]),
            domain_wf(doms@[0]),
            forall|t: int| 0 <= t < i ==> domain_matches_decl(
                #[trigger] decls@[t],
                doms@[t + 1],
            ),
            forall|t: int| 0 <= t < doms@.len() ==> domain_wf(#[trigger] doms@[t]),
            forall|t: int| 0 <= t < i ==> decl_ok(#[trigger] decls@[t]),
        decreases decls@.len() - i,
    {
        match &decls[i].property_type {
            PropertyType::Boolean => {
                let dom = PropertyDomain {
                    label: decls[i].name.clone(),
                    domain_type: String::from_str("bool"),
                    variants: make_boolean_variants(),
                    boolean: true,
                };
                proof {
                    assert(dom.variants@[0]@ == "true"@);
                    assert(dom.variants@[1]@ == "false"@);
                    assert(domain_matches_decl(decls@[i as int], dom));
                }
                doms.push(dom);
            },
            PropertyType::Enum { domain_type, variants } => {
                if variants.len() == 0 {
                    proof {
                        assert(!decl_ok(decls@[i as int]));
                        assert(decl_named(decls@[i as int], domain_type@));
                        assert(decl_variants(decls@[i as int]).len() == 0);
                    }
                    return Err(CompileError::EmptyDomain { domain_type: domain_type.clone() });
                }
                if variants.len() > u32::MAX as usize {
                    proof {
                        assert(!decl_ok(decls@[i as int]));
                        assert(decl_named(decls@[i as int], domain_type@));
                        assert(decl_variants(decls@[i as int]).len() > u32::MAX);
                    }
                    return Err(
                        CompileError::DomainTooLarge { domain_type: domain_type.clone() },
                    );
                }
                match find_duplicate(variants) {
                    Some(j) => {
                        proof {
                            let all = variants@.map_values(|s: String| s@);
                            let i0 = choose|t: int|
                                0 <= t < j && (#[trigger] variants@[t])@ == variants@[j as int]@;
                            assert(all[i0] == all[j as int]);
                            assert(!no_duplicates(all));
                            assert(!decl_ok(decls@[i as int]));
                            assert(decl_named(decls@[i as int], domain_type@));
                            assert(decl_variants(decls@[i as int]) == all);
                            assert(all[j as int] == variants@[j as int]@);
                            assert(0 <= i0 && i0 < j as int && (j as int) < all.len());
                        }
                        return Err(
                            CompileError::DuplicateVariant {
                                domain_type: domain_type.clone(),
                                variant: variants[j].clone(),
                            },
                        );
                    },
                    None => {},
                }
                let dom = PropertyDomain {
                    label: decls[i].name.clone(),
                    domain_type: domain_type.clone(),
                    variants: clone_string_vec(variants),
                    boolean: false,
                };
                proof {
                    assert(domain_matches_decl(decls@[i as int], dom));
                    assert(domain_wf(dom));
                }
                doms.push(dom);
            },
        }
        i = i + 1;
    }
    Ok(doms)
}

/// Resolves an enumeration type name in the declaration list: the last
/// declaration of the name wins, as later declarations shadow earlier
/// ones.
fn resolve_domain(decls: &Vec<PropertyDefinition>, t: &String) -> (r: Option<usize>)
    ensures
        match r {
            Some(d) => {
                &&& 1 <= d <= decls@.len()
                &&& resolve_enum(decls@, t@) == d as int
            },
            None => resolve_enum(decls@, t@) == -1,
        },
{
    let mut i: usize = decls.len();
    proof {
        assert(decls@.subrange(0, decls@.len() as int) =~= decls@);
    }
    while i > 0
        invariant
            i <= decls@.len(),
            resolve_enum(decls@, t@) == resolve_enum(decls@.subrange(0, i as int), t@),
        decreases i,
    {
        i = i - 1;
        let ghost prefix = decls@.subrange(0, i as int + 1);
        proof {
            assert(prefix.last() == decls@[i as int]);
            assert(prefix.drop_last() =~= decls@.subrange(0, i as int));
        }
        let matched: bool = match &decls[i].property_type {
            PropertyType::Enum { domain_type, .. } => *domain_type == *t,
            PropertyType::Boolean => false,
        };
        if matched {
            proof {
                assert(resolve_enum(prefix, t@) == prefix.len() as int);
            }
            return Some(i + 1);
        }
    }
    proof {
        assert(decls@.subrange(0, 0) =~= Seq::<PropertyDefinition>::empty());
    }
    None
}

/// Builds the descriptor of one block definition, given the first state id
/// of its range: resolves every usage, disambiguates field names, computes
/// the range size, and records the default state id.
fn build_block(
    decls: &Vec<PropertyDefinition>,
    domains: &Vec<PropertyDomain>,
    def: &BlockDefinition,
    first: u32,
) -> (r: Result<BlockDescriptor, CompileError>)
    requires
        domains_match(decls@, domains@),
        forall|i: int| 0 <= i < domains@.len() ==> domain_wf(#[trigger] domains@[i]),
    ensures
        match r {
            Ok(desc) => {
                &&& block_ok(decls@, *def)
                &&& desc.id@ == def.name@
                &&& desc.behavior@ == def.behavior@
                &&& fields_match(decls@, def.properties_and_defaults@, desc.fields@)
                &&& desc.first == first
                &&& (desc.size as nat) == block_space_of(decls@, def.properties_and_defaults@)
                &&& (desc.size as nat) == space(fields_sizes(domains@, desc.fields@))
                &&& 1 <= desc.size
                &&& first + desc.size <= u32::MAX
                &&& forall|j: int|
                    0 <= j < desc.fields@.len() ==> {
                        &&& ((#[trigger] desc.fields@[j]).domain as int) < domains@.len()
                        &&& (desc.fields@[j].default as nat)
                            < domains@[desc.fields@[j].domain as int].variants@.len()
                    }
                &&& (desc.default_state as nat) == first + encode(
                    fields_sizes(domains@, desc.fields@),
                    fields_defaults(desc.fields@),
                )
            },
            Err(e) => match e {
                CompileError::UnknownDomain { block, domain_type } => {
                    &&& !block_ok(decls@, *def)
                    &&& block@ == def.name@
                    &&& resolve_enum(decls@, domain_type@) == -1
                    &&& exists|j: int|
                        0 <= j < def.properties_and_defaults@.len() && usage_names_enum(
                            #[trigger] def.properties_and_defaults@[j],
                            domain_type@,
                        )
                },
                CompileError::InvalidDefault { block, field, variant, defaults } => {
                    &&& !block_ok(decls@, *def)
                    &&& block@ == def.name@
                    &&& defaults@.map_values(|s: String| s@) == def.properties_and_defaults@
                        .map_values(|u: PropertyWithNameAndDefault| usage_default_text(u))
                    &&& exists|j: int|
                        {
                            &&& 0 <= j < def.properties_and_defaults@.len()
                            &&& (#[trigger] def.properties_and_defaults@[j]).name@ == field@
                            &&& usage_variant_is(def.properties_and_defaults@[j], variant@)
                            &&& usage_default_ordinal(
                                decls@,
                                def.properties_and_defaults@[j],
                            ) < 0
                        }
                },
                CompileError::StateSpaceExhausted { block } => {
                    &&& block_ok(decls@, *def)
                    &&& block@ == def.name@
                    &&& (first as nat) + block_space_of(decls@, def.properties_and_defaults@)
                        > u32::MAX
                },
                _ => false,
            },
        },
{
    let usages = &def.properties_and_defaults;
    let n = usages.len();
    let ghost uu = usages@;

    // the attempted default combination, kept for the diagnosis of a
    // default that exists in no domain
    let mut attempted: Vec<String> = Vec::new();
    let mut a: usize = 0;
    while a < n
        invariant
            n == uu.len(),
            uu == usages@,
            usages == def.properties_and_defaults,
            a <= n,
            attempted@.len() == a,
            forall|t: int| 0 <= t < a ==> (#[trigger] attempted@[t])@ == usage_default_text(
                uu[t],
            ),
        decreases n - a,
    {
        let text: String = match &usages[a].default {
            PropertyValue::Bool(b) => {
                if *b {
                    String::from_str("true")
                } else {
                    String::from_str("false")
                }
            },
            PropertyValue::Enum { variant, .. } => variant.clone(),
        };
        attempted.push(text);
        a = a + 1;
    }
    proof {
        assert(attempted@.map_values(|s: String| s@) =~= uu.map_values(
            |u: PropertyWithNameAndDefault| usage_default_text(u),
        ));
    }

    // resolve every usage: domain-table index, default ordinal, base name
    let mut doms_idx: Vec<usize> = Vec::new();
    let mut ords: Vec<u32> = Vec::new();
    let mut bases: Vec<String> = Vec::new();
    let mut j: usize = 0;
    while j < n
        invariant
            n == uu.len(),
            uu == usages@,
            usages == def.properties_and_defaults,
            domains_match(decls@, domains@),
            forall|i: int| 0 <= i < domains@.len() ==> domain_wf(#[trigger] domains@[i]),
            j <= n,
            attempted@.map_values(|s: String| s@) == uu.map_values(
                |u: PropertyWithNameAndDefault| usage_default_text(u),
            ),
            doms_idx@.len() == j,
            ords@.len() == j,
            bases@.len() == j,
            forall|t: int|
                0 <= t < j ==> {
                    &&& ((#[trigger] doms_idx@[t]) as int) == usage_domain(decls@, uu[t])
                    &&& (doms_idx@[t] as int) < domains@.len()
                    &&& (ords@[t] as int) == usage_default_ordinal(decls@, uu[t])
                    &&& (ords@[t] as nat) < domains@[doms_idx@[t] as int].variants@.len()
                    &&& bases@[t]@ == usage_base_name(decls@, uu[t])
                },
        decreases n - j,
    {
        match &usages[j].default {
            PropertyValue::Bool(b) => {
                proof {
                    assert(builtin_boolean(domains@[0]));
                    assert(domains@[0].variants@.map_values(|s: String| s@).len() == 2);
                    assert(usage_domain(decls@, uu[j as int]) == 0);
                }
                doms_idx.push(0);
                ords.push(if *b {
                    0
                } else {
                    1
                });
                bases.push(usages[j].name.clone());
            },
            PropertyValue::Enum { domain_type, variant } => {
                let d = match resolve_domain(decls, domain_type) {
                    Some(d) => d,
                    None => {
                        proof {
                            let w = def.properties_and_defaults@[j as int];
                            assert(w == uu[j as int]);
                            assert(usage_names_enum(w, domain_type@));
                            assert(usage_domain(decls@, w) == -1);
                        }
                        return Err(
                            CompileError::UnknownDomain {
                                block: def.name.clone(),
                                domain_type: domain_type.clone(),
                            },
                        );
                    },
                };
                proof {
                    assert(domain_matches_decl(decls@[d - 1], domains@[d as int]));
                }
                let ord = match find_first(&domains[d].variants, variant) {
                    Some(o) => o,
                    None => {
                        proof {
                            assert(domains@[d as int].variants@.map_values(|s: String| s@)
                                == decl_variants(decls@[d - 1]));
                            let w = def.properties_and_defaults@[j as int];
                            assert(w == uu[j as int]);
                            assert(usage_default_ordinal(decls@, w) < 0);
                            assert(usage_variant_is(w, variant@));
                            assert(w.name@ == usages@[j as int].name@);
                        }
                        return Err(
                            CompileError::InvalidDefault {
                                block: def.name.clone(),
                                field: usages[j].name.clone(),
                                variant: variant.clone(),
                                defaults: attempted,
                            },
                        );
                    },
                };
                proof {
                    lemma_first_index_in_bounds(
                        domains@[d as int].variants@.map_values(|s: String| s@),
                        variant@,
                    );
                    assert((ord as int) == usage_default_ordinal(decls@, uu[j as int]));
                    assert((ord as nat) < domains@[d as int].variants@.len());
                    assert(domains@[d as int].variants@.len() <= u32::MAX);
                }
                doms_idx.push(d);
                ords.push(ord as u32);
                bases.push(domains[d].label.clone());
            },
        }
        j = j + 1;
    }
    proof {
        assert forall|t: int| 0 <= t < n implies bases@.map_values(|s: String| s@)[t]
            == base_names(decls@, uu)[t] by {
            assert((doms_idx@[t] as int) == usage_domain(decls@, uu[t]));
            assert(bases@[t]@ == usage_base_name(decls@, uu[t]));
        }
        assert(bases@.map_values(|s: String| s@) =~= base_names(decls@, uu));
    }

    // disambiguate the field names and assemble the fields
    let mut fields: Vec<PropertyField> = Vec::new();
    let mut k: usize = 0;
    while k < n
        invariant
            n == uu.len(),
            uu == usages@,
            uu == def.properties_and_defaults@,
            domains_match(decls@, domains@),
            forall|i: int| 0 <= i < domains@.len() ==> domain_wf(#[trigger] domains@[i]),
            doms_idx@.len() == n,
            ords@.len() == n,
            bases@.len() == n,
            bases@.map_values(|s: String| s@) == base_names(decls@, uu),
            forall|t: int|
                0 <= t < n ==> {
                    &&& ((#[trigger] doms_idx@[t]) as int) == usage_domain(decls@, uu[t])
                    &&& (doms_idx@[t] as int) < domains@.len()
                    &&& (ords@[t] as int) == usage_default_ordinal(decls@, uu[t])
                    &&& (ords@[t] as nat) < domains@[doms_idx@[t] as int].variants@.len()
                },
            k <= n,
            fields@.len() == k,
            forall|t: int|
                0 <= t < k ==> {
                    &&& ((#[trigger] fields@[t]).domain as int) == usage_domain(decls@, uu[t])
                    &&& (fields@[t].default as int) == usage_default_ordinal(decls@, uu[t])
                    &&& fields@[t].name@ == field_name_spec(decls@, uu, t)
                    &&& (fields@[t].domain as int) < domains@.len()
                    &&& (fields@[t].default as nat)
                        < domains@[fields@[t].domain as int].variants@.len()
                },
        decreases n - k,
    {
        let ghost bb = base_names(decls@, uu);
        let total = count_in_prefix(&bases, n, &bases[k]);
        proof {
            assert(bases@.map_values(|s: String| s@).subrange(0, n as int) =~= bb);
        }
        let name: String = if total > 1 {
            let before = count_in_prefix(&bases, k, &bases[k]);
            make_numbered(&bases[k], before)
        } else {
            bases[k].clone()
        };
        proof {
            assert(bases@.map_values(|s: String| s@).subrange(0, k as int) =~= bb.subrange(
                0,
                k as int,
            ));
            assert(bases@[k as int]@ == bb[k as int]);
            assert(name@ == field_name_spec(decls@, uu, k as int));
        }
        fields.push(PropertyField { name, domain: doms_idx[k], default: ords[k] });
        k = k + 1;
    }

    // the size of the range: the product of the field domain sizes
    let ghost ss = block_sizes_of(decls@, uu);
    proof {
        assert(ss.len() == n);
        assert forall|t: int| 0 <= t < n implies #[trigger] ss[t]
            == domains@[doms_idx@[t] as int].variants@.len() && 1 <= ss[t] by {
            assert(ss[t] == usage_size(decls@, uu[t]));
            let d = doms_idx@[t] as int;
            if d == 0 {
                assert(builtin_boolean(domains@[0]));
                assert(domains@[0].variants@.map_values(|s: String| s@).len() == 2);
            } else {
                assert(domain_matches_decl(decls@[d - 1], domains@[d]));
                assert(domains@[d].variants@.map_values(|s: String| s@).len() == decl_variants(
                    decls@[d - 1],
                ).len());
            }
            assert(domain_wf(domains@[d]));
        }
        assert(ss.subrange(0, 0) =~= Seq::<nat>::empty());
    }
    let mut sizes: Vec<u64> = Vec::new();
    let mut acc: u64 = 1;
    let mut m: usize = 0;
    while m < n
        invariant
            n == uu.len(),
            uu == usages@,
            uu == def.properties_and_defaults@,
            ss == block_sizes_of(decls@, uu),
            doms_idx@.len() == n,
            ords@.len() == n,
            fields@.len() == n,
            forall|t: int| 0 <= t < n ==> (#[trigger] doms_idx@[t] as int) < domains@.len(),
            forall|t: int|
                0 <= t < n ==> #[trigger] ss[t] == domains@[doms_idx@[t] as int].variants@.len()
                    && 1 <= ss[t],
            forall|t: int|
                0 <= t < n ==> {
                    &&& ((#[trigger] doms_idx@[t]) as int) == usage_domain(decls@, uu[t])
                    &&& (ords@[t] as int) == usage_default_ordinal(decls@, uu[t])
                    &&& (ords@[t] as nat) < domains@[doms_idx@[t] as int].variants@.len()
                },
            forall|t: int|
                0 <= t < n ==> {
                    &&& ((#[trigger] fields@[t]).domain as int) == usage_domain(decls@, uu[t])
                    &&& (fields@[t].default as int) == usage_default_ordinal(decls@, uu[t])
                    &&& (fields@[t].domain as int) < domains@.len()
                    &&& (fields@[t].default as nat)
                        < domains@[fields@[t].domain as int].variants@.len()
                },
            forall|i: int| 0 <= i < domains@.len() ==> domain_wf(#[trigger] domains@[i]),
            m <= n,
            sizes@.len() == m,
            forall|t: int| 0 <= t < m ==> (#[trigger] sizes@[t] as nat) == ss[t],
            1 <= acc <= u32::MAX,
            acc as nat == space(ss.subrange(0, m as int)),
        decreases n - m,
    {
        let len64 = domains[doms_idx[m]].variants.len() as u64;
        proof {
            assert(domain_wf(domains@[doms_idx@[m as int] as int]));
            assert(len64 as nat == ss[m as int]);
            assert(1 <= len64 <= u32::MAX);
            assert(ss.subrange(0, m as int + 1).drop_last() =~= ss.subrange(0, m as int));
            assert(ss.subrange(0, m as int + 1).last() == ss[m as int]);
            lemma_space_drop_last(ss.subrange(0, m as int + 1));
            vstd::arithmetic::mul::lemma_mul_upper_bound(
                acc as int,
                0xffff_ffff,
                len64 as int,
                0xffff_ffff,
            );
            vstd::arithmetic::mul::lemma_mul_inequality(1, acc as int, len64 as int);
            vstd::arithmetic::mul::lemma_mul_is_commutative(acc as int, len64 as int);
        }
        sizes.push(len64);
        acc = acc * len64;
        if acc > u32::MAX as u64 {
            proof {
                assert(sizes_positive(ss));
                lemma_space_prefix_le(ss, m as int + 1);
                assert(space(ss) >= acc as nat);
                assert forall|t: int|
                    0 <= t < uu.len() implies usage_domain(decls@, #[trigger] uu[t]) >= 0
                    && usage_default_ordinal(decls@, uu[t]) >= 0 by {
                    assert(0 <= doms_idx@[t] as int);
                    assert(0 <= ords@[t] as int);
                }
                assert(block_ok(decls@, *def));
            }
            return Err(CompileError::StateSpaceExhausted { block: def.name.clone() });
        }
        m = m + 1;
    }
    proof {
        assert forall|t: int|
            0 <= t < uu.len() implies usage_domain(decls@, #[trigger] uu[t]) >= 0
            && usage_default_ordinal(decls@, uu[t]) >= 0 by {
            assert(0 <= doms_idx@[t] as int);
            assert(0 <= ords@[t] as int);
        }
        assert(block_ok(decls@, *def));
    }
    proof {
        assert(ss.subrange(0, n as int) =~= ss);
        assert(acc as nat == block_space_of(decls@, uu));
    }
    if acc > (u32::MAX - first) as u64 {
        return Err(CompileError::StateSpaceExhausted { block: def.name.clone() });
    }
    let size = acc as u32;

    // the default state id: the encoding of the declared default ordinals
    proof {
        assert forall|t: int| 0 <= t < n implies (#[trigger] ords@[t] as nat) < (
        sizes@[t] as nat) by {
            assert(ss[t] == domains@[doms_idx@[t] as int].variants@.len());
            assert((ords@[t] as nat) < domains@[doms_idx@[t] as int].variants@.len());
        }
        assert(sizes@.map_values(|s: u64| s as nat) =~= ss);
    }
    let local = encode_ordinals(&sizes, &ords);
    proof {
        lemma_encode_bound(
            sizes@.map_values(|s: u64| s as nat),
            ords@.map_values(|o: u32| o as nat),
        );
        assert((local as nat) < acc as nat);
    }
    let default_state = first + (local as u32);
    proof {
        assert forall|t: int| 0 <= t < n implies (#[trigger] ords@[t] as nat) == (
        fields@[t].default as nat) && (sizes@[t] as nat)
            == domains@[fields@[t].domain as int].variants@.len() by {
            assert((ords@[t] as int) == usage_default_ordinal(decls@, uu[t]));
            assert((fields@[t].default as int) == usage_default_ordinal(decls@, uu[t]));
            assert((doms_idx@[t] as int) == usage_domain(decls@, uu[t]));
            assert((fields@[t].domain as int) == usage_domain(decls@, uu[t]));
            assert(ss[t] == domains@[doms_idx@[t] as int].variants@.len());
        }
        assert(ords@.map_values(|o: u32| o as nat) =~= fields_defaults(fields@));
        assert(sizes@.map_values(|s: u64| s as nat) =~= fields_sizes(domains@, fields@));
        lemma_encode_bound(
            sizes@.map_values(|s: u64| s as nat),
            ords@.map_values(|o: u32| o as nat),
        );
    }

    Ok(
        BlockDescriptor {
            id: def.name.clone(),
            behavior: clone_tokens(&def.behavior),
            fields,
            first,
            size,
            default_state,
        },
    )
}

/// Disambiguation law: two usages of one block that share a base name (in
/// particular, two usages of the same domain) always receive distinct
/// field names: each carries its own zero-based occurrence index.
pub proof fn lemma_disambiguation_distinct(
    decls: Seq<PropertyDefinition>,
    usages: Seq<PropertyWithNameAndDefault>,
    j1: int,
    j2: int,
)
    requires
        0 <= j1 < j2 < usages.len(),
        base_names(decls, usages)[j1] == base_names(decls, usages)[j2],
    ensures
        field_name_spec(decls, usages, j1) != field_name_spec(decls, usages, j2),
{
    let bases = base_names(decls, usages);
    let x = bases[j1];
    let k1 = count_eq(bases.subrange(0, j1), x);
    let k2 = count_eq(bases.subrange(0, j2), x);
    // the earlier usage is counted before the later one: k1 < k2
    assert(bases.subrange(0, j1 + 1).drop_last() =~= bases.subrange(0, j1));
    assert(bases.subrange(0, j1 + 1).last() == x);
    assert(count_eq(bases.subrange(0, j1 + 1), x) == k1 + 1);
    lemma_count_eq_prefix_le(bases, x, j1 + 1, j2);
    assert(k1 + 1 <= k2);
    // the base name occurs at least twice, so both names carry an index
    assert(bases.subrange(0, j2 + 1).drop_last() =~= bases.subrange(0, j2));
    assert(bases.subrange(0, j2 + 1).last() == x);
    lemma_count_eq_prefix_le(bases, x, j2 + 1, bases.len() as int);
    assert(bases.subrange(0, bases.len() as int) =~= bases);
    assert(count_eq(bases, x) >= k2 + 1);
    assert(count_eq(bases, x) > 1);
    let n1 = numbered_name(x, k1);
    let n2 = numbered_name(x, k2);
    assert(field_name_spec(decls, usages, j1) == n1);
    assert(field_name_spec(decls, usages, j2) == n2);
    if n1 == n2 {
        assert(n1.subrange(x.len() as int + 1, n1.len() as int) =~= spec_decimal(k1));
        assert(n2.subrange(x.len() as int + 1, n2.len() as int) =~= spec_decimal(k2));
        assert(spec_decimal(k1) == spec_decimal(k2));
        lemma_spec_decimal_injective(k1, k2);
        assert(false);
    }
}

proof fn lemma_total_states_prefix(
    decls: Seq<PropertyDefinition>,
    blocks: Seq<BlockDefinition>,
    m: int,
)
    requires
        0 <= m <= blocks.len(),
    ensures
        total_states(decls, blocks.subrange(0, m)) <= total_states(decls, blocks),
    decreases blocks.len(),
{
    if m == blocks.len() {
        assert(blocks.subrange(0, m) =~= blocks);
    } else {
        assert(blocks.drop_last().subrange(0, m) =~= blocks.subrange(0, m));
        lemma_total_states_prefix(decls, blocks.drop_last(), m);
    }
}

/// Compiles a parsed definition into the block-state tables.
///
/// The pass succeeds exactly on valid definition sets: every declaration
/// well-formed, every field usage resolvable with an existing default, and
/// the whole state space within the 32-bit id counter. On success the
/// tables satisfy the registry invariant (gap-free contiguous ranges
/// covering `[0, state_count)`), and every descriptor carries exactly what
/// the reference semantics assigns: name, behavior, resolved fields,
/// disambiguated field names, range size, and default state id.
pub fn compile(defs: &MakeBlockStates) -> (r: Result<BlockStateRegistry, CompileError>)
    ensures
        r is Ok <==> defs_ok(*defs),
        match r {
            Ok(reg) => compiled_from(*defs, reg),
            Err(e) => compile_error_justified(*defs, e),
        },
{
    let decls = &defs.property_definitions.declarations;
    let blocks = &defs.block_definitions.blocks;
    let ghost dd = decls@;
    let ghost bb = blocks@;

    let domains = match build_domains(decls) {
        Ok(d) => d,
        Err(e) => {
            return Err(e);
        },
    };

    let mut built: Vec<BlockDescriptor> = Vec::new();
    let mut counter: u32 = 0;
    let mut k: usize = 0;
    proof {
        assert(bb.subrange(0, 0) =~= Seq::<BlockDefinition>::empty());
    }
    while k < blocks.len()
        invariant
            dd == decls@,
            bb == blocks@,
            decls == defs.property_definitions.declarations,
            blocks == defs.block_definitions.blocks,
            domains_match(dd, domains@),
            forall|i: int| 0 <= i < domains@.len() ==> domain_wf(#[trigger] domains@[i]),
            forall|i: int| 0 <= i < dd.len() ==> decl_ok(#[trigger] dd[i]),
            k <= bb.len(),
            built@.len() == k,
            counter as nat == total_states(dd, bb.subrange(0, k as int)),
            counter as nat <= u32::MAX,
            (k > 0 ==> counter as int == built@.last().first + built@.last().size),
            (built@.len() > 0 ==> built@[0].first == 0),
            forall|t: int|
                1 <= t < k ==> (#[trigger] built@[t].first as int) == built@[t - 1].first
                    + built@[t - 1].size,
            forall|t: int|
                0 <= t < k ==> {
                    &&& block_ok(dd, #[trigger] bb[t])
                    &&& built@[t].id@ == bb[t].name@
                    &&& built@[t].behavior@ == bb[t].behavior@
                    &&& fields_match(dd, bb[t].properties_and_defaults@, built@[t].fields@)
                    &&& (built@[t].size as nat) == block_space_of(
                        dd,
                        bb[t].properties_and_defaults@,
                    )
                    &&& 1 <= built@[t].size
                    &&& built@[t].first + built@[t].size <= u32::MAX
                    &&& (built@[t].size as nat) == space(
                        fields_sizes(domains@, built@[t].fields@),
                    )
                    &&& (built@[t].default_state as nat) == built@[t].first + encode(
                        fields_sizes(domains@, built@[t].fields@),
                        fields_defaults(built@[t].fields@),
                    )
                    &&& forall|j: int|
                        0 <= j < built@[t].fields@.len() ==> {
                            &&& ((#[trigger] built@[t].fields@[j]).domain as int)
                                < domains@.len()
                            &&& (built@[t].fields@[j].default as nat)
                                < domains@[built@[t].fields@[j].domain as int].variants@.len()
                        }
                },
        decreases bb.len() - k,
    {
        let ghost prefix = bb.subrange(0, k as int);
        let ghost prefix1 = bb.subrange(0, k as int + 1);
        proof {
            assert(prefix1.drop_last() =~= prefix);
            assert(prefix1.last() == bb[k as int]);
        }
        let desc = match build_block(decls, &domains, &blocks[k], counter) {
            Ok(d) => d,
            Err(e) => {
                proof {
                    if let CompileError::StateSpaceExhausted { .. } = e {
                        lemma_total_states_prefix(dd, bb, k as int + 1);
                        assert(total_states(dd, prefix1) == counter as nat + block_space_of(
                            dd,
                            bb[k as int].properties_and_defaults@,
                        ));
                    }
                }
                return Err(e);
            },
        };
        counter = desc.first + desc.size;
        built.push(desc);
        k = k + 1;
    }
    proof {
        assert(bb.subrange(0, bb.len() as int) =~= bb);
    }
    let ghost dv = domains@;
    let ghost bv = built@;
    let reg = BlockStateRegistry { domains, blocks: built, state_count: counter };
    proof {
        assert(reg.domains@ == dv);
        assert(reg.blocks@ == bv);
        assert forall|b: int| 0 <= b < reg.blocks@.len() implies reg.block_wf(b) by {
            assert(block_ok(dd, bb[b]));
            assert(reg.block_sizes(b) == fields_sizes(dv, bv[b].fields@));
            assert(reg.block_defaults(b) == fields_defaults(bv[b].fields@));
            assert forall|j: int| 0 <= j < reg.blocks@[b].fields@.len() implies reg.field_wf(
                reg.blocks@[b].fields@[j],
            ) by {
                assert((bv[b].fields@[j].domain as int) < dv.len());
            }
        }
        assert(reg.wf());
    }
    Ok(reg)
}

} // verus!
