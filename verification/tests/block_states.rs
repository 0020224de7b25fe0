//! End-to-end tests of the block-state compiler: the concrete scenarios,
//! the bijection and coverage properties on small registries, and every
//! fatal error.

use azalea_block::bridge::{BridgeError, RegistryBridge};
use azalea_block::compile::CompileError;
use azalea_block::disconnect::{disconnect_event, read_packets_task_running, should_disconnect};
use azalea_block::make_block_states;
use azalea_block::registry::{BlockInstance, BlockStateRegistry, StateError};
use azalea_block::token::ParseError;
use azalea_block::token::ParseErrorKind;
use azalea_block::token::Token;
use azalea_block::BlockStatesError;

fn compile_ok(text: &str) -> BlockStateRegistry {
    match make_block_states(text) {
        Ok(reg) => reg,
        Err(BlockStatesError::Parse(e)) => {
            panic!("parse error at {} ({:?})", e.position, kind_name(&e))
        }
        Err(BlockStatesError::Compile(_)) => panic!("compile error"),
    }
}

fn kind_name(e: &ParseError) -> &'static str {
    match e.kind {
        ParseErrorKind::UnexpectedCharacter => "unexpected character",
        ParseErrorKind::UnterminatedString => "unterminated string",
        ParseErrorKind::UnexpectedToken => "unexpected token",
        ParseErrorKind::UnexpectedEnd => "unexpected end",
        ParseErrorKind::ExpectedPropertiesSection => "expected Properties",
        ParseErrorKind::ExpectedBlocksSection => "expected Blocks",
        ParseErrorKind::ExpectedBooleanOrVariant => "expected boolean or variant",
    }
}

const GRASS: &str = r#"
Properties => {
    "snowy" => bool,
    "axis" => Axis { X, Y, Z },
},
Blocks => {
    grass_block => BlockBehavior::default(), {
        snowy: false,
    },
}
"#;

#[test]
fn grass_block_scenario() {
    // boolean `snowy`, default false: range size 2, id first decodes to
    // true (ordinal 0), first+1 to false (ordinal 1), default is first+1
    let reg = compile_ok(GRASS);
    assert_eq!(reg.blocks.len(), 1);
    let blk = &reg.blocks[0];
    assert_eq!(blk.first, 0);
    assert_eq!(blk.size, 2);
    assert_eq!(reg.max_state(), 1);
    assert_eq!(blk.default_state, 1);
    assert_eq!(blk.id.as_str(), "grass_block");
    assert_eq!(blk.fields.len(), 1);
    assert_eq!(blk.fields[0].name.as_str(), "snowy");

    let at_first = reg.from_state_id(0).unwrap();
    assert_eq!(at_first.block, 0);
    assert_eq!(at_first.ordinals, vec![0]);
    assert_eq!(reg.variant_name(0, 0, 0).as_str(), "true");

    let at_second = reg.from_state_id(1).unwrap();
    assert_eq!(at_second.ordinals, vec![1]);
    assert_eq!(reg.variant_name(0, 0, 1).as_str(), "false");
}

#[test]
fn grass_block_identify_and_behavior() {
    let reg = compile_ok(GRASS);
    assert_eq!(reg.identify(0).as_str(), "grass_block");
    let behavior = reg.behavior_of(0);
    assert_eq!(behavior.len(), 5);
    match &behavior[0] {
        Token::Ident(s) => assert_eq!(s.as_str(), "BlockBehavior"),
        _ => panic!("expected an identifier"),
    }
    assert!(matches!(behavior[1], Token::PathSep));
    match &behavior[2] {
        Token::Ident(s) => assert_eq!(s.as_str(), "default"),
        _ => panic!("expected an identifier"),
    }
    assert!(matches!(behavior[3], Token::OpenParen));
    assert!(matches!(behavior[4], Token::CloseParen));
}

const BUTTON: &str = r#"
Properties => {
    "face" => Face { Floor, Wall, Ceiling },
    "facing" => Facing { North, South, West, East },
    "powered" => bool,
},
Blocks => {
    oak_planks => BlockBehavior::default(), {},
    acacia_button => BlockBehavior::default(), {
        face: Face::Wall,
        facing: Facing::North,
        powered: false,
    },
}
"#;

#[test]
fn acacia_button_weights() {
    // declared order face (3), facing (4), powered (2): size 24, weight of
    // powered is 1, of facing 2, of face 8
    let reg = compile_ok(BUTTON);
    assert_eq!(reg.blocks.len(), 2);
    let plain = &reg.blocks[0];
    assert_eq!((plain.first, plain.size), (0, 1));
    let button = &reg.blocks[1];
    assert_eq!(button.first, 1);
    assert_eq!(button.size, 24);
    assert_eq!(reg.max_state(), 24);

    for face in 0..3u32 {
        for facing in 0..4u32 {
            for powered in 0..2u32 {
                let inst = BlockInstance {
                    block: 1,
                    ordinals: vec![face, facing, powered],
                };
                let id = reg.to_state_id(&inst);
                assert_eq!(id, button.first + face * 8 + facing * 2 + powered);
                let back = reg.from_state_id(id).unwrap();
                assert_eq!(back.block, 1);
                assert_eq!(back.ordinals, vec![face, facing, powered]);
            }
        }
    }
    // defaults: face Wall (ordinal 1), facing North (0), powered false (1)
    assert_eq!(button.default_state, button.first + 1 * 8 + 0 * 2 + 1);
    let at_default = reg.from_state_id(button.default_state).unwrap();
    assert_eq!(at_default.ordinals, vec![1, 0, 1]);
    assert_eq!(reg.variant_name(1, 0, 1).as_str(), "Wall");
    assert_eq!(reg.variant_name(1, 1, 0).as_str(), "North");
    assert_eq!(reg.variant_name(1, 2, 1).as_str(), "false");
}

#[test]
fn coverage_ranges_are_gap_free() {
    let reg = compile_ok(BUTTON);
    assert_eq!(reg.blocks[0].first, 0);
    for b in 1..reg.blocks.len() {
        assert_eq!(
            reg.blocks[b].first,
            reg.blocks[b - 1].first + reg.blocks[b - 1].size
        );
    }
    let last = reg.blocks.last().unwrap();
    assert_eq!(last.first + last.size - 1, reg.max_state());
}

#[test]
fn bijection_over_the_whole_id_space() {
    let reg = compile_ok(BUTTON);
    for id in 0..=reg.max_state() {
        let inst = reg.from_state_id(id).unwrap();
        assert_eq!(reg.to_state_id(&inst), id);
    }
    match reg.from_state_id(reg.max_state() + 1) {
        Err(StateError::UnknownStateId { id }) => assert_eq!(id, 25),
        _ => panic!("an id beyond max_state must be rejected"),
    }
}

#[test]
fn default_state_decodes_to_defaults() {
    let reg = compile_ok(BUTTON);
    for b in 0..reg.blocks.len() {
        let blk = &reg.blocks[b];
        let inst = reg.from_state_id(blk.default_state).unwrap();
        assert_eq!(inst.block, b);
        for j in 0..blk.fields.len() {
            assert_eq!(inst.ordinals[j], blk.fields[j].default);
        }
    }
}

#[test]
fn boolean_polarity_is_fixed() {
    // ordinal 0 is true, ordinal 1 is false, in every boolean domain
    let reg = compile_ok(GRASS);
    for d in 0..reg.domains.len() {
        let dom = &reg.domains[d];
        if dom.boolean {
            assert_eq!(dom.variants.len(), 2);
            assert_eq!(dom.variants[0].as_str(), "true");
            assert_eq!(dom.variants[1].as_str(), "false");
        }
    }
}

#[test]
fn same_domain_three_times_is_disambiguated() {
    let text = r#"
Properties => {
    "has_bottle" => HasBottle { NoBottle, YesBottle },
},
Blocks => {
    brewing_stand => BlockBehavior::default(), {
        has_bottle: HasBottle::NoBottle,
        has_bottle: HasBottle::NoBottle,
        has_bottle: HasBottle::NoBottle,
    },
}
"#;
    let reg = compile_ok(text);
    let blk = &reg.blocks[0];
    assert_eq!(blk.size, 8);
    assert_eq!(blk.fields.len(), 3);
    assert_eq!(blk.fields[0].name.as_str(), "has_bottle_0");
    assert_eq!(blk.fields[1].name.as_str(), "has_bottle_1");
    assert_eq!(blk.fields[2].name.as_str(), "has_bottle_2");
    // each slot enumerates the same domain independently
    for a in 0..2u32 {
        for b in 0..2u32 {
            for c in 0..2u32 {
                let inst = BlockInstance {
                    block: 0,
                    ordinals: vec![a, b, c],
                };
                let id = reg.to_state_id(&inst);
                let back = reg.from_state_id(id).unwrap();
                assert_eq!(back.ordinals, vec![a, b, c]);
            }
        }
    }
}

#[test]
fn single_use_keeps_the_plain_name() {
    let reg = compile_ok(BUTTON);
    let names: Vec<&str> = reg.blocks[1]
        .fields
        .iter()
        .map(|f| f.name.as_str())
        .collect();
    assert_eq!(names, vec!["face", "facing", "powered"]);
}

#[test]
fn field_less_block_owns_one_state() {
    let reg = compile_ok(BUTTON);
    let plain = &reg.blocks[0];
    assert_eq!(plain.size, 1);
    assert_eq!(plain.default_state, plain.first);
    let inst = reg.from_state_id(plain.first).unwrap();
    assert_eq!(inst.block, 0);
    assert!(inst.ordinals.is_empty());
}

#[test]
fn unknown_domain_is_fatal() {
    let text = r#"
Properties => {
    "snowy" => bool,
},
Blocks => {
    oak_log => BlockBehavior::default(), {
        axis: Axis::Y,
    },
}
"#;
    match make_block_states(text) {
        Err(BlockStatesError::Compile(CompileError::UnknownDomain { block, domain_type })) => {
            assert_eq!(block.as_str(), "oak_log");
            assert_eq!(domain_type.as_str(), "Axis");
        }
        _ => panic!("an unknown domain must be fatal"),
    }
}

#[test]
fn duplicate_variant_is_fatal() {
    let text = r#"
Properties => {
    "axis" => Axis { X, Y, X },
},
Blocks => {
    oak_log => BlockBehavior::default(), {
        axis: Axis::Y,
    },
}
"#;
    match make_block_states(text) {
        Err(BlockStatesError::Compile(CompileError::DuplicateVariant { domain_type, variant })) => {
            assert_eq!(domain_type.as_str(), "Axis");
            assert_eq!(variant.as_str(), "X");
        }
        _ => panic!("a duplicate variant must be fatal"),
    }
}

#[test]
fn invalid_default_is_fatal() {
    let text = r#"
Properties => {
    "axis" => Axis { X, Y, Z },
},
Blocks => {
    oak_log => BlockBehavior::default(), {
        axis: Axis::W,
    },
}
"#;
    match make_block_states(text) {
        Err(BlockStatesError::Compile(CompileError::InvalidDefault {
            block,
            field,
            variant,
            defaults,
        })) => {
            assert_eq!(block.as_str(), "oak_log");
            assert_eq!(field.as_str(), "axis");
            assert_eq!(variant.as_str(), "W");
            // the full attempted combination comes along for diagnosis
            assert_eq!(defaults, vec!["W".to_string()]);
        }
        _ => panic!("a default missing from its domain must be fatal"),
    }
}

#[test]
fn empty_domain_is_fatal() {
    let text = r#"
Properties => {
    "axis" => Axis { },
},
Blocks => {
    oak_log => BlockBehavior::default(), {
        axis: Axis::Y,
    },
}
"#;
    match make_block_states(text) {
        Err(BlockStatesError::Compile(CompileError::EmptyDomain { domain_type })) => {
            assert_eq!(domain_type.as_str(), "Axis");
        }
        _ => panic!("an empty domain must be fatal"),
    }
}

#[test]
fn malformed_grammar_is_fatal() {
    // missing the arrow after the section keyword
    assert!(matches!(
        make_block_states("Properties { }, Blocks => { }"),
        Err(BlockStatesError::Parse(_))
    ));
    // wrong first section keyword
    assert!(matches!(
        make_block_states("Sections => { }, Blocks => { }"),
        Err(BlockStatesError::Parse(_))
    ));
    // a default that is neither boolean nor Domain::Variant
    assert!(matches!(
        make_block_states(
            "Properties => { \"snowy\" => bool, }, Blocks => { b => X(), { snowy: maybe, }, }"
        ),
        Err(BlockStatesError::Parse(_))
    ));
    // an unterminated quoted name
    assert!(matches!(
        make_block_states("Properties => { \"snowy => bool, }, Blocks => { }"),
        Err(BlockStatesError::Parse(_))
    ));
    // trailing text after the block section
    assert!(matches!(
        make_block_states("Properties => { }, Blocks => { } extra"),
        Err(BlockStatesError::Parse(_))
    ));
}

#[test]
fn bridge_binds_every_identity() {
    let reg = compile_ok(BUTTON);
    let names = vec!["acacia_button".to_string(), "oak_planks".to_string()];
    let bridge = RegistryBridge::build(&reg, &names).unwrap();
    assert_eq!(bridge.bindings, vec![1, 0]);

    assert_eq!(bridge.default_state_of(&reg, 0), reg.blocks[1].default_state);
    assert_eq!(bridge.state_range_of(&reg, 0), (1, 24));
    assert_eq!(bridge.state_range_of(&reg, 1), (0, 0));

    let inst = bridge.default_instance_of(&reg, 0);
    assert_eq!(inst.block, 1);
    assert_eq!(inst.ordinals, vec![1, 0, 1]);
}

#[test]
fn bridge_missing_binding_is_fatal() {
    let reg = compile_ok(BUTTON);
    let names = vec!["acacia_button".to_string(), "bedrock".to_string()];
    match RegistryBridge::build(&reg, &names) {
        Err(BridgeError::MissingBinding { name }) => assert_eq!(name.as_str(), "bedrock"),
        _ => panic!("an identity without a block must be fatal"),
    }
}

#[test]
fn shared_boolean_labels_stay_distinct() {
    let text = r#"
Properties => {
    "open" => bool,
    "powered" => bool,
},
Blocks => {
    oak_door => BlockBehavior::default(), {
        open: false,
        powered: false,
    },
}
"#;
    let reg = compile_ok(text);
    let blk = &reg.blocks[0];
    assert_eq!(blk.fields[0].name.as_str(), "open");
    assert_eq!(blk.fields[1].name.as_str(), "powered");
    assert_eq!(blk.size, 4);
}

#[test]
fn disconnect_decisions() {
    let running = read_packets_task_running(false);
    assert!(running.0);
    let ended = read_packets_task_running(true);
    assert!(!ended.0);

    assert!(!should_disconnect(false, &ended));
    assert!(!should_disconnect(true, &running));
    assert!(should_disconnect(true, &ended));

    assert!(disconnect_event(7, true, &running).is_none());
    let event = disconnect_event(7, true, &ended).unwrap();
    assert_eq!(event.entity, 7);
}

#[test]
fn empty_definition_compiles_to_empty_tables() {
    let reg = compile_ok("Properties => { }, Blocks => { }");
    assert!(reg.blocks.is_empty());
    assert_eq!(reg.state_count, 0);
    assert!(matches!(
        reg.from_state_id(0),
        Err(StateError::UnknownStateId { id: 0 })
    ));
    // the builtin boolean domain is always present
    assert!(reg.domains[0].boolean);
}

#[test]
fn behavior_keeps_nested_commas_and_braces() {
    let text = r#"
Properties => {
    "snowy" => bool,
},
Blocks => {
    grass_block => BlockBehavior::new(1, { 2 }), {
        snowy: false,
    },
}
"#;
    let reg = compile_ok(text);
    let behavior = reg.behavior_of(0);
    // BlockBehavior :: new ( 1 , { 2 } )
    assert_eq!(behavior.len(), 10);
    assert!(matches!(behavior[4], Token::Ident(_)));
    assert!(matches!(behavior[5], Token::Comma));
    assert!(matches!(behavior[6], Token::OpenBrace));
}

#[test]
fn later_declaration_of_a_domain_shadows_an_earlier_one() {
    let text = r#"
Properties => {
    "axis" => Axis { X, Y },
    "pillar_axis" => Axis { X, Y, Z },
},
Blocks => {
    oak_log => BlockBehavior::default(), {
        axis: Axis::Z,
    },
}
"#;
    let reg = compile_ok(text);
    let blk = &reg.blocks[0];
    assert_eq!(blk.size, 3);
    assert_eq!(blk.fields[0].name.as_str(), "pillar_axis");
    assert_eq!(blk.fields[0].default, 2);
}

#[test]
fn trailing_comma_after_a_block_is_allowed() {
    let text = r#"
Properties => {
    "snowy" => bool,
},
Blocks => {
    grass_block => BlockBehavior::default(), {
        snowy: false,
    },
    dirt => BlockBehavior::default(), {},
}
"#;
    let reg = compile_ok(text);
    assert_eq!(reg.blocks.len(), 2);
    assert_eq!(reg.state_count, 3);
    assert_eq!(reg.identify(1).as_str(), "dirt");
}
