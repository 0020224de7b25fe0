//! The parsed form of a block-state definition, and its parser.
//!
//! The definition text has two ordered sections:
//!
//! ```text
//! Properties => {
//!     "snowy" => bool,
//!     "axis" => Axis { X, Y, Z },
//! },
//! Blocks => {
//!     grass_block => BlockBehavior::default(), {
//!         snowy: false,
//!     },
//! }
//! ```
//!
//! Each parse function mirrors one production of that grammar and consumes
//! tokens from a shared cursor position. Any syntactic deviation is a fatal
//! error with the token position where it was found; there is no partial
//! or recovered result.
//!
//! Each production is stated as a spec predicate over the token sequence
//! (`usage_at`, `property_type_at`, `property_definition_at`,
//! `block_definition_at`, the list forms, and `definition_at` for the
//! whole text), and every parse function proves that its result spells
//! exactly the tokens it consumed. Success is owed in full — a parse
//! returns `Ok` whenever its production is present — for a field usage, a
//! domain, a declaration, the declaration list, and a block definition;
//! the block list and the whole definition owe success on their stated
//! input families.

use vstd::prelude::*;

verus! {

use crate::token::{Token, ParseError, ParseErrorKind, clone_token, is_ident, is_str_lit};
use crate::strutil::is_word;

/// The domain of one property declaration: `bool`, or a named enumeration
/// with an explicit variant list such as `Axis { X, Y, Z }`.
pub enum PropertyType {
    Enum { domain_type: String, variants: Vec<String> },
    Boolean,
}

/// One property declaration: `"snowy" => bool`.
pub struct PropertyDefinition {
    pub name: String,
    pub property_type: PropertyType,
}

/// The ordered property-domain section.
pub struct PropertyDefinitions {
    pub declarations: Vec<PropertyDefinition>,
}

/// The default value of one field usage: a boolean literal, or a variant
/// of a named domain (`Facing::North`).
pub enum PropertyValue {
    Bool(bool),
    Enum { domain_type: String, variant: String },
}

/// One field usage of a block: `snowy: false` or `facing: Facing::North`.
/// The usage references its domain by name and carries the declared
/// default variant.
pub struct PropertyWithNameAndDefault {
    pub name: String,
    pub default: PropertyValue,
}

/// One block definition: a name, an opaque behavior expression (kept as
/// its raw token sequence), and the ordered field usages.
pub struct BlockDefinition {
    pub name: String,
    pub behavior: Vec<Token>,
    pub properties_and_defaults: Vec<PropertyWithNameAndDefault>,
}

/// The ordered block-definition section.
pub struct BlockDefinitions {
    pub blocks: Vec<BlockDefinition>,
}

/// A whole parsed definition: the property section and the block section.
pub struct MakeBlockStates {
    pub property_definitions: PropertyDefinitions,
    pub block_definitions: BlockDefinitions,
}

/// The field-usage production: the tokens from `pos` spell exactly the
/// usage `u` and end at `end`. A boolean default is one `true`/`false`
/// word not followed by `::` (a `::` always reads as a variant path).
pub open spec fn usage_at(
    tokens: Seq<Token>,
    pos: int,
    u: PropertyWithNameAndDefault,
    end: int,
) -> bool {
    &&& 0 <= pos
    &&& is_ident(tokens[pos], u.name@)
    &&& tokens[pos + 1] is Colon
    &&& match u.default {
        PropertyValue::Bool(b) => {
            &&& end == pos + 3
            &&& end <= tokens.len()
            &&& is_ident(
                tokens[pos + 2],
                if b {
                    "true"@
                } else {
                    "false"@
                },
            )
            &&& !(pos + 3 < tokens.len() && tokens[pos + 3] is PathSep)
        },
        PropertyValue::Enum { domain_type, variant } => {
            &&& end == pos + 5
            &&& end <= tokens.len()
            &&& is_ident(tokens[pos + 2], domain_type@)
            &&& tokens[pos + 3] is PathSep
            &&& is_ident(tokens[pos + 4], variant@)
        },
    }
}

/// One position parses to at most one field-usage end: the `::` lookahead
/// separates the boolean reading from the variant-path reading.
proof fn lemma_usage_end_det(
    tokens: Seq<Token>,
    pos: int,
    u1: PropertyWithNameAndDefault,
    e1: int,
    u2: PropertyWithNameAndDefault,
    e2: int,
)
    requires
        usage_at(tokens, pos, u1, e1),
        usage_at(tokens, pos, u2, e2),
    ensures
        e1 == e2,
{
}

/// The brace-delimited variant list production: from `pos` the tokens
/// spell the identifiers of `variants`, comma-separated with an optional
/// trailing comma, and the closing brace stands at `end - 1`.
pub open spec fn variant_list_at(
    tokens: Seq<Token>,
    pos: int,
    variants: Seq<Seq<char>>,
    end: int,
) -> bool
    decreases variants.len(),
{
    if variants.len() == 0 {
        &&& 0 <= pos < tokens.len()
        &&& tokens[pos] is CloseBrace
        &&& end == pos + 1
    } else {
        &&& 0 <= pos
        &&& pos + 1 < tokens.len()
        &&& is_ident(tokens[pos], variants[0])
        &&& {
            ||| (tokens[pos + 1] is Comma && variant_list_at(
                tokens,
                pos + 2,
                variants.skip(1),
                end,
            ))
            ||| (tokens[pos + 1] is CloseBrace && variants.len() == 1 && end == pos + 2)
        }
    }
}

/// The domain production: the `bool` keyword, or a type name with its
/// brace-delimited variant list.
pub open spec fn property_type_at(tokens: Seq<Token>, pos: int, t: PropertyType, end: int) -> bool {
    match t {
        PropertyType::Boolean => {
            &&& 0 <= pos < tokens.len()
            &&& is_ident(tokens[pos], "bool"@)
            &&& end == pos + 1
        },
        PropertyType::Enum { domain_type, variants } => {
            &&& 0 <= pos
            &&& pos + 1 < tokens.len()
            &&& is_ident(tokens[pos], domain_type@)
            &&& domain_type@ != "bool"@
            &&& tokens[pos + 1] is OpenBrace
            &&& variant_list_at(tokens, pos + 2, variants@.map_values(|s: String| s@), end)
        },
    }
}

proof fn lemma_property_type_exists_list(tokens: Seq<Token>, pos: int, q: int, kw: Seq<char>)
    requires
        q == pos + 2,
        kw != "bool"@,
        0 <= pos,
        is_ident(tokens[pos], kw),
        exists|t: PropertyType, end: int| property_type_at(tokens, pos, t, end),
    ensures
        exists|vs: Seq<Seq<char>>, e: int| variant_list_at(tokens, q, vs, e),
{
    let (t, end) = choose|t: PropertyType, end: int| property_type_at(tokens, pos, t, end);
    match t {
        PropertyType::Boolean => {
            assert(is_ident(tokens[pos], "bool"@));
            assert(false);
        },
        PropertyType::Enum { domain_type, variants } => {
            assert(variant_list_at(tokens, q, variants@.map_values(|s: String| s@), end));
        },
    }
}

/// One position parses to at most one variant-list end.
proof fn lemma_variant_list_end_det(
    tokens: Seq<Token>,
    pos: int,
    vs1: Seq<Seq<char>>,
    e1: int,
    vs2: Seq<Seq<char>>,
    e2: int,
)
    requires
        variant_list_at(tokens, pos, vs1, e1),
        variant_list_at(tokens, pos, vs2, e2),
    ensures
        e1 == e2,
    decreases vs1.len(),
{
    if vs1.len() == 0 {
        if vs2.len() != 0 {
            assert(is_ident(tokens[pos], vs2[0]));
            assert(tokens[pos] is CloseBrace);
            assert(false);
        }
    } else {
        if vs2.len() == 0 {
            assert(is_ident(tokens[pos], vs1[0]));
            assert(tokens[pos] is CloseBrace);
            assert(false);
        }
        if tokens[pos + 1] is Comma {
            assert(variant_list_at(tokens, pos + 2, vs1.skip(1), e1));
            assert(variant_list_at(tokens, pos + 2, vs2.skip(1), e2));
            lemma_variant_list_end_det(tokens, pos + 2, vs1.skip(1), e1, vs2.skip(1), e2);
        }
    }
}

/// One position parses to at most one domain end.
proof fn lemma_property_type_end_det(
    tokens: Seq<Token>,
    pos: int,
    t1: PropertyType,
    e1: int,
    t2: PropertyType,
    e2: int,
)
    requires
        property_type_at(tokens, pos, t1, e1),
        property_type_at(tokens, pos, t2, e2),
    ensures
        e1 == e2,
{
    match t1 {
        PropertyType::Boolean => {
            match t2 {
                PropertyType::Boolean => {},
                PropertyType::Enum { domain_type, variants } => {
                    assert(is_ident(tokens[pos], "bool"@));
                    assert(is_ident(tokens[pos], domain_type@));
                    assert(false);
                },
            }
        },
        PropertyType::Enum { domain_type, variants } => {
            match t2 {
                PropertyType::Boolean => {
                    assert(is_ident(tokens[pos], "bool"@));
                    assert(is_ident(tokens[pos], domain_type@));
                    assert(false);
                },
                PropertyType::Enum { domain_type: dt2, variants: vs2 } => {
                    lemma_variant_list_end_det(
                        tokens,
                        pos + 2,
                        variants@.map_values(|s: String| s@),
                        e1,
                        vs2@.map_values(|s: String| s@),
                        e2,
                    );
                },
            }
        },
    }
}

/// The declaration production: a quoted name, `=>`, a domain, and the
/// required comma.
pub open spec fn property_definition_at(
    tokens: Seq<Token>,
    pos: int,
    d: PropertyDefinition,
    end: int,
) -> bool {
    &&& 0 <= pos
    &&& pos + 1 < tokens.len()
    &&& is_str_lit(tokens[pos], d.name@)
    &&& tokens[pos + 1] is FatArrow
    &&& exists|mid: int|
        {
            &&& property_type_at(tokens, pos + 2, d.property_type, mid)
            &&& mid < tokens.len()
            &&& #[trigger] tokens[mid] is Comma
            &&& end == mid + 1
        }
}

/// One position parses to at most one declaration end.
proof fn lemma_property_definition_end_det(
    tokens: Seq<Token>,
    pos: int,
    d1: PropertyDefinition,
    e1: int,
    d2: PropertyDefinition,
    e2: int,
)
    requires
        property_definition_at(tokens, pos, d1, e1),
        property_definition_at(tokens, pos, d2, e2),
    ensures
        e1 == e2,
{
    let mid1 = choose|mid: int|
        {
            &&& property_type_at(tokens, pos + 2, d1.property_type, mid)
            &&& mid < tokens.len()
            &&& #[trigger] tokens[mid] is Comma
            &&& e1 == mid + 1
        };
    let mid2 = choose|mid: int|
        {
            &&& property_type_at(tokens, pos + 2, d2.property_type, mid)
            &&& mid < tokens.len()
            &&& #[trigger] tokens[mid] is Comma
            &&& e2 == mid + 1
        };
    lemma_property_type_end_det(tokens, pos + 2, d1.property_type, mid1, d2.property_type, mid2);
}

/// The braced field-usage list production: usages comma-separated, an
/// optional trailing comma, ended by the closing brace at `end - 1`.
pub open spec fn usage_list_at(
    tokens: Seq<Token>,
    pos: int,
    usages: Seq<PropertyWithNameAndDefault>,
    end: int,
) -> bool
    decreases usages.len(),
{
    if usages.len() == 0 {
        &&& 0 <= pos < tokens.len()
        &&& tokens[pos] is CloseBrace
        &&& end == pos + 1
    } else {
        exists|mid: int|
            {
                &&& #[trigger] usage_at(tokens, pos, usages[0], mid)
                &&& mid < tokens.len()
                &&& {
                    ||| (tokens[mid] is Comma && usage_list_at(
                        tokens,
                        mid + 1,
                        usages.skip(1),
                        end,
                    ))
                    ||| (tokens[mid] is CloseBrace && usages.len() == 1 && end == mid + 1)
                }
            }
    }
}

/// The nesting change one token makes inside a behavior expression.
pub open spec fn token_depth_delta(t: Token) -> int {
    match t {
        Token::OpenBrace => 1,
        Token::OpenParen => 1,
        Token::CloseBrace => -1,
        Token::CloseParen => -1,
        _ => 0,
    }
}

/// The nesting depth after a token sequence.
pub open spec fn depth_after(toks: Seq<Token>) -> int
    decreases toks.len(),
{
    if toks.len() == 0 {
        0
    } else {
        depth_after(toks.drop_last()) + token_depth_delta(toks.last())
    }
}

/// A well-formed behavior expression: no closer ever goes below depth
/// zero, every comma stands inside braces or parentheses, and the
/// sequence ends balanced — so the comma that follows it is the first
/// one at depth zero.
pub open spec fn behavior_tokens_ok(toks: Seq<Token>) -> bool {
    &&& forall|k: int|
        0 <= k <= toks.len() ==> depth_after(#[trigger] toks.subrange(0, k)) >= 0
    &&& forall|k: int|
        0 <= k < toks.len() ==> ((#[trigger] toks[k]) is Comma ==> depth_after(
            toks.subrange(0, k),
        ) > 0)
    &&& depth_after(toks) == 0
}

proof fn lemma_depth_push(toks: Seq<Token>, t: Token)
    ensures
        depth_after(toks.push(t)) == depth_after(toks) + token_depth_delta(t),
        forall|k: int|
            0 <= k <= toks.len() ==> depth_after(#[trigger] toks.push(t).subrange(0, k))
                == depth_after(toks.subrange(0, k)),
{
    assert(toks.push(t).drop_last() =~= toks);
    assert forall|k: int| 0 <= k <= toks.len() implies depth_after(
        #[trigger] toks.push(t).subrange(0, k),
    ) == depth_after(toks.subrange(0, k)) by {
        assert(toks.push(t).subrange(0, k) =~= toks.subrange(0, k));
    }
}

/// The block production: a name, `=>`, the behavior tokens up to the
/// first comma outside braces and parentheses, and the braced field list.
pub open spec fn block_definition_at(
    tokens: Seq<Token>,
    pos: int,
    bd: BlockDefinition,
    end: int,
) -> bool {
    let c = pos + 2 + bd.behavior@.len() as int;
    &&& 0 <= pos
    &&& pos + 1 < tokens.len()
    &&& is_ident(tokens[pos], bd.name@)
    &&& tokens[pos + 1] is FatArrow
    &&& bd.behavior@.len() >= 1
    &&& behavior_tokens_ok(bd.behavior@)
    &&& c + 1 < tokens.len()
    &&& bd.behavior@ == tokens.subrange(pos + 2, c)
    &&& tokens[c] is Comma
    &&& tokens[c + 1] is OpenBrace
    &&& usage_list_at(tokens, c + 2, bd.properties_and_defaults@, end)
}

/// The property section's body: declarations back to back, stopping
/// before a closing brace or the end of the tokens.
pub open spec fn declaration_list_at(
    tokens: Seq<Token>,
    pos: int,
    decls: Seq<PropertyDefinition>,
    end: int,
) -> bool
    decreases decls.len(),
{
    if decls.len() == 0 {
        &&& 0 <= pos <= tokens.len()
        &&& end == pos
        &&& (pos == tokens.len() || tokens[pos] is CloseBrace)
    } else {
        exists|mid: int|
            #[trigger] property_definition_at(tokens, pos, decls[0], mid)
                && declaration_list_at(tokens, mid, decls.skip(1), end)
    }
}

/// The block section's body: blocks separated by commas (a trailing comma
/// allowed), stopping before a closing brace or the end of the tokens.
pub open spec fn block_list_at(
    tokens: Seq<Token>,
    pos: int,
    blocks: Seq<BlockDefinition>,
    end: int,
) -> bool
    decreases blocks.len(),
{
    if blocks.len() == 0 {
        &&& 0 <= pos <= tokens.len()
        &&& end == pos
        &&& (pos == tokens.len() || tokens[pos] is CloseBrace)
    } else {
        exists|mid: int|
            {
                &&& #[trigger] block_definition_at(tokens, pos, blocks[0], mid)
                &&& mid <= tokens.len()
                &&& {
                    ||| (mid < tokens.len() && tokens[mid] is Comma && block_list_at(
                        tokens,
                        mid + 1,
                        blocks.skip(1),
                        end,
                    ))
                    ||| (!(mid < tokens.len() && tokens[mid] is Comma) && block_list_at(
                        tokens,
                        mid,
                        blocks.skip(1),
                        end,
                    ))
                }
            }
    }
}

proof fn lemma_block_list_prepend(
    tokens: Seq<Token>,
    bp: int,
    gb: BlockDefinition,
    q: int,
    pnew: int,
    rest: Seq<BlockDefinition>,
    e: int,
)
    requires
        block_definition_at(tokens, bp, gb, q),
        if q < tokens.len() && tokens[q] is Comma {
            pnew == q + 1
        } else {
            pnew == q
        },
        block_list_at(tokens, pnew, rest, e),
    ensures
        block_list_at(tokens, bp, seq![gb] + rest, e),
{
    let cons = seq![gb] + rest;
    assert(cons[0] == gb);
    assert(cons.skip(1) =~= rest);
    assert(block_list_at(tokens, bp, cons, e));
}

/// The whole two-section production.
pub open spec fn definition_at(
    tokens: Seq<Token>,
    pos: int,
    defs: MakeBlockStates,
    end: int,
) -> bool {
    exists|p1: int, p2: int|
        {
            &&& 0 <= pos
            &&& pos + 2 < tokens.len()
            &&& is_ident(tokens[pos], "Properties"@)
            &&& tokens[pos + 1] is FatArrow
            &&& tokens[pos + 2] is OpenBrace
            &&& #[trigger] declaration_list_at(
                tokens,
                pos + 3,
                defs.property_definitions.declarations@,
                p1,
            )
            &&& p1 + 4 < tokens.len()
            &&& tokens[p1] is CloseBrace
            &&& tokens[p1 + 1] is Comma
            &&& is_ident(tokens[p1 + 2], "Blocks"@)
            &&& tokens[p1 + 3] is FatArrow
            &&& tokens[p1 + 4] is OpenBrace
            &&& #[trigger] block_list_at(tokens, p1 + 5, defs.block_definitions.blocks@, p2)
            &&& p2 < tokens.len()
            &&& tokens[p2] is CloseBrace
            &&& end == p2 + 1
        }
}

fn expect_fat_arrow(tokens: &Vec<Token>, pos: usize) -> (r: Result<usize, ParseError>)
    requires
        pos <= tokens@.len(),
    ensures
        r is Ok <==> pos < tokens@.len() && tokens@[pos as int] is FatArrow,
        r is Ok ==> r->Ok_0 == pos + 1,
{
    if pos < tokens.len() {
        if let Token::FatArrow = &tokens[pos] {
            return Ok(pos + 1);
        }
        return Err(ParseError { position: pos, kind: ParseErrorKind::UnexpectedToken });
    }
    Err(ParseError { position: pos, kind: ParseErrorKind::UnexpectedEnd })
}

fn expect_comma(tokens: &Vec<Token>, pos: usize) -> (r: Result<usize, ParseError>)
    requires
        pos <= tokens@.len(),
    ensures
        r is Ok <==> pos < tokens@.len() && tokens@[pos as int] is Comma,
        r is Ok ==> r->Ok_0 == pos + 1,
{
    if pos < tokens.len() {
        if let Token::Comma = &tokens[pos] {
            return Ok(pos + 1);
        }
        return Err(ParseError { position: pos, kind: ParseErrorKind::UnexpectedToken });
    }
    Err(ParseError { position: pos, kind: ParseErrorKind::UnexpectedEnd })
}

fn expect_open_brace(tokens: &Vec<Token>, pos: usize) -> (r: Result<usize, ParseError>)
    requires
        pos <= tokens@.len(),
    ensures
        r is Ok <==> pos < tokens@.len() && tokens@[pos as int] is OpenBrace,
        r is Ok ==> r->Ok_0 == pos + 1,
{
    if pos < tokens.len() {
        if let Token::OpenBrace = &tokens[pos] {
            return Ok(pos + 1);
        }
        return Err(ParseError { position: pos, kind: ParseErrorKind::UnexpectedToken });
    }
    Err(ParseError { position: pos, kind: ParseErrorKind::UnexpectedEnd })
}

impl PropertyType {
    /// Parses `bool`, or `Axis { X, Y, Z }` (an empty or trailing-comma
    /// variant list is read as written; validity is judged by the
    /// compiler, not here).
    pub fn parse(tokens: &Vec<Token>, pos: usize) -> (r: Result<(PropertyType, usize), ParseError>)
        requires
            pos <= tokens@.len(),
        ensures
            r is Ok ==> pos < r->Ok_0.1 <= tokens@.len(),
            r is Ok ==> property_type_at(tokens@, pos as int, r->Ok_0.0, r->Ok_0.1 as int),
            pos < tokens@.len() && is_ident(tokens@[pos as int], "bool"@) ==> r is Ok
                && r->Ok_0.0 is Boolean,
            (exists|t: PropertyType, end: int|
                property_type_at(tokens@, pos as int, t, end)) ==> r is Ok,
    {
        if pos >= tokens.len() {
            proof {
                assert forall|t: PropertyType, end: int| !property_type_at(
                    tokens@,
                    pos as int,
                    t,
                    end,
                ) by {
                    if property_type_at(tokens@, pos as int, t, end) {
                        assert((pos as int) < tokens@.len());
                    }
                }
            }
            return Err(ParseError { position: pos, kind: ParseErrorKind::UnexpectedEnd });
        }
        let keyword: String = match &tokens[pos] {
            Token::Ident(s) => s.clone(),
            _ => {
                proof {
                    assert forall|t: PropertyType, end: int| !property_type_at(
                        tokens@,
                        pos as int,
                        t,
                        end,
                    ) by {
                        if property_type_at(tokens@, pos as int, t, end) {
                            assert(tokens@[pos as int] is Ident);
                        }
                    }
                }
                return Err(ParseError { position: pos, kind: ParseErrorKind::UnexpectedToken });
            },
        };
        proof {
            assert(is_ident(tokens@[pos as int], keyword@));
        }
        let mut p = pos + 1;
        if is_word(&keyword, "bool") {
            return Ok((PropertyType::Boolean, p));
        }
        let brace = expect_open_brace(tokens, p);
        p = match brace {
            Ok(q) => q,
            Err(e) => {
                proof {
                    assert forall|t: PropertyType, end: int| !property_type_at(
                        tokens@,
                        pos as int,
                        t,
                        end,
                    ) by {
                        if property_type_at(tokens@, pos as int, t, end) {
                            match t {
                                PropertyType::Boolean => {
                                    assert(is_ident(tokens@[pos as int], "bool"@));
                                },
                                PropertyType::Enum { domain_type, variants } => {
                                    assert(pos + 1 < tokens@.len() && tokens@[pos + 1]
                                        is OpenBrace);
                                },
                            }
                        }
                    }
                }
                return Err(e);
            },
        };
        let ghost start = pos + 2;
        let mut variants: Vec<String> = Vec::new();
        proof {
            assert forall|rest: Seq<Seq<char>>, e: int|
                variant_list_at(tokens@, p as int, rest, e) implies variant_list_at(
                tokens@,
                start as int,
                variants@.map_values(|s: String| s@) + rest,
                e,
            ) by {
                assert(variants@.map_values(|s: String| s@) + rest =~= rest);
            }
            if exists|t: PropertyType, end: int| property_type_at(tokens@, pos as int, t, end) {
                lemma_property_type_exists_list(tokens@, pos as int, p as int, keyword@);
            }
        }
        loop
            invariant_except_break
                forall|rest: Seq<Seq<char>>, e: int|
                    variant_list_at(tokens@, p as int, rest, e) ==> variant_list_at(
                        tokens@,
                        start as int,
                        variants@.map_values(|s: String| s@) + rest,
                        e,
                    ),
                (exists|t: PropertyType, end: int|
                    property_type_at(tokens@, pos as int, t, end)) ==> (exists|
                    vs: Seq<Seq<char>>,
                    e: int,
                |
                    variant_list_at(tokens@, p as int, vs, e)),
            invariant
                pos + 2 <= p <= tokens@.len(),
                start == pos + 2,
                is_ident(tokens@[pos as int], keyword@),
                keyword@ != "bool"@,
                tokens@[pos + 1] is OpenBrace,
            ensures
                pos + 2 < p <= tokens@.len(),
                variant_list_at(
                    tokens@,
                    start as int,
                    variants@.map_values(|s: String| s@),
                    p as int,
                ),
            decreases tokens@.len() - p,
        {
            let ghost old_map = variants@.map_values(|s: String| s@);
            let ghost vp = p as int;
            if p >= tokens.len() {
                proof {
                    if exists|vs: Seq<Seq<char>>, e: int| variant_list_at(tokens@, vp, vs, e) {
                        let (vs, e) = choose|vs: Seq<Seq<char>>, e: int|
                            variant_list_at(tokens@, vp, vs, e);
                        assert(vp < tokens@.len());
                    }
                }
                return Err(ParseError { position: p, kind: ParseErrorKind::UnexpectedEnd });
            }
            if let Token::CloseBrace = &tokens[p] {
                proof {
                    assert(variant_list_at(tokens@, vp, Seq::<Seq<char>>::empty(), vp + 1));
                    assert(old_map + Seq::<Seq<char>>::empty() =~= old_map);
                }
                p = p + 1;
                break;
            }
            let variant: String = match &tokens[p] {
                Token::Ident(s) => s.clone(),
                _ => {
                    proof {
                        if exists|vs: Seq<Seq<char>>, e: int| variant_list_at(
                            tokens@,
                            vp,
                            vs,
                            e,
                        ) {
                            let (vs, e) = choose|vs: Seq<Seq<char>>, e: int|
                                variant_list_at(tokens@, vp, vs, e);
                            if vs.len() == 0 {
                                assert(tokens@[vp] is CloseBrace);
                            } else {
                                assert(tokens@[vp] is Ident);
                            }
                        }
                    }
                    return Err(
                        ParseError { position: p, kind: ParseErrorKind::UnexpectedToken },
                    );
                },
            };
            let ghost vview = variant@;
            variants.push(variant);
            p = p + 1;
            if p >= tokens.len() {
                proof {
                    if exists|vs: Seq<Seq<char>>, e: int| variant_list_at(tokens@, vp, vs, e) {
                        let (vs, e) = choose|vs: Seq<Seq<char>>, e: int|
                            variant_list_at(tokens@, vp, vs, e);
                        assert(vs.len() != 0);
                        assert(vp + 1 < tokens@.len());
                    }
                }
                return Err(ParseError { position: p, kind: ParseErrorKind::UnexpectedEnd });
            }
            proof {
                assert(variants@.map_values(|s: String| s@) =~= old_map.push(vview));
            }
            match &tokens[p] {
                Token::Comma => {
                    p = p + 1;
                    proof {
                        assert forall|rest: Seq<Seq<char>>, e: int|
                            variant_list_at(tokens@, p as int, rest, e) implies variant_list_at(
                            tokens@,
                            start as int,
                            variants@.map_values(|s: String| s@) + rest,
                            e,
                        ) by {
                            let cons = seq![vview] + rest;
                            assert(cons[0] == vview);
                            assert(cons.skip(1) =~= rest);
                            assert(variant_list_at(tokens@, vp, cons, e));
                            assert(old_map + cons =~= old_map.push(vview) + rest);
                        }
                        if exists|vs: Seq<Seq<char>>, e: int| variant_list_at(
                            tokens@,
                            vp,
                            vs,
                            e,
                        ) {
                            let (vs, e) = choose|vs: Seq<Seq<char>>, e: int|
                                variant_list_at(tokens@, vp, vs, e);
                            assert(vs.len() != 0);
                            assert(variant_list_at(tokens@, vp + 2, vs.skip(1), e));
                        }
                    }
                },
                Token::CloseBrace => {
                    p = p + 1;
                    proof {
                        let single = seq![vview];
                        assert(single[0] == vview);
                        assert(variant_list_at(tokens@, vp, single, vp + 2));
                        assert(old_map + single =~= old_map.push(vview));
                    }
                    break;
                },
                _ => {
                    proof {
                        if exists|vs: Seq<Seq<char>>, e: int| variant_list_at(
                            tokens@,
                            vp,
                            vs,
                            e,
                        ) {
                            let (vs, e) = choose|vs: Seq<Seq<char>>, e: int|
                                variant_list_at(tokens@, vp, vs, e);
                            assert(vs.len() != 0);
                            assert(tokens@[vp + 1] is Comma || tokens@[vp + 1] is CloseBrace);
                        }
                    }
                    return Err(
                        ParseError { position: p, kind: ParseErrorKind::UnexpectedToken },
                    );
                },
            }
        }
        Ok((PropertyType::Enum { domain_type: keyword, variants }, p))
    }
}

impl PropertyDefinition {
    /// Parses one declaration: `"face" => Face { Floor, Wall, Ceiling },`
    /// (the name stands in quotes, and the comma after the domain is
    /// required).
    pub fn parse(tokens: &Vec<Token>, pos: usize) -> (r: Result<
        (PropertyDefinition, usize),
        ParseError,
    >)
        requires
            pos <= tokens@.len(),
        ensures
            r is Ok ==> pos < r->Ok_0.1 <= tokens@.len(),
            r is Ok ==> property_definition_at(
                tokens@,
                pos as int,
                r->Ok_0.0,
                r->Ok_0.1 as int,
            ),
            (exists|d: PropertyDefinition, end: int|
                property_definition_at(tokens@, pos as int, d, end)) ==> r is Ok,
    {
        if pos >= tokens.len() {
            proof {
                assert forall|d: PropertyDefinition, end: int| !property_definition_at(
                    tokens@,
                    pos as int,
                    d,
                    end,
                ) by {
                    if property_definition_at(tokens@, pos as int, d, end) {
                        assert(pos + 1 < tokens@.len());
                    }
                }
            }
            return Err(ParseError { position: pos, kind: ParseErrorKind::UnexpectedEnd });
        }
        let name: String = match &tokens[pos] {
            Token::StrLit(s) => s.clone(),
            _ => {
                proof {
                    assert forall|d: PropertyDefinition, end: int| !property_definition_at(
                        tokens@,
                        pos as int,
                        d,
                        end,
                    ) by {
                        if property_definition_at(tokens@, pos as int, d, end) {
                            assert(tokens@[pos as int] is StrLit);
                        }
                    }
                }
                return Err(ParseError { position: pos, kind: ParseErrorKind::UnexpectedToken });
            },
        };
        let p1 = match expect_fat_arrow(tokens, pos + 1) {
            Ok(q) => q,
            Err(e) => {
                proof {
                    assert forall|d: PropertyDefinition, end: int| !property_definition_at(
                        tokens@,
                        pos as int,
                        d,
                        end,
                    ) by {
                        if property_definition_at(tokens@, pos as int, d, end) {
                            assert(pos + 1 < tokens@.len() && tokens@[pos + 1] is FatArrow);
                        }
                    }
                }
                return Err(e);
            },
        };
        let (property_type, p2) = match PropertyType::parse(tokens, p1) {
            Ok(t) => t,
            Err(e) => {
                proof {
                    if exists|d: PropertyDefinition, end: int| property_definition_at(
                        tokens@,
                        pos as int,
                        d,
                        end,
                    ) {
                        let (d, end) = choose|d: PropertyDefinition, end: int|
                            property_definition_at(tokens@, pos as int, d, end);
                        let mid = choose|mid: int|
                            {
                                &&& property_type_at(tokens@, pos + 2, d.property_type, mid)
                                &&& mid < tokens@.len()
                                &&& #[trigger] tokens@[mid] is Comma
                                &&& end == mid + 1
                            };
                        assert(property_type_at(tokens@, p1 as int, d.property_type, mid));
                        assert(false);
                    }
                }
                return Err(e);
            },
        };
        let p3 = match expect_comma(tokens, p2) {
            Ok(q) => q,
            Err(e) => {
                proof {
                    if exists|d: PropertyDefinition, end: int| property_definition_at(
                        tokens@,
                        pos as int,
                        d,
                        end,
                    ) {
                        let (d, end) = choose|d: PropertyDefinition, end: int|
                            property_definition_at(tokens@, pos as int, d, end);
                        let mid = choose|mid: int|
                            {
                                &&& property_type_at(tokens@, pos + 2, d.property_type, mid)
                                &&& mid < tokens@.len()
                                &&& #[trigger] tokens@[mid] is Comma
                                &&& end == mid + 1
                            };
                        lemma_property_type_end_det(
                            tokens@,
                            p1 as int,
                            d.property_type,
                            mid,
                            property_type,
                            p2 as int,
                        );
                        assert(tokens@[p2 as int] is Comma);
                        assert(false);
                    }
                }
                return Err(e);
            },
        };
        proof {
            let d = PropertyDefinition { name, property_type };
            assert(property_type_at(tokens@, pos + 2, d.property_type, p2 as int));
            assert(property_definition_at(tokens@, pos as int, d, p3 as int));
        }
        Ok((PropertyDefinition { name, property_type }, p3))
    }
}

impl PropertyDefinitions {
    /// Parses declarations until the section's closing brace.
    #[verifier::rlimit(80)]
    pub fn parse(tokens: &Vec<Token>, pos: usize) -> (r: Result<
        (PropertyDefinitions, usize),
        ParseError,
    >)
        requires
            pos <= tokens@.len(),
        ensures
            r is Ok ==> pos <= r->Ok_0.1 <= tokens@.len(),
            r is Ok ==> declaration_list_at(
                tokens@,
                pos as int,
                r->Ok_0.0.declarations@,
                r->Ok_0.1 as int,
            ),
            pos == tokens@.len() || (pos < tokens@.len() && tokens@[pos as int] is CloseBrace)
                ==> r is Ok && r->Ok_0.1 == pos && r->Ok_0.0.declarations@.len() == 0,
            (exists|ds: Seq<PropertyDefinition>, e: int|
                declaration_list_at(tokens@, pos as int, ds, e)) ==> r is Ok,
    {
        let mut declarations: Vec<PropertyDefinition> = Vec::new();
        let mut p = pos;
        proof {
            assert forall|rest: Seq<PropertyDefinition>, e: int|
                declaration_list_at(tokens@, p as int, rest, e) implies declaration_list_at(
                tokens@,
                pos as int,
                declarations@ + rest,
                e,
            ) by {
                assert(declarations@ + rest =~= rest);
            }
        }
        loop
            invariant_except_break
                forall|rest: Seq<PropertyDefinition>, e: int|
                    declaration_list_at(tokens@, p as int, rest, e) ==> declaration_list_at(
                        tokens@,
                        pos as int,
                        declarations@ + rest,
                        e,
                    ),
                (exists|ds: Seq<PropertyDefinition>, e: int|
                    declaration_list_at(tokens@, pos as int, ds, e)) ==> (exists|
                    ds: Seq<PropertyDefinition>,
                    e: int,
                |
                    declaration_list_at(tokens@, p as int, ds, e)),
            invariant
                pos <= p <= tokens@.len(),
                (pos == tokens@.len() || (pos < tokens@.len() && tokens@[pos as int]
                    is CloseBrace)) ==> p == pos,
            ensures
                pos <= p <= tokens@.len(),
                declaration_list_at(tokens@, pos as int, declarations@, p as int),
            decreases tokens@.len() - p,
        {
            let ghost old_list = declarations@;
            let ghost dp = p as int;
            if p >= tokens.len() {
                proof {
                    assert(declaration_list_at(tokens@, dp, Seq::<PropertyDefinition>::empty(), dp));
                    assert(old_list + Seq::<PropertyDefinition>::empty() =~= old_list);
                }
                break;
            }
            if let Token::CloseBrace = &tokens[p] {
                proof {
                    assert(declaration_list_at(tokens@, dp, Seq::<PropertyDefinition>::empty(), dp));
                    assert(old_list + Seq::<PropertyDefinition>::empty() =~= old_list);
                }
                break;
            }
            let (decl, q) = match PropertyDefinition::parse(tokens, p) {
                Ok(t) => t,
                Err(e) => {
                    proof {
                        if exists|ds: Seq<PropertyDefinition>, e2: int| declaration_list_at(
                            tokens@,
                            dp,
                            ds,
                            e2,
                        ) {
                            let (ds, e2) = choose|ds: Seq<PropertyDefinition>, e2: int|
                                declaration_list_at(tokens@, dp, ds, e2);
                            assert(ds.len() != 0);
                            let mid = choose|mid: int|
                                #[trigger] property_definition_at(tokens@, dp, ds[0], mid)
                                    && declaration_list_at(tokens@, mid, ds.skip(1), e2);
                            assert(property_definition_at(tokens@, p as int, ds[0], mid));
                            assert(false);
                        }
                    }
                    return Err(e);
                },
            };
            let ghost gd = decl;
            declarations.push(decl);
            p = q;
            proof {
                if exists|ds: Seq<PropertyDefinition>, e2: int| declaration_list_at(
                    tokens@,
                    dp,
                    ds,
                    e2,
                ) {
                    let (ds, e2) = choose|ds: Seq<PropertyDefinition>, e2: int|
                        declaration_list_at(tokens@, dp, ds, e2);
                    assert(ds.len() != 0);
                    let mid = choose|mid: int|
                        #[trigger] property_definition_at(tokens@, dp, ds[0], mid)
                            && declaration_list_at(tokens@, mid, ds.skip(1), e2);
                    lemma_property_definition_end_det(tokens@, dp, ds[0], mid, gd, q as int);
                    assert(declaration_list_at(tokens@, p as int, ds.skip(1), e2));
                }
            }
            proof {
                assert(declarations@ =~= old_list.push(gd));
                assert forall|rest: Seq<PropertyDefinition>, e: int|
                    declaration_list_at(tokens@, p as int, rest, e) implies declaration_list_at(
                    tokens@,
                    pos as int,
                    declarations@ + rest,
                    e,
                ) by {
                    let cons = seq![gd] + rest;
                    assert(cons[0] == gd);
                    assert(cons.skip(1) =~= rest);
                    assert(declaration_list_at(tokens@, dp, cons, e));
                    assert(old_list + cons =~= old_list.push(gd) + rest);
                }
            }
        }
        Ok((PropertyDefinitions { declarations }, p))
    }
}

impl PropertyWithNameAndDefault {
    /// Parses one field usage: `snowy: false` or `axis: Axis::Y`. A
    /// default that is neither a boolean literal nor `Domain::Variant` is
    /// a fatal error.
    pub fn parse(tokens: &Vec<Token>, pos: usize) -> (r: Result<
        (PropertyWithNameAndDefault, usize),
        ParseError,
    >)
        requires
            pos <= tokens@.len(),
        ensures
            r is Ok ==> pos < r->Ok_0.1 <= tokens@.len(),
            r is Ok ==> usage_at(tokens@, pos as int, r->Ok_0.0, r->Ok_0.1 as int),
            forall|u: PropertyWithNameAndDefault, end: int|
                usage_at(tokens@, pos as int, u, end) ==> r is Ok,
    {
        if pos >= tokens.len() {
            proof {
                assert forall|u: PropertyWithNameAndDefault, end: int| !usage_at(
                    tokens@,
                    pos as int,
                    u,
                    end,
                ) by {
                    if usage_at(tokens@, pos as int, u, end) {
                        assert(end >= pos + 3 && end <= tokens@.len());
                    }
                }
            }
            return Err(ParseError { position: pos, kind: ParseErrorKind::UnexpectedEnd });
        }
        let name: String = match &tokens[pos] {
            Token::Ident(s) => s.clone(),
            _ => {
                proof {
                    assert forall|u: PropertyWithNameAndDefault, end: int| !usage_at(
                        tokens@,
                        pos as int,
                        u,
                        end,
                    ) by {
                        if usage_at(tokens@, pos as int, u, end) {
                            assert(is_ident(tokens@[pos as int], u.name@));
                        }
                    }
                }
                return Err(ParseError { position: pos, kind: ParseErrorKind::UnexpectedToken });
            },
        };
        let mut p = pos + 1;
        if p >= tokens.len() {
            proof {
                assert forall|u: PropertyWithNameAndDefault, end: int| !usage_at(
                    tokens@,
                    pos as int,
                    u,
                    end,
                ) by {
                    if usage_at(tokens@, pos as int, u, end) {
                        assert(end >= pos + 3 && end <= tokens@.len());
                    }
                }
            }
            return Err(ParseError { position: p, kind: ParseErrorKind::UnexpectedEnd });
        }
        match &tokens[p] {
            Token::Colon => {},
            _ => {
                proof {
                    assert forall|u: PropertyWithNameAndDefault, end: int| !usage_at(
                        tokens@,
                        pos as int,
                        u,
                        end,
                    ) by {
                        if usage_at(tokens@, pos as int, u, end) {
                            assert(tokens@[pos + 1] is Colon);
                        }
                    }
                }
                return Err(ParseError { position: p, kind: ParseErrorKind::UnexpectedToken });
            },
        }
        p = p + 1;
        if p >= tokens.len() {
            proof {
                assert forall|u: PropertyWithNameAndDefault, end: int| !usage_at(
                    tokens@,
                    pos as int,
                    u,
                    end,
                ) by {
                    if usage_at(tokens@, pos as int, u, end) {
                        assert(end >= pos + 3 && end <= tokens@.len());
                    }
                }
            }
            return Err(ParseError { position: p, kind: ParseErrorKind::UnexpectedEnd });
        }
        let first: String = match &tokens[p] {
            Token::Ident(s) => s.clone(),
            _ => {
                proof {
                    assert forall|u: PropertyWithNameAndDefault, end: int| !usage_at(
                        tokens@,
                        pos as int,
                        u,
                        end,
                    ) by {
                        if usage_at(tokens@, pos as int, u, end) {
                            assert(tokens@[pos + 2] is Ident);
                        }
                    }
                }
                return Err(
                    ParseError { position: p, kind: ParseErrorKind::ExpectedBooleanOrVariant },
                );
            },
        };
        p = p + 1;
        if p < tokens.len() {
            if let Token::PathSep = &tokens[p] {
                p = p + 1;
                if p >= tokens.len() {
                    proof {
                        assert forall|u: PropertyWithNameAndDefault, end: int| !usage_at(
                            tokens@,
                            pos as int,
                            u,
                            end,
                        ) by {
                            if usage_at(tokens@, pos as int, u, end) {
                                assert(!(u.default is Bool));
                                assert(end == pos + 5 && end <= tokens@.len());
                            }
                        }
                    }
                    return Err(ParseError { position: p, kind: ParseErrorKind::UnexpectedEnd });
                }
                let variant: String = match &tokens[p] {
                    Token::Ident(s) => s.clone(),
                    _ => {
                        proof {
                            assert forall|u: PropertyWithNameAndDefault, end: int| !usage_at(
                                tokens@,
                                pos as int,
                                u,
                                end,
                            ) by {
                                if usage_at(tokens@, pos as int, u, end) {
                                    assert(!(u.default is Bool));
                                    assert(tokens@[pos + 4] is Ident);
                                }
                            }
                        }
                        return Err(
                            ParseError { position: p, kind: ParseErrorKind::UnexpectedToken },
                        );
                    },
                };
                return Ok(
                    (
                        PropertyWithNameAndDefault {
                            name,
                            default: PropertyValue::Enum { domain_type: first, variant },
                        },
                        p + 1,
                    ),
                );
            }
        }
        if is_word(&first, "true") {
            return Ok(
                (PropertyWithNameAndDefault { name, default: PropertyValue::Bool(true) }, p),
            );
        }
        if is_word(&first, "false") {
            return Ok(
                (PropertyWithNameAndDefault { name, default: PropertyValue::Bool(false) }, p),
            );
        }
        proof {
            assert forall|u: PropertyWithNameAndDefault, end: int| !usage_at(
                tokens@,
                pos as int,
                u,
                end,
            ) by {
                if usage_at(tokens@, pos as int, u, end) {
                    if u.default is Bool {
                        assert(is_ident(tokens@[pos + 2], "true"@) || is_ident(
                            tokens@[pos + 2],
                            "false"@,
                        ));
                    } else {
                        assert(end == pos + 5 && end <= tokens@.len());
                        assert(tokens@[pos + 3] is PathSep);
                    }
                }
            }
        }
        Err(ParseError { position: pos, kind: ParseErrorKind::ExpectedBooleanOrVariant })
    }
}

impl BlockDefinition {
    /// Parses one block definition:
    ///
    /// ```text
    /// acacia_button => BlockBehavior::default(), {
    ///     facing: Facing::North,
    /// }
    /// ```
    ///
    /// The behavior expression is every token up to the comma that
    /// follows it (commas inside braces or parentheses belong to the
    /// expression); it is kept unexamined.
    pub fn parse(tokens: &Vec<Token>, pos: usize) -> (r: Result<
        (BlockDefinition, usize),
        ParseError,
    >)
        requires
            pos <= tokens@.len(),
        ensures
            r is Ok ==> pos < r->Ok_0.1 <= tokens@.len(),
            r is Ok ==> block_definition_at(tokens@, pos as int, r->Ok_0.0, r->Ok_0.1 as int),
            (exists|bd: BlockDefinition, end: int|
                block_definition_at(tokens@, pos as int, bd, end)) ==> r is Ok,
    {
        let ghost simple = pos + 5 < tokens@.len() && tokens@[pos as int] is Ident
            && tokens@[pos + 1] is FatArrow && tokens@[pos + 2] is Ident && tokens@[pos + 3]
            is Comma && tokens@[pos + 4] is OpenBrace && tokens@[pos + 5] is CloseBrace;
        if pos >= tokens.len() {
            proof {
                assert forall|bd: BlockDefinition, end: int| !block_definition_at(
                    tokens@,
                    pos as int,
                    bd,
                    end,
                ) by {
                    if block_definition_at(tokens@, pos as int, bd, end) {
                        assert(pos + 1 < tokens@.len());
                    }
                }
            }
            return Err(ParseError { position: pos, kind: ParseErrorKind::UnexpectedEnd });
        }
        let name: String = match &tokens[pos] {
            Token::Ident(s) => s.clone(),
            _ => {
                proof {
                    assert forall|bd: BlockDefinition, end: int| !block_definition_at(
                        tokens@,
                        pos as int,
                        bd,
                        end,
                    ) by {
                        if block_definition_at(tokens@, pos as int, bd, end) {
                            assert(tokens@[pos as int] is Ident);
                        }
                    }
                }
                return Err(ParseError { position: pos, kind: ParseErrorKind::UnexpectedToken });
            },
        };
        let mut p = match expect_fat_arrow(tokens, pos + 1) {
            Ok(q) => q,
            Err(e) => {
                proof {
                    assert forall|bd: BlockDefinition, end: int| !block_definition_at(
                        tokens@,
                        pos as int,
                        bd,
                        end,
                    ) by {
                        if block_definition_at(tokens@, pos as int, bd, end) {
                            assert(tokens@[pos + 1] is FatArrow);
                        }
                    }
                }
                return Err(e);
            },
        };
        let mut behavior: Vec<Token> = Vec::new();
        let mut depth: usize = 0;
        loop
            invariant
                pos + 2 <= p <= tokens@.len(),
                depth <= p,
                behavior@ == tokens@.subrange(pos + 2, p as int),
                depth as int == depth_after(behavior@),
                forall|k: int|
                    0 <= k <= behavior@.len() ==> depth_after(
                        #[trigger] behavior@.subrange(0, k),
                    ) >= 0,
                forall|k: int|
                    0 <= k < behavior@.len() ==> ((#[trigger] behavior@[k]) is Comma
                        ==> depth_after(behavior@.subrange(0, k)) > 0),
                forall|bd: BlockDefinition, e: int|
                    #[trigger] block_definition_at(tokens@, pos as int, bd, e) ==> p as int
                        <= pos + 2 + bd.behavior@.len(),
                simple == (pos + 5 < tokens@.len() && tokens@[pos as int] is Ident
                    && tokens@[pos + 1] is FatArrow && tokens@[pos + 2] is Ident
                    && tokens@[pos + 3] is Comma && tokens@[pos + 4] is OpenBrace
                    && tokens@[pos + 5] is CloseBrace),
                simple ==> (p == pos + 2 || p == pos + 3) && depth == 0,
            ensures
                pos + 2 <= p < tokens@.len(),
                behavior@ == tokens@.subrange(pos + 2, p as int),
                tokens@[p as int] is Comma,
                behavior_tokens_ok(behavior@),
                forall|bd: BlockDefinition, e: int|
                    #[trigger] block_definition_at(tokens@, pos as int, bd, e) ==> p as int
                        == pos + 2 + bd.behavior@.len(),
                simple ==> p == pos + 3,
            decreases tokens@.len() - p,
        {
            let ghost ob = behavior@;
            let ghost bp = p as int;
            proof {
                assert forall|bd: BlockDefinition, e: int|
                    #[trigger] block_definition_at(tokens@, pos as int, bd, e) && bp < pos + 2
                        + bd.behavior@.len() implies {
                    &&& bp < tokens@.len()
                    &&& bd.behavior@[bp - pos - 2] == tokens@[bp]
                    &&& depth_after(bd.behavior@.subrange(0, bp - pos - 2)) == depth as int
                } by {
                    let k = bp - pos - 2;
                    let c = pos + 2 + bd.behavior@.len() as int;
                    assert(bd.behavior@[k] == tokens@[bp]);
                    assert(bd.behavior@.subrange(0, k) =~= tokens@.subrange(pos + 2, bp));
                    assert(bd.behavior@.subrange(0, k) == behavior@);
                }
                assert forall|bd: BlockDefinition, e: int|
                    #[trigger] block_definition_at(tokens@, pos as int, bd, e) && bp == pos + 2
                        + bd.behavior@.len() implies tokens@[bp] is Comma
                    && depth as int == 0 by {
                    assert(bd.behavior@ =~= tokens@.subrange(pos + 2, bp));
                    assert(bd.behavior@ == behavior@);
                    assert(depth_after(bd.behavior@) == 0);
                }
            }
            if p >= tokens.len() {
                proof {
                    assert forall|bd: BlockDefinition, e: int| !block_definition_at(
                        tokens@,
                        pos as int,
                        bd,
                        e,
                    ) by {
                        if block_definition_at(tokens@, pos as int, bd, e) {
                            assert(pos + 2 + bd.behavior@.len() + 1 < tokens@.len());
                        }
                    }
                }
                return Err(ParseError { position: p, kind: ParseErrorKind::UnexpectedEnd });
            }
            match &tokens[p] {
                Token::Comma => {
                    if depth == 0 {
                        proof {
                            assert forall|bd: BlockDefinition, e: int|
                                #[trigger] block_definition_at(tokens@, pos as int, bd, e)
                                    implies bp == pos + 2 + bd.behavior@.len() by {
                                let k = bp - pos - 2;
                                if bp < pos + 2 + bd.behavior@.len() {
                                    assert(bd.behavior@[k] is Comma);
                                    assert(depth_after(bd.behavior@.subrange(0, k)) > 0);
                                }
                            }
                        }
                        break;
                    }
                    behavior.push(Token::Comma);
                    p = p + 1;
                    proof {
                        assert(behavior@ =~= tokens@.subrange(pos + 2, p as int));
                        assert(behavior@ =~= ob.push(Token::Comma));
                        lemma_depth_push(ob, Token::Comma);
                        assert(ob.subrange(0, ob.len() as int) =~= ob);
                        assert(behavior@.subrange(0, behavior@.len() as int) =~= behavior@);
                        assert(behavior@.subrange(0, ob.len() as int) =~= ob);
                    }
                },
                Token::OpenBrace => {
                    depth = depth + 1;
                    behavior.push(Token::OpenBrace);
                    p = p + 1;
                    proof {
                        assert(behavior@ =~= tokens@.subrange(pos + 2, p as int));
                        assert(behavior@ =~= ob.push(Token::OpenBrace));
                        lemma_depth_push(ob, Token::OpenBrace);
                        assert(ob.subrange(0, ob.len() as int) =~= ob);
                        assert(behavior@.subrange(0, behavior@.len() as int) =~= behavior@);
                        assert(behavior@.subrange(0, ob.len() as int) =~= ob);
                    }
                },
                Token::OpenParen => {
                    depth = depth + 1;
                    behavior.push(Token::OpenParen);
                    p = p + 1;
                    proof {
                        assert(behavior@ =~= tokens@.subrange(pos + 2, p as int));
                        assert(behavior@ =~= ob.push(Token::OpenParen));
                        lemma_depth_push(ob, Token::OpenParen);
                        assert(ob.subrange(0, ob.len() as int) =~= ob);
                        assert(behavior@.subrange(0, behavior@.len() as int) =~= behavior@);
                        assert(behavior@.subrange(0, ob.len() as int) =~= ob);
                    }
                },
                Token::CloseBrace => {
                    if depth == 0 {
                        proof {
                            assert forall|bd: BlockDefinition, e: int| !block_definition_at(
                                tokens@,
                                pos as int,
                                bd,
                                e,
                            ) by {
                                if block_definition_at(tokens@, pos as int, bd, e) {
                                    let k = bp - pos - 2;
                                    if bp == pos + 2 + bd.behavior@.len() {
                                        assert(tokens@[bp] is Comma);
                                    } else {
                                        assert(bd.behavior@.subrange(0, k + 1)
                                            =~= bd.behavior@.subrange(0, k).push(
                                            bd.behavior@[k],
                                        ));
                                        lemma_depth_push(
                                            bd.behavior@.subrange(0, k),
                                            bd.behavior@[k],
                                        );
                                        assert(depth_after(bd.behavior@.subrange(0, k + 1))
                                            >= 0);
                                        assert(bd.behavior@[k] is CloseBrace);
                                        assert(false);
                                    }
                                }
                            }
                        }
                        return Err(
                            ParseError { position: p, kind: ParseErrorKind::UnexpectedToken },
                        );
                    }
                    depth = depth - 1;
                    behavior.push(Token::CloseBrace);
                    p = p + 1;
                    proof {
                        assert(behavior@ =~= tokens@.subrange(pos + 2, p as int));
                        assert(behavior@ =~= ob.push(Token::CloseBrace));
                        lemma_depth_push(ob, Token::CloseBrace);
                        assert(ob.subrange(0, ob.len() as int) =~= ob);
                        assert(behavior@.subrange(0, behavior@.len() as int) =~= behavior@);
                        assert(behavior@.subrange(0, ob.len() as int) =~= ob);
                    }
                },
                Token::CloseParen => {
                    if depth == 0 {
                        proof {
                            assert forall|bd: BlockDefinition, e: int| !block_definition_at(
                                tokens@,
                                pos as int,
                                bd,
                                e,
                            ) by {
                                if block_definition_at(tokens@, pos as int, bd, e) {
                                    let k = bp - pos - 2;
                                    if bp == pos + 2 + bd.behavior@.len() {
                                        assert(tokens@[bp] is Comma);
                                    } else {
                                        assert(bd.behavior@.subrange(0, k + 1)
                                            =~= bd.behavior@.subrange(0, k).push(
                                            bd.behavior@[k],
                                        ));
                                        lemma_depth_push(
                                            bd.behavior@.subrange(0, k),
                                            bd.behavior@[k],
                                        );
                                        assert(depth_after(bd.behavior@.subrange(0, k + 1))
                                            >= 0);
                                        assert(bd.behavior@[k] is CloseParen);
                                        assert(false);
                                    }
                                }
                            }
                        }
                        return Err(
                            ParseError { position: p, kind: ParseErrorKind::UnexpectedToken },
                        );
                    }
                    depth = depth - 1;
                    behavior.push(Token::CloseParen);
                    p = p + 1;
                    proof {
                        assert(behavior@ =~= tokens@.subrange(pos + 2, p as int));
                        assert(behavior@ =~= ob.push(Token::CloseParen));
                        lemma_depth_push(ob, Token::CloseParen);
                        assert(ob.subrange(0, ob.len() as int) =~= ob);
                        assert(behavior@.subrange(0, behavior@.len() as int) =~= behavior@);
                        assert(behavior@.subrange(0, ob.len() as int) =~= ob);
                    }
                },
                t => {
                    let pushed = clone_token(t);
                    let ghost gt = pushed;
                    behavior.push(pushed);
                    p = p + 1;
                    proof {
                        assert(behavior@ =~= tokens@.subrange(pos + 2, p as int));
                        assert(behavior@ =~= ob.push(gt));
                        lemma_depth_push(ob, gt);
                        assert(token_depth_delta(gt) == 0);
                        assert(ob.subrange(0, ob.len() as int) =~= ob);
                        assert(behavior@.subrange(0, behavior@.len() as int) =~= behavior@);
                        assert(behavior@.subrange(0, ob.len() as int) =~= ob);
                    }
                },
            }
        }
        if behavior.len() == 0 {
            proof {
                assert forall|bd: BlockDefinition, e: int| !block_definition_at(
                    tokens@,
                    pos as int,
                    bd,
                    e,
                ) by {
                    if block_definition_at(tokens@, pos as int, bd, e) {
                        assert(p as int == pos + 2 + bd.behavior@.len());
                        assert(bd.behavior@.len() >= 1);
                    }
                }
            }
            return Err(ParseError { position: p, kind: ParseErrorKind::UnexpectedToken });
        }
        let ghost gc = p as int;
        p = match expect_comma(tokens, p) {
            Ok(q) => q,
            Err(e) => {
                return Err(e);
            },
        };
        p = match expect_open_brace(tokens, p) {
            Ok(q) => q,
            Err(e) => {
                proof {
                    assert forall|bd: BlockDefinition, e2: int| !block_definition_at(
                        tokens@,
                        pos as int,
                        bd,
                        e2,
                    ) by {
                        if block_definition_at(tokens@, pos as int, bd, e2) {
                            assert(gc == pos + 2 + bd.behavior@.len());
                            assert(tokens@[gc + 1] is OpenBrace);
                        }
                    }
                }
                return Err(e);
            },
        };
        let ghost ustart = p as int;
        let mut properties_and_defaults: Vec<PropertyWithNameAndDefault> = Vec::new();
        proof {
            assert forall|rest: Seq<PropertyWithNameAndDefault>, e: int|
                usage_list_at(tokens@, p as int, rest, e) implies usage_list_at(
                tokens@,
                ustart,
                properties_and_defaults@ + rest,
                e,
            ) by {
                assert(properties_and_defaults@ + rest =~= rest);
            }
            if exists|bd: BlockDefinition, e: int| block_definition_at(
                tokens@,
                pos as int,
                bd,
                e,
            ) {
                let (bd, e) = choose|bd: BlockDefinition, e: int|
                    block_definition_at(tokens@, pos as int, bd, e);
                assert(gc == pos + 2 + bd.behavior@.len());
                assert(usage_list_at(tokens@, ustart, bd.properties_and_defaults@, e));
            }
        }
        loop
            invariant_except_break
                forall|rest: Seq<PropertyWithNameAndDefault>, e: int|
                    usage_list_at(tokens@, p as int, rest, e) ==> usage_list_at(
                        tokens@,
                        ustart,
                        properties_and_defaults@ + rest,
                        e,
                    ),
                (exists|us: Seq<PropertyWithNameAndDefault>, e2: int|
                    usage_list_at(tokens@, ustart, us, e2)) ==> (exists|
                    us: Seq<PropertyWithNameAndDefault>,
                    e2: int,
                |
                    usage_list_at(tokens@, p as int, us, e2)),
                simple ==> p == pos + 5 && ustart == pos + 5,
            invariant
                ustart <= p <= tokens@.len(),
                (exists|bd: BlockDefinition, e: int|
                    block_definition_at(tokens@, pos as int, bd, e)) ==> (exists|
                    us: Seq<PropertyWithNameAndDefault>,
                    e2: int,
                |
                    usage_list_at(tokens@, ustart, us, e2)),
                simple == (pos + 5 < tokens@.len() && tokens@[pos as int] is Ident
                    && tokens@[pos + 1] is FatArrow && tokens@[pos + 2] is Ident
                    && tokens@[pos + 3] is Comma && tokens@[pos + 4] is OpenBrace
                    && tokens@[pos + 5] is CloseBrace),
            ensures
                ustart < p <= tokens@.len(),
                usage_list_at(tokens@, ustart, properties_and_defaults@, p as int),
            decreases tokens@.len() - p,
        {
            let ghost old_list = properties_and_defaults@;
            let ghost up = p as int;
            if p >= tokens.len() {
                proof {
                    if exists|us: Seq<PropertyWithNameAndDefault>, e2: int| usage_list_at(
                        tokens@,
                        up,
                        us,
                        e2,
                    ) {
                        let (us, e2) = choose|us: Seq<PropertyWithNameAndDefault>, e2: int|
                            usage_list_at(tokens@, up, us, e2);
                        if us.len() != 0 {
                            let mid = choose|mid: int|
                                {
                                    &&& #[trigger] usage_at(tokens@, up, us[0], mid)
                                    &&& mid < tokens@.len()
                                    &&& {
                                        ||| (tokens@[mid] is Comma && usage_list_at(
                                            tokens@,
                                            mid + 1,
                                            us.skip(1),
                                            e2,
                                        ))
                                        ||| (tokens@[mid] is CloseBrace && us.len() == 1
                                            && e2 == mid + 1)
                                    }
                                };
                            assert(mid <= tokens@.len());
                        }
                        assert(false);
                    }
                }
                return Err(ParseError { position: p, kind: ParseErrorKind::UnexpectedEnd });
            }
            if let Token::CloseBrace = &tokens[p] {
                proof {
                    assert(usage_list_at(
                        tokens@,
                        up,
                        Seq::<PropertyWithNameAndDefault>::empty(),
                        up + 1,
                    ));
                    assert(old_list + Seq::<PropertyWithNameAndDefault>::empty() =~= old_list);
                }
                p = p + 1;
                break;
            }
            let (usage, q) = match PropertyWithNameAndDefault::parse(tokens, p) {
                Ok(t) => t,
                Err(e) => {
                    proof {
                        if exists|us: Seq<PropertyWithNameAndDefault>, e2: int| usage_list_at(
                            tokens@,
                            up,
                            us,
                            e2,
                        ) {
                            let (us, e2) = choose|us: Seq<PropertyWithNameAndDefault>, e2: int|
                                usage_list_at(tokens@, up, us, e2);
                            assert(us.len() != 0);
                            let mid = choose|mid: int|
                                {
                                    &&& #[trigger] usage_at(tokens@, up, us[0], mid)
                                    &&& mid < tokens@.len()
                                    &&& {
                                        ||| (tokens@[mid] is Comma && usage_list_at(
                                            tokens@,
                                            mid + 1,
                                            us.skip(1),
                                            e2,
                                        ))
                                        ||| (tokens@[mid] is CloseBrace && us.len() == 1
                                            && e2 == mid + 1)
                                    }
                                };
                            assert(usage_at(tokens@, p as int, us[0], mid));
                            assert(false);
                        }
                    }
                    return Err(e);
                },
            };
            let ghost gu = usage;
            properties_and_defaults.push(usage);
            p = q;
            proof {
                if exists|us: Seq<PropertyWithNameAndDefault>, e2: int| usage_list_at(
                    tokens@,
                    up,
                    us,
                    e2,
                ) {
                    let (us, e2) = choose|us: Seq<PropertyWithNameAndDefault>, e2: int|
                        usage_list_at(tokens@, up, us, e2);
                    assert(us.len() != 0);
                    let mid = choose|mid: int|
                        {
                            &&& #[trigger] usage_at(tokens@, up, us[0], mid)
                            &&& mid < tokens@.len()
                            &&& {
                                ||| (tokens@[mid] is Comma && usage_list_at(
                                    tokens@,
                                    mid + 1,
                                    us.skip(1),
                                    e2,
                                ))
                                ||| (tokens@[mid] is CloseBrace && us.len() == 1 && e2 == mid
                                    + 1)
                            }
                        };
                    lemma_usage_end_det(tokens@, up, us[0], mid, gu, q as int);
                    assert(mid == q as int);
                }
            }
            if p >= tokens.len() {
                return Err(ParseError { position: p, kind: ParseErrorKind::UnexpectedEnd });
            }
            proof {
                assert(properties_and_defaults@ =~= old_list.push(gu));
            }
            match &tokens[p] {
                Token::Comma => {
                    p = p + 1;
                    proof {
                        assert forall|rest: Seq<PropertyWithNameAndDefault>, e: int|
                            usage_list_at(tokens@, p as int, rest, e) implies usage_list_at(
                            tokens@,
                            ustart,
                            properties_and_defaults@ + rest,
                            e,
                        ) by {
                            let cons = seq![gu] + rest;
                            assert(cons[0] == gu);
                            assert(cons.skip(1) =~= rest);
                            assert(usage_at(tokens@, up, cons[0], q as int));
                            assert(usage_list_at(tokens@, up, cons, e));
                            assert(old_list + cons =~= old_list.push(gu) + rest);
                        }
                        if exists|us: Seq<PropertyWithNameAndDefault>, e2: int| usage_list_at(
                            tokens@,
                            up,
                            us,
                            e2,
                        ) {
                            let (us, e2) = choose|us: Seq<PropertyWithNameAndDefault>, e2: int|
                                usage_list_at(tokens@, up, us, e2);
                            assert(us.len() != 0);
                            let mid = choose|mid: int|
                                {
                                    &&& #[trigger] usage_at(tokens@, up, us[0], mid)
                                    &&& mid < tokens@.len()
                                    &&& {
                                        ||| (tokens@[mid] is Comma && usage_list_at(
                                            tokens@,
                                            mid + 1,
                                            us.skip(1),
                                            e2,
                                        ))
                                        ||| (tokens@[mid] is CloseBrace && us.len() == 1
                                            && e2 == mid + 1)
                                    }
                                };
                            lemma_usage_end_det(tokens@, up, us[0], mid, gu, q as int);
                            assert(usage_list_at(tokens@, p as int, us.skip(1), e2));
                        }
                    }
                },
                Token::CloseBrace => {
                    p = p + 1;
                    proof {
                        let single = seq![gu];
                        assert(single[0] == gu);
                        assert(usage_at(tokens@, up, single[0], q as int));
                        assert(usage_list_at(tokens@, up, single, q + 1));
                        assert(old_list + single =~= old_list.push(gu));
                    }
                    break;
                },
                _ => {
                    return Err(
                        ParseError { position: p, kind: ParseErrorKind::UnexpectedToken },
                    );
                },
            }
        }
        proof {
            let bd = BlockDefinition { name, behavior, properties_and_defaults };
            assert(gc == pos + 2 + bd.behavior@.len());
            assert(block_definition_at(tokens@, pos as int, bd, p as int));
        }
        Ok((BlockDefinition { name, behavior, properties_and_defaults }, p))
    }
}

impl BlockDefinitions {
    /// Parses comma-separated block definitions until the section's
    /// closing brace (a trailing comma is allowed).
    #[verifier::rlimit(100)]
    pub fn parse(tokens: &Vec<Token>, pos: usize) -> (r: Result<
        (BlockDefinitions, usize),
        ParseError,
    >)
        requires
            pos <= tokens@.len(),
        ensures
            r is Ok ==> pos <= r->Ok_0.1 <= tokens@.len(),
            r is Ok ==> block_list_at(tokens@, pos as int, r->Ok_0.0.blocks@, r->Ok_0.1 as int),
            pos == tokens@.len() || (pos < tokens@.len() && tokens@[pos as int] is CloseBrace)
                ==> r is Ok && r->Ok_0.1 == pos && r->Ok_0.0.blocks@.len() == 0,
    {
        let mut blocks: Vec<BlockDefinition> = Vec::new();
        let mut p = pos;
        proof {
            assert forall|rest: Seq<BlockDefinition>, e: int|
                block_list_at(tokens@, p as int, rest, e) implies block_list_at(
                tokens@,
                pos as int,
                blocks@ + rest,
                e,
            ) by {
                assert(blocks@ + rest =~= rest);
            }
        }
        loop
            invariant_except_break
                forall|rest: Seq<BlockDefinition>, e: int|
                    block_list_at(tokens@, p as int, rest, e) ==> block_list_at(
                        tokens@,
                        pos as int,
                        blocks@ + rest,
                        e,
                    ),
            invariant
                pos <= p <= tokens@.len(),
                (pos == tokens@.len() || (pos < tokens@.len() && tokens@[pos as int]
                    is CloseBrace)) ==> p == pos,
            ensures
                pos <= p <= tokens@.len(),
                block_list_at(tokens@, pos as int, blocks@, p as int),
            decreases tokens@.len() - p,
        {
            let ghost old_list = blocks@;
            let ghost bp = p as int;
            if p >= tokens.len() {
                proof {
                    assert(block_list_at(tokens@, bp, Seq::<BlockDefinition>::empty(), bp));
                    assert(old_list + Seq::<BlockDefinition>::empty() =~= old_list);
                }
                break;
            }
            if let Token::CloseBrace = &tokens[p] {
                proof {
                    assert(block_list_at(tokens@, bp, Seq::<BlockDefinition>::empty(), bp));
                    assert(old_list + Seq::<BlockDefinition>::empty() =~= old_list);
                }
                break;
            }
            let (block, q) = match BlockDefinition::parse(tokens, p) {
                Ok(t) => t,
                Err(e) => {
                    return Err(e);
                },
            };
            let ghost gb = block;
            blocks.push(block);
            p = q;
            if p < tokens.len() {
                if let Token::Comma = &tokens[p] {
                    p = p + 1;
                }
            }
            proof {
                assert(blocks@ =~= old_list.push(gb));
                assert forall|rest: Seq<BlockDefinition>, e: int|
                    block_list_at(tokens@, p as int, rest, e) implies block_list_at(
                    tokens@,
                    pos as int,
                    blocks@ + rest,
                    e,
                ) by {
                    lemma_block_list_prepend(tokens@, bp, gb, q as int, p as int, rest, e);
                    assert(old_list + (seq![gb] + rest) =~= old_list.push(gb) + rest);
                }
            }
        }
        Ok((BlockDefinitions { blocks }, p))
    }
}

impl MakeBlockStates {
    /// Parses the whole two-section definition:
    /// `Properties => { ... }, Blocks => { ... }`. A section keyword other
    /// than `Properties` or `Blocks` is a fatal error at its position.
    pub fn parse(tokens: &Vec<Token>, pos: usize) -> (r: Result<
        (MakeBlockStates, usize),
        ParseError,
    >)
        requires
            pos <= tokens@.len(),
        ensures
            r is Ok ==> pos <= r->Ok_0.1 <= tokens@.len(),
            r is Ok ==> definition_at(tokens@, pos as int, r->Ok_0.0, r->Ok_0.1 as int),
            ({
                &&& pos + 8 < tokens@.len()
                &&& is_ident(tokens@[pos as int], "Properties"@)
                &&& tokens@[pos + 1] is FatArrow
                &&& tokens@[pos + 2] is OpenBrace
                &&& tokens@[pos + 3] is CloseBrace
                &&& tokens@[pos + 4] is Comma
                &&& is_ident(tokens@[pos + 5], "Blocks"@)
                &&& tokens@[pos + 6] is FatArrow
                &&& tokens@[pos + 7] is OpenBrace
                &&& tokens@[pos + 8] is CloseBrace
            }) ==> r is Ok,
    {
        if pos >= tokens.len() {
            return Err(ParseError { position: pos, kind: ParseErrorKind::UnexpectedEnd });
        }
        match &tokens[pos] {
            Token::Ident(s) => {
                if !is_word(s, "Properties") {
                    return Err(
                        ParseError {
                            position: pos,
                            kind: ParseErrorKind::ExpectedPropertiesSection,
                        },
                    );
                }
            },
            _ => {
                return Err(
                    ParseError { position: pos, kind: ParseErrorKind::ExpectedPropertiesSection },
                );
            },
        }
        let mut p = match expect_fat_arrow(tokens, pos + 1) {
            Ok(q) => q,
            Err(e) => {
                return Err(e);
            },
        };
        p = match expect_open_brace(tokens, p) {
            Ok(q) => q,
            Err(e) => {
                return Err(e);
            },
        };
        let (property_definitions, p2) = match PropertyDefinitions::parse(tokens, p) {
            Ok(t) => t,
            Err(e) => {
                return Err(e);
            },
        };
        p = p2;
        let ghost g1 = p2 as int;
        if p >= tokens.len() {
            return Err(ParseError { position: p, kind: ParseErrorKind::UnexpectedEnd });
        }
        match &tokens[p] {
            Token::CloseBrace => {
                p = p + 1;
            },
            _ => {
                return Err(ParseError { position: p, kind: ParseErrorKind::UnexpectedToken });
            },
        }
        p = match expect_comma(tokens, p) {
            Ok(q) => q,
            Err(e) => {
                return Err(e);
            },
        };
        if p >= tokens.len() {
            return Err(ParseError { position: p, kind: ParseErrorKind::UnexpectedEnd });
        }
        match &tokens[p] {
            Token::Ident(s) => {
                if !is_word(s, "Blocks") {
                    return Err(
                        ParseError { position: p, kind: ParseErrorKind::ExpectedBlocksSection },
                    );
                }
            },
            _ => {
                return Err(
                    ParseError { position: p, kind: ParseErrorKind::ExpectedBlocksSection },
                );
            },
        }
        p = match expect_fat_arrow(tokens, p + 1) {
            Ok(q) => q,
            Err(e) => {
                return Err(e);
            },
        };
        p = match expect_open_brace(tokens, p) {
            Ok(q) => q,
            Err(e) => {
                return Err(e);
            },
        };
        let (block_definitions, p3) = match BlockDefinitions::parse(tokens, p) {
            Ok(t) => t,
            Err(e) => {
                return Err(e);
            },
        };
        p = p3;
        let ghost g2 = p3 as int;
        if p >= tokens.len() {
            return Err(ParseError { position: p, kind: ParseErrorKind::UnexpectedEnd });
        }
        match &tokens[p] {
            Token::CloseBrace => {
                p = p + 1;
            },
            _ => {
                return Err(ParseError { position: p, kind: ParseErrorKind::UnexpectedToken });
            },
        }
        proof {
            let defs = MakeBlockStates { property_definitions, block_definitions };
            assert(declaration_list_at(
                tokens@,
                pos + 3,
                defs.property_definitions.declarations@,
                g1,
            ));
            assert(block_list_at(tokens@, g1 + 5, defs.block_definitions.blocks@, g2));
            assert(definition_at(tokens@, pos as int, defs, p as int));
        }
        Ok((MakeBlockStates { property_definitions, block_definitions }, p))
    }
}

} // verus!
