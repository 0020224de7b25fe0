//! Tokens of the block-state definition grammar, and the tokenizer.
//!
//! The definition text is a sequence of words (identifiers and literals),
//! quoted names, and the punctuation of the two-section grammar
//! (`Properties => { ... }, Blocks => { ... }`). Behavior expressions are
//! carried through the pipeline as their raw token sequence: the compiler
//! never examines them.

use vstd::prelude::*;

verus! {

use vstd::string::StrSliceExecFns;

/// One lexical element of the definition text.
#[derive(Debug)]
pub enum Token {
    /// A word: a run of letters, digits and underscores.
    Ident(String),
    /// A double-quoted name, without its quotes.
    StrLit(String),
    /// `=>`
    FatArrow,
    /// `::`
    PathSep,
    /// `,`
    Comma,
    /// `:`
    Colon,
    /// `{`
    OpenBrace,
    /// `}`
    CloseBrace,
    /// `(`
    OpenParen,
    /// `)`
    CloseParen,
}

/// Why tokenizing or parsing the definition text failed.
#[derive(Debug)]
pub enum ParseErrorKind {
    /// A character outside the grammar's alphabet.
    UnexpectedCharacter,
    /// A quoted name that never closes.
    UnterminatedString,
    /// A token other than the one the grammar requires here.
    UnexpectedToken,
    /// The input ends where the grammar requires more.
    UnexpectedEnd,
    /// The first section keyword is not `Properties`.
    ExpectedPropertiesSection,
    /// The second section keyword is not `Blocks`.
    ExpectedBlocksSection,
    /// A field default that is neither a boolean literal nor
    /// `Domain::Variant`.
    ExpectedBooleanOrVariant,
}

/// A fatal definition-text error, with the position (character index for
/// tokenizer errors, token index for parser errors) where it was found.
#[derive(Debug)]
pub struct ParseError {
    pub position: usize,
    pub kind: ParseErrorKind,
}

/// An exact copy of a token (`clone` through `derive` would tell the
/// verifier nothing about the copy).
pub fn clone_token(t: &Token) -> (r: Token)
    ensures
        r == *t,
{
    match t {
        Token::Ident(s) => Token::Ident(s.clone()),
        Token::StrLit(s) => Token::StrLit(s.clone()),
        Token::FatArrow => Token::FatArrow,
        Token::PathSep => Token::PathSep,
        Token::Comma => Token::Comma,
        Token::Colon => Token::Colon,
        Token::OpenBrace => Token::OpenBrace,
        Token::CloseBrace => Token::CloseBrace,
        Token::OpenParen => Token::OpenParen,
        Token::CloseParen => Token::CloseParen,
    }
}

/// An exact copy of a token sequence.
pub fn clone_tokens(v: &Vec<Token>) -> (r: Vec<Token>)
    ensures
        r@ == v@,
{
    let mut r: Vec<Token> = Vec::new();
    let mut i: usize = 0;
    while i < v.len()
        invariant
            i <= v@.len(),
            r@.len() == i,
            forall|j: int| 0 <= j < i ==> r@[j] == v@[j],
        decreases v@.len() - i,
    {
        r.push(clone_token(&v[i]));
        i = i + 1;
    }
    proof {
        assert(r@ =~= v@);
    }
    r
}

/// Whether the character is a word character: a letter, a digit or `_`.
pub open spec fn spec_word_char(c: char) -> bool {
    ('a' <= c && c <= 'z') || ('A' <= c && c <= 'Z') || ('0' <= c && c <= '9') || c == '_'
}

/// Whether the character is whitespace between tokens.
pub open spec fn spec_space_char(c: char) -> bool {
    c == ' ' || c == '\t' || c == '\r' || c == '\n'
}

/// The end of the word starting at `i`: the first position at or after
/// `i` that passes the end of the text or holds a non-word character.
pub open spec fn word_end(s: Seq<char>, i: int) -> int
    decreases s.len() - i,
{
    if 0 <= i < s.len() && spec_word_char(s[i]) {
        word_end(s, i + 1)
    } else {
        i
    }
}

proof fn lemma_word_end(s: Seq<char>, i: int, e: int)
    requires
        0 <= i <= e <= s.len(),
        forall|m: int| i <= m < e ==> spec_word_char(#[trigger] s[m]),
        e == s.len() || !spec_word_char(s[e]),
    ensures
        word_end(s, i) == e,
    decreases e - i,
{
    if i < e {
        assert(spec_word_char(s[i]));
        lemma_word_end(s, i + 1, e);
    }
}

/// The tokenization relation: from character `i` on, the text spells
/// exactly this token sequence. Words take their maximal extent, `::` and
/// `=>` bind before `:` and `=`, and a quoted name runs to the next
/// quote.
pub open spec fn tokens_from(s: Seq<char>, i: int, toks: Seq<Token>) -> bool
    decreases toks.len(), s.len() - i,
{
    if i < 0 || i > s.len() {
        false
    } else if i == s.len() {
        toks.len() == 0
    } else if spec_space_char(s[i]) {
        tokens_from(s, i + 1, toks)
    } else if toks.len() == 0 {
        false
    } else if spec_word_char(s[i]) {
        &&& is_ident(toks[0], s.subrange(i, word_end(s, i)))
        &&& tokens_from(s, word_end(s, i), toks.skip(1))
    } else if s[i] == '"' {
        exists|e: int|
            {
                &&& i < e < s.len()
                &&& s[e] == '"'
                &&& (forall|m: int| i < m < e ==> #[trigger] s[m] != '"')
                &&& is_str_lit(toks[0], s.subrange(i + 1, e))
                &&& tokens_from(s, e + 1, toks.skip(1))
            }
    } else if s[i] == '=' {
        &&& i + 1 < s.len()
        &&& s[i + 1] == '>'
        &&& toks[0] is FatArrow
        &&& tokens_from(s, i + 2, toks.skip(1))
    } else if s[i] == ':' {
        if i + 1 < s.len() && s[i + 1] == ':' {
            toks[0] is PathSep && tokens_from(s, i + 2, toks.skip(1))
        } else {
            toks[0] is Colon && tokens_from(s, i + 1, toks.skip(1))
        }
    } else if s[i] == ',' {
        toks[0] is Comma && tokens_from(s, i + 1, toks.skip(1))
    } else if s[i] == '{' {
        toks[0] is OpenBrace && tokens_from(s, i + 1, toks.skip(1))
    } else if s[i] == '}' {
        toks[0] is CloseBrace && tokens_from(s, i + 1, toks.skip(1))
    } else if s[i] == '(' {
        toks[0] is OpenParen && tokens_from(s, i + 1, toks.skip(1))
    } else if s[i] == ')' {
        toks[0] is CloseParen && tokens_from(s, i + 1, toks.skip(1))
    } else {
        false
    }
}

proof fn lemma_tokens_from_word(s: Seq<char>, i: int, e: int, toks: Seq<Token>)
    requires
        0 <= i < e <= s.len(),
        forall|m: int| i <= m < e ==> spec_word_char(#[trigger] s[m]),
        e == s.len() || !spec_word_char(s[e]),
        toks.len() >= 1,
        is_ident(toks[0], s.subrange(i, e)),
        tokens_from(s, e, toks.skip(1)),
    ensures
        tokens_from(s, i, toks),
{
    lemma_word_end(s, i, e);
    assert(spec_word_char(s[i]));
    assert(!spec_space_char(s[i]));
}

/// The token spelled with exactly this text.
pub open spec fn is_ident(t: Token, s: Seq<char>) -> bool {
    match t {
        Token::Ident(x) => x@ == s,
        _ => false,
    }
}

/// The quoted name spelled with exactly this text.
pub open spec fn is_str_lit(t: Token, s: Seq<char>) -> bool {
    match t {
        Token::StrLit(x) => x@ == s,
        _ => false,
    }
}

fn is_word_char(c: char) -> (r: bool)
    ensures
        r == spec_word_char(c),
{
    ('a' <= c && c <= 'z') || ('A' <= c && c <= 'Z') || ('0' <= c && c <= '9') || c == '_'
}

fn is_space_char(c: char) -> (r: bool)
    ensures
        r == (c == ' ' || c == '\t' || c == '\r' || c == '\n'),
{
    c == ' ' || c == '\t' || c == '\r' || c == '\n'
}

/// Splits the definition text into tokens.
///
/// Whitespace separates tokens and is dropped. Any character that starts
/// neither a word, a quoted name nor one of the grammar's punctuation marks
/// is a fatal error at its position, as is a quoted name that never closes.
pub fn tokenize(input: &str) -> (r: Result<Vec<Token>, ParseError>)
    ensures
        r is Ok ==> tokens_from(input@, 0, r->Ok_0@),
        (exists|toks: Seq<Token>| tokens_from(input@, 0, toks)) ==> r is Ok,
        input@.len() == 0 ==> r is Ok && r->Ok_0@.len() == 0,
        r is Err ==> match r->Err_0.kind {
            ParseErrorKind::UnexpectedCharacter => r->Err_0.position < input@.len(),
            ParseErrorKind::UnterminatedString => r->Err_0.position == input@.len(),
            _ => false,
        },
{
    let ghost s = input@;
    let n = input.unicode_len();
    let mut tokens: Vec<Token> = Vec::new();
    let mut i: usize = 0;
    proof {
        assert forall|rest: Seq<Token>| tokens_from(s, i as int, rest) implies tokens_from(
            s,
            0,
            tokens@ + rest,
        ) by {
            assert(tokens@ + rest =~= rest);
        }
    }
    while i < n
        invariant
            n == s.len(),
            s == input@,
            i <= n,
            n == 0 ==> tokens@.len() == 0,
            forall|rest: Seq<Token>|
                tokens_from(s, i as int, rest) ==> tokens_from(s, 0, tokens@ + rest),
            (exists|toks: Seq<Token>| tokens_from(s, 0, toks)) ==> (exists|rest: Seq<Token>|
                tokens_from(s, i as int, rest)),
        decreases n - i,
    {
        let ghost old_toks = tokens@;
        let ghost i0 = i as int;
        let c = input.get_char(i);
        if is_space_char(c) {
            i = i + 1;
            proof {
                assert forall|rest: Seq<Token>| tokens_from(s, i as int, rest) implies
                    tokens_from(s, 0, tokens@ + rest) by {
                    assert(tokens_from(s, i0, rest));
                }
                if exists|rest: Seq<Token>| tokens_from(s, i0, rest) {
                    let rest = choose|rest: Seq<Token>| tokens_from(s, i0, rest);
                    assert(tokens_from(s, i0 + 1, rest));
                }
            }
        } else if is_word_char(c) {
            let start = i;
            i = i + 1;
            while i < n && is_word_char(input.get_char(i))
                invariant
                    n == s.len(),
                    s == input@,
                    start < i <= n,
                    forall|m: int| start <= m < i ==> spec_word_char(#[trigger] s[m]),
                decreases n - i,
            {
                i = i + 1;
            }
            let text = input.substring_char(start, i).to_owned();
            tokens.push(Token::Ident(text));
            proof {
                let tok = tokens@.last();
                assert(tokens@ =~= old_toks.push(tok));
                assert(is_ident(tok, s.subrange(i0, i as int)));
                assert forall|rest: Seq<Token>| tokens_from(s, i as int, rest) implies
                    tokens_from(s, 0, tokens@ + rest) by {
                    let cons = seq![tok] + rest;
                    assert(cons[0] == tok);
                    assert(cons.skip(1) =~= rest);
                    assert(tokens_from(s, i as int, cons.skip(1)));
                    lemma_tokens_from_word(s, i0, i as int, cons);
                    assert(old_toks + cons =~= tokens@ + rest);
                }
                lemma_word_end(s, i0, i as int);
                if exists|rest: Seq<Token>| tokens_from(s, i0, rest) {
                    let rest = choose|rest: Seq<Token>| tokens_from(s, i0, rest);
                    assert(rest.len() != 0);
                    assert(tokens_from(s, i as int, rest.skip(1)));
                }
            }
        } else if c == '"' {
            let start = i + 1;
            i = i + 1;
            while i < n && input.get_char(i) != '"'
                invariant
                    n == s.len(),
                    s == input@,
                    start <= i <= n,
                    forall|m: int| start <= m < i ==> #[trigger] s[m] != '"',
                decreases n - i,
            {
                i = i + 1;
            }
            if i == n {
                proof {
                    if exists|rest: Seq<Token>| tokens_from(s, i0, rest) {
                        let rest = choose|rest: Seq<Token>| tokens_from(s, i0, rest);
                        assert(rest.len() != 0);
                        let e2 = choose|e2: int|
                            {
                                &&& i0 < e2 < s.len()
                                &&& s[e2] == '"'
                                &&& (forall|m: int| i0 < m < e2 ==> #[trigger] s[m] != '"')
                                &&& is_str_lit(rest[0], s.subrange(i0 + 1, e2))
                                &&& tokens_from(s, e2 + 1, rest.skip(1))
                            };
                        assert(s[e2] != '"');
                        assert(false);
                    }
                }
                return Err(
                    ParseError { position: n, kind: ParseErrorKind::UnterminatedString },
                );
            }
            let text = input.substring_char(start, i).to_owned();
            let ghost e = i as int;
            proof {
                let tok = Token::StrLit(text);
                assert(is_str_lit(tok, s.subrange(i0 + 1, e)));
            }
            tokens.push(Token::StrLit(text));
            i = i + 1;
            proof {
                assert(tokens@ =~= old_toks.push(Token::StrLit(text)));
                assert forall|rest: Seq<Token>| tokens_from(s, i as int, rest) implies
                    tokens_from(s, 0, tokens@ + rest) by {
                    let cons = seq![Token::StrLit(text)] + rest;
                    assert(cons[0] == Token::StrLit(text));
                    assert(cons.skip(1) =~= rest);
                    assert(tokens_from(s, i0, cons));
                    assert(old_toks + cons =~= tokens@ + rest);
                }
                if exists|rest: Seq<Token>| tokens_from(s, i0, rest) {
                    let rest = choose|rest: Seq<Token>| tokens_from(s, i0, rest);
                    assert(rest.len() != 0);
                    let e2 = choose|e2: int|
                        {
                            &&& i0 < e2 < s.len()
                            &&& s[e2] == '"'
                            &&& (forall|m: int| i0 < m < e2 ==> #[trigger] s[m] != '"')
                            &&& is_str_lit(rest[0], s.subrange(i0 + 1, e2))
                            &&& tokens_from(s, e2 + 1, rest.skip(1))
                        };
                    if e2 < e {
                        assert(s[e2] != '"');
                        assert(false);
                    }
                    if e2 > e {
                        assert(s[e] != '"');
                        assert(false);
                    }
                    assert(tokens_from(s, i as int, rest.skip(1)));
                }
            }
        } else if c == '=' {
            if i + 1 < n && input.get_char(i + 1) == '>' {
                tokens.push(Token::FatArrow);
                i = i + 2;
                proof {
                    assert(tokens@ =~= old_toks.push(Token::FatArrow));
                    assert forall|rest: Seq<Token>| tokens_from(s, i as int, rest) implies
                        tokens_from(s, 0, tokens@ + rest) by {
                        let cons = seq![Token::FatArrow] + rest;
                        assert(cons[0] == Token::FatArrow);
                        assert(cons.skip(1) =~= rest);
                        assert(tokens_from(s, i0, cons));
                        assert(old_toks + cons =~= tokens@ + rest);
                    }
                    if exists|rest: Seq<Token>| tokens_from(s, i0, rest) {
                        let rest = choose|rest: Seq<Token>| tokens_from(s, i0, rest);
                        assert(tokens_from(s, i as int, rest.skip(1)));
                    }
                }
            } else {
                proof {
                    if exists|rest: Seq<Token>| tokens_from(s, i0, rest) {
                        let rest = choose|rest: Seq<Token>| tokens_from(s, i0, rest);
                        assert(i0 + 1 < s.len() && s[i0 + 1] == '>');
                        assert(false);
                    }
                }
                return Err(
                    ParseError { position: i, kind: ParseErrorKind::UnexpectedCharacter },
                );
            }
        } else if c == ':' {
            if i + 1 < n && input.get_char(i + 1) == ':' {
                tokens.push(Token::PathSep);
                i = i + 2;
                proof {
                    assert(tokens@ =~= old_toks.push(Token::PathSep));
                    assert forall|rest: Seq<Token>| tokens_from(s, i as int, rest) implies
                        tokens_from(s, 0, tokens@ + rest) by {
                        let cons = seq![Token::PathSep] + rest;
                        assert(cons[0] == Token::PathSep);
                        assert(cons.skip(1) =~= rest);
                        assert(tokens_from(s, i0, cons));
                        assert(old_toks + cons =~= tokens@ + rest);
                    }
                    if exists|rest: Seq<Token>| tokens_from(s, i0, rest) {
                        let rest = choose|rest: Seq<Token>| tokens_from(s, i0, rest);
                        assert(tokens_from(s, i as int, rest.skip(1)));
                    }
                }
            } else {
                tokens.push(Token::Colon);
                i = i + 1;
                proof {
                    assert(tokens@ =~= old_toks.push(Token::Colon));
                    assert forall|rest: Seq<Token>| tokens_from(s, i as int, rest) implies
                        tokens_from(s, 0, tokens@ + rest) by {
                        let cons = seq![Token::Colon] + rest;
                        assert(cons[0] == Token::Colon);
                        assert(cons.skip(1) =~= rest);
                        assert(tokens_from(s, i0, cons));
                        assert(old_toks + cons =~= tokens@ + rest);
                    }
                    if exists|rest: Seq<Token>| tokens_from(s, i0, rest) {
                        let rest = choose|rest: Seq<Token>| tokens_from(s, i0, rest);
                        assert(tokens_from(s, i as int, rest.skip(1)));
                    }
                }
            }
        } else if c == ',' {
            tokens.push(Token::Comma);
            i = i + 1;
            proof {
                assert(tokens@ =~= old_toks.push(Token::Comma));
                assert forall|rest: Seq<Token>| tokens_from(s, i as int, rest) implies
                    tokens_from(s, 0, tokens@ + rest) by {
                    let cons = seq![Token::Comma] + rest;
                    assert(cons[0] == Token::Comma);
                    assert(cons.skip(1) =~= rest);
                    assert(tokens_from(s, i0, cons));
                    assert(old_toks + cons =~= tokens@ + rest);
                }
                if exists|rest: Seq<Token>| tokens_from(s, i0, rest) {
                    let rest = choose|rest: Seq<Token>| tokens_from(s, i0, rest);
                    assert(tokens_from(s, i as int, rest.skip(1)));
                }
            }
        } else if c == '{' {
            tokens.push(Token::OpenBrace);
            i = i + 1;
            proof {
                assert(tokens@ =~= old_toks.push(Token::OpenBrace));
                assert forall|rest: Seq<Token>| tokens_from(s, i as int, rest) implies
                    tokens_from(s, 0, tokens@ + rest) by {
                    let cons = seq![Token::OpenBrace] + rest;
                    assert(cons[0] == Token::OpenBrace);
                    assert(cons.skip(1) =~= rest);
                    assert(tokens_from(s, i0, cons));
                    assert(old_toks + cons =~= tokens@ + rest);
                }
                if exists|rest: Seq<Token>| tokens_from(s, i0, rest) {
                    let rest = choose|rest: Seq<Token>| tokens_from(s, i0, rest);
                    assert(tokens_from(s, i as int, rest.skip(1)));
                }
            }
        } else if c == '}' {
            tokens.push(Token::CloseBrace);
            i = i + 1;
            proof {
                assert(tokens@ =~= old_toks.push(Token::CloseBrace));
                assert forall|rest: Seq<Token>| tokens_from(s, i as int, rest) implies
                    tokens_from(s, 0, tokens@ + rest) by {
                    let cons = seq![Token::CloseBrace] + rest;
                    assert(cons[0] == Token::CloseBrace);
                    assert(cons.skip(1) =~= rest);
                    assert(tokens_from(s, i0, cons));
                    assert(old_toks + cons =~= tokens@ + rest);
                }
                if exists|rest: Seq<Token>| tokens_from(s, i0, rest) {
                    let rest = choose|rest: Seq<Token>| tokens_from(s, i0, rest);
                    assert(tokens_from(s, i as int, rest.skip(1)));
                }
            }
        } else if c == '(' {
            tokens.push(Token::OpenParen);
            i = i + 1;
            proof {
                assert(tokens@ =~= old_toks.push(Token::OpenParen));
                assert forall|rest: Seq<Token>| tokens_from(s, i as int, rest) implies
                    tokens_from(s, 0, tokens@ + rest) by {
                    let cons = seq![Token::OpenParen] + rest;
                    assert(cons[0] == Token::OpenParen);
                    assert(cons.skip(1) =~= rest);
                    assert(tokens_from(s, i0, cons));
                    assert(old_toks + cons =~= tokens@ + rest);
                }
                if exists|rest: Seq<Token>| tokens_from(s, i0, rest) {
                    let rest = choose|rest: Seq<Token>| tokens_from(s, i0, rest);
                    assert(tokens_from(s, i as int, rest.skip(1)));
                }
            }
        } else if c == ')' {
            tokens.push(Token::CloseParen);
            i = i + 1;
            proof {
                assert(tokens@ =~= old_toks.push(Token::CloseParen));
                assert forall|rest: Seq<Token>| tokens_from(s, i as int, rest) implies
                    tokens_from(s, 0, tokens@ + rest) by {
                    let cons = seq![Token::CloseParen] + rest;
                    assert(cons[0] == Token::CloseParen);
                    assert(cons.skip(1) =~= rest);
                    assert(tokens_from(s, i0, cons));
                    assert(old_toks + cons =~= tokens@ + rest);
                }
                if exists|rest: Seq<Token>| tokens_from(s, i0, rest) {
                    let rest = choose|rest: Seq<Token>| tokens_from(s, i0, rest);
                    assert(tokens_from(s, i as int, rest.skip(1)));
                }
            }
        } else {
            proof {
                if exists|rest: Seq<Token>| tokens_from(s, i0, rest) {
                    let rest = choose|rest: Seq<Token>| tokens_from(s, i0, rest);
                    assert(false);
                }
            }
            return Err(ParseError { position: i, kind: ParseErrorKind::UnexpectedCharacter });
        }
    }
    proof {
        assert(tokens_from(s, n as int, Seq::<Token>::empty()));
        assert(tokens@ + Seq::<Token>::empty() =~= tokens@);
    }
    Ok(tokens)
}

} // verus!
