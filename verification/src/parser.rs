use vstd::prelude::*;

use crate::tokenizer::{is_blank, lemma_tokenize_blank_separates, spec_tokenize, SpecToken, Token, view_tokens};

verus! {

/// A named sum type: `Type Name = Variant Type | Variant Type ...;`
#[derive(Debug)]
pub struct RawTypeDefinition {
    pub name: String,
    pub variants: Vec<(String, RawType)>,
}

/// An expression as written.
#[derive(Debug)]
pub enum Value {
    /// `|x| body` or `|x: T| body`; the annotation is optional.
    FunctionDefinition(String, Option<RawType>, Box<Value>),
    /// `f(arg)`
    FunctionCall(Box<Value>, Box<Value>),
    /// `Match v { Variant value, ... }`
    Match(Box<Value>, Vec<(String, Box<Value>)>),
    Constant(String),
    /// A number literal, as its text.
    Number(String),
    Unit,
}

/// A type as written: `()`, `A -> B` (right-associative) or a name.
#[derive(Debug)]
pub enum RawType {
    Unit,
    Function(Box<RawType>, Box<RawType>),
    TypeDef(String),
}

impl Clone for RawType {
    fn clone(&self) -> (res: Self)
        ensures
            res == *self,
        decreases self,
    {
        match self {
            RawType::Unit => RawType::Unit,
            RawType::Function(a, b) => {
                let a2 = (**a).clone();
                let b2 = (**b).clone();
                RawType::Function(Box::new(a2), Box::new(b2))
            },
            RawType::TypeDef(x) => RawType::TypeDef(x.clone()),
        }
    }
}

/// The mathematical value of a `RawType`.
pub enum SpecRawType {
    Unit,
    Function(Box<SpecRawType>, Box<SpecRawType>),
    TypeDef(Seq<char>),
}

/// The mathematical value of a `Value`.
pub enum SpecValue {
    FunctionDefinition(Seq<char>, Option<SpecRawType>, Box<SpecValue>),
    FunctionCall(Box<SpecValue>, Box<SpecValue>),
    Match(Box<SpecValue>, Seq<(Seq<char>, SpecValue)>),
    Constant(Seq<char>),
    Number(Seq<char>),
    Unit,
}

/// The mathematical value of a `RawTypeDefinition`.
pub struct SpecTypeDefinition {
    pub name: Seq<char>,
    pub variants: Seq<(Seq<char>, SpecRawType)>,
}

/// Why a token sequence is not a program, at a token index.
#[derive(PartialEq, Eq, Structural, Debug, Clone, Copy)]
pub enum ParseError {
    /// The tokens ended where more were needed.
    UnexpectedEnd,
    /// The token at this index cannot stand where it stands.
    UnexpectedToken(usize),
}

pub open spec fn raw_type_view(t: RawType) -> SpecRawType
    decreases t,
{
    match t {
        RawType::Unit => SpecRawType::Unit,
        RawType::Function(a, b) => SpecRawType::Function(
            Box::new(raw_type_view(*a)),
            Box::new(raw_type_view(*b)),
        ),
        RawType::TypeDef(s) => SpecRawType::TypeDef(s@),
    }
}

impl View for RawType {
    type V = SpecRawType;

    open spec fn view(&self) -> SpecRawType {
        raw_type_view(*self)
    }
}

pub open spec fn value_view(v: Value) -> SpecValue
    decreases v,
{
    match v {
        Value::FunctionDefinition(x, t, body) => SpecValue::FunctionDefinition(
            x@,
            match t {
                Some(t) => Some(raw_type_view(t)),
                None => None,
            },
            Box::new(value_view(*body)),
        ),
        Value::FunctionCall(f, a) => SpecValue::FunctionCall(
            Box::new(value_view(*f)),
            Box::new(value_view(*a)),
        ),
        Value::Match(scrutinee, arms) => SpecValue::Match(
            Box::new(value_view(*scrutinee)),
            arms_view(arms@),
        ),
        Value::Constant(x) => SpecValue::Constant(x@),
        Value::Number(x) => SpecValue::Number(x@),
        Value::Unit => SpecValue::Unit,
    }
}

pub open spec fn arms_view(arms: Seq<(String, Box<Value>)>) -> Seq<(Seq<char>, SpecValue)>
    decreases arms,
{
    if arms.len() == 0 {
        seq![]
    } else {
        seq![(arms[0].0@, value_view(*arms[0].1))] + arms_view(arms.drop_first())
    }
}

impl View for Value {
    type V = SpecValue;

    open spec fn view(&self) -> SpecValue {
        value_view(*self)
    }
}

pub open spec fn variants_view(vs: Seq<(String, RawType)>) -> Seq<(Seq<char>, SpecRawType)> {
    vs.map_values(|p: (String, RawType)| (p.0@, p.1@))
}

impl View for RawTypeDefinition {
    type V = SpecTypeDefinition;

    open spec fn view(&self) -> SpecTypeDefinition {
        SpecTypeDefinition { name: self.name@, variants: variants_view(self.variants@) }
    }
}

pub type SpecDefinitions = (Seq<SpecTypeDefinition>, Seq<(Seq<char>, SpecValue, SpecRawType)>);

pub open spec fn definitions_view(d: (Vec<RawTypeDefinition>, Vec<(String, Value, RawType)>)) -> SpecDefinitions {
    (
        d.0@.map_values(|t: RawTypeDefinition| t@),
        d.1@.map_values(|c: (String, Value, RawType)| (c.0@, c.1@, c.2@)),
    )
}

/// The token at `p`, or `None` past the end.
pub open spec fn token_at(ts: Seq<SpecToken>, p: int) -> Option<SpecToken> {
    if 0 <= p < ts.len() {
        Some(ts[p])
    } else {
        None
    }
}

/// Consumes the token `t` at `p` and gives the next position.
pub open spec fn expect(ts: Seq<SpecToken>, p: int, t: SpecToken) -> Result<int, ParseError> {
    match token_at(ts, p) {
        None => Err(ParseError::UnexpectedEnd),
        Some(u) => if u == t {
            Ok(p + 1)
        } else {
            Err(ParseError::UnexpectedToken(p as usize))
        },
    }
}

/// Consumes a name at `p`.
pub open spec fn expect_name(ts: Seq<SpecToken>, p: int) -> Result<Seq<char>, ParseError> {
    match token_at(ts, p) {
        None => Err(ParseError::UnexpectedEnd),
        Some(SpecToken::Name(x)) => Ok(x),
        Some(_) => Err(ParseError::UnexpectedToken(p as usize)),
    }
}

/// `q` is a position after `p` within the tokens. A sub-parse always ends
/// after it starts and within the tokens (`lemma_parse_progress`); the checks
/// `advances(ts, p, q)` below only let these definitions terminate.
pub open spec fn advances(ts: Seq<SpecToken>, p: int, q: int) -> bool {
    p < q <= ts.len()
}

/// A type starting at `p`, with the position after it.
pub open spec fn parse_type_at(ts: Seq<SpecToken>, p: int) -> Result<(SpecRawType, int), ParseError>
    decreases ts.len() - p, 1int,
{
    if p < 0 || p >= ts.len() {
        Err(ParseError::UnexpectedEnd)
    } else {
        match ts[p] {
            SpecToken::LParens => match token_at(ts, p + 1) {
                None => Err(ParseError::UnexpectedEnd),
                Some(SpecToken::RParens) => type_arrow(ts, SpecRawType::Unit, p + 2),
                Some(_) => match parse_type_at(ts, p + 1) {
                    Err(e) => Err(e),
                    Ok((t, q)) => if advances(ts, p, q) {
                        match expect(ts, q, SpecToken::RParens) {
                            Err(e) => Err(e),
                            Ok(r) => type_arrow(ts, t, r),
                        }
                    } else {
                        Err(ParseError::UnexpectedEnd)
                    },
                },
            },
            SpecToken::Name(x) => type_arrow(ts, SpecRawType::TypeDef(x), p + 1),
            _ => Err(ParseError::UnexpectedToken(p as usize)),
        }
    }
}

/// After a type `t` ending at `p`: an optional `-> type`, which takes the
/// whole rest of the chain, so arrows group to the right.
pub open spec fn type_arrow(ts: Seq<SpecToken>, t: SpecRawType, p: int) -> Result<
    (SpecRawType, int),
    ParseError,
>
    decreases ts.len() - p, 0int,
{
    match token_at(ts, p) {
        None => Err(ParseError::UnexpectedEnd),
        Some(SpecToken::Minus) => match expect(ts, p + 1, SpecToken::RAngle) {
            Err(e) => Err(e),
            Ok(r) => match parse_type_at(ts, r) {
                Err(e) => Err(e),
                Ok((ret, q)) => Ok((SpecRawType::Function(Box::new(t), Box::new(ret)), q)),
            },
        },
        Some(_) => Ok((t, p)),
    }
}

/// A value starting at `p`, with the position after it.
pub open spec fn parse_value_at(ts: Seq<SpecToken>, p: int) -> Result<(SpecValue, int), ParseError>
    decreases ts.len() - p, 1int,
{
    if p < 0 || p >= ts.len() {
        Err(ParseError::UnexpectedEnd)
    } else {
        match ts[p] {
            SpecToken::NumberLiteral(x) => value_calls(ts, SpecValue::Number(x), p + 1),
            SpecToken::LParens => match token_at(ts, p + 1) {
                None => Err(ParseError::UnexpectedEnd),
                Some(SpecToken::RParens) => value_calls(ts, SpecValue::Unit, p + 2),
                Some(_) => match parse_value_at(ts, p + 1) {
                    Err(e) => Err(e),
                    Ok((v, q)) => if advances(ts, p, q) {
                        match expect(ts, q, SpecToken::RParens) {
                            Err(e) => Err(e),
                            Ok(r) => value_calls(ts, v, r),
                        }
                    } else {
                        Err(ParseError::UnexpectedEnd)
                    },
                },
            },
            SpecToken::Bar => match expect_name(ts, p + 1) {
                Err(e) => Err(e),
                Ok(x) => match token_at(ts, p + 2) {
                    None => Err(ParseError::UnexpectedEnd),
                    Some(SpecToken::Bar) => match parse_value_at(ts, p + 3) {
                        Err(e) => Err(e),
                        Ok((body, q)) => if advances(ts, p, q) {
                            value_calls(
                                ts,
                                SpecValue::FunctionDefinition(x, None, Box::new(body)),
                                q,
                            )
                        } else {
                            Err(ParseError::UnexpectedEnd)
                        },
                    },
                    Some(SpecToken::Colon) => match parse_type_at(ts, p + 3) {
                        Err(e) => Err(e),
                        Ok((t, q)) => match expect(ts, q, SpecToken::Bar) {
                            Err(e) => Err(e),
                            Ok(r) => if advances(ts, p, r) {
                                match parse_value_at(ts, r) {
                                    Err(e) => Err(e),
                                    Ok((body, s)) => if advances(ts, p, s) {
                                        value_calls(
                                            ts,
                                            SpecValue::FunctionDefinition(x, Some(t), Box::new(body)),
                                            s,
                                        )
                                    } else {
                                        Err(ParseError::UnexpectedEnd)
                                    },
                                }
                            } else {
                                Err(ParseError::UnexpectedEnd)
                            },
                        },
                    },
                    Some(_) => Err(ParseError::UnexpectedToken((p + 2) as usize)),
                },
            },
            SpecToken::Match => match parse_value_at(ts, p + 1) {
                Err(e) => Err(e),
                Ok((scrutinee, q)) => if advances(ts, p, q) {
                    match expect(ts, q, SpecToken::LBrace) {
                        Err(e) => Err(e),
                        Ok(r) => match match_arms(ts, r) {
                            Err(e) => Err(e),
                            Ok((arms, s)) => if advances(ts, p, s) {
                                value_calls(ts, SpecValue::Match(Box::new(scrutinee), arms), s)
                            } else {
                                Err(ParseError::UnexpectedEnd)
                            },
                        },
                    }
                } else {
                    Err(ParseError::UnexpectedEnd)
                },
            },
            SpecToken::Name(x) => value_calls(ts, SpecValue::Constant(x), p + 1),
            _ => Err(ParseError::UnexpectedToken(p as usize)),
        }
    }
}

/// After a value `v` ending at `p`: any number of `(argument)` applications,
/// grouping to the left.
pub open spec fn value_calls(ts: Seq<SpecToken>, v: SpecValue, p: int) -> Result<
    (SpecValue, int),
    ParseError,
>
    decreases ts.len() - p, 0int,
{
    match token_at(ts, p) {
        None => Err(ParseError::UnexpectedEnd),
        Some(SpecToken::LParens) => match parse_value_at(ts, p + 1) {
            Err(e) => Err(e),
            Ok((arg, q)) => if advances(ts, p, q) {
                match expect(ts, q, SpecToken::RParens) {
                    Err(e) => Err(e),
                    Ok(r) => value_calls(
                        ts,
                        SpecValue::FunctionCall(Box::new(v), Box::new(arg)),
                        r,
                    ),
                }
            } else {
                Err(ParseError::UnexpectedEnd)
            },
        },
        Some(_) => Ok((v, p)),
    }
}

/// The arms of a `Match` from `p` up to and including the closing brace:
/// each is `Variant value ,`.
pub open spec fn match_arms(ts: Seq<SpecToken>, p: int) -> Result<
    (Seq<(Seq<char>, SpecValue)>, int),
    ParseError,
>
    decreases ts.len() - p, 0int,
{
    match token_at(ts, p) {
        None => Err(ParseError::UnexpectedEnd),
        Some(SpecToken::RBrace) => Ok((seq![], p + 1)),
        Some(SpecToken::Name(x)) => match parse_value_at(ts, p + 1) {
            Err(e) => Err(e),
            Ok((v, q)) => if advances(ts, p, q) {
                match expect(ts, q, SpecToken::Comma) {
                    Err(e) => Err(e),
                    Ok(r) => match match_arms(ts, r) {
                        Err(e) => Err(e),
                        Ok((rest, s)) => Ok((seq![(x, v)] + rest, s)),
                    },
                }
            } else {
                Err(ParseError::UnexpectedEnd)
            },
        },
        Some(_) => Err(ParseError::UnexpectedToken(p as usize)),
    }
}

/// The variants of a type definition from `p` up to (not including) the
/// closing semicolon: `Variant type`, separated by `|`.
pub open spec fn type_variants(ts: Seq<SpecToken>, p: int) -> Result<
    (Seq<(Seq<char>, SpecRawType)>, int),
    ParseError,
>
    decreases ts.len() - p,
{
    match token_at(ts, p) {
        None => Err(ParseError::UnexpectedEnd),
        Some(SpecToken::SemiColon) => Ok((seq![], p)),
        Some(SpecToken::Name(x)) => match parse_type_at(ts, p + 1) {
            Err(e) => Err(e),
            Ok((t, q)) => match token_at(ts, q) {
                None => Err(ParseError::UnexpectedEnd),
                Some(SpecToken::SemiColon) => Ok((seq![(x, t)], q)),
                Some(SpecToken::Bar) => if advances(ts, p, q) {
                    match type_variants(ts, q + 1) {
                        Err(e) => Err(e),
                        Ok((rest, s)) => Ok((seq![(x, t)] + rest, s)),
                    }
                } else {
                    Err(ParseError::UnexpectedEnd)
                },
                Some(_) => Err(ParseError::UnexpectedToken(q as usize)),
            },
        },
        Some(_) => Err(ParseError::UnexpectedToken(p as usize)),
    }
}

/// `Name = variants` starting at `p` (after the keyword `Type`).
pub open spec fn parse_type_definition_at(ts: Seq<SpecToken>, p: int) -> Result<
    (SpecTypeDefinition, int),
    ParseError,
> {
    match expect_name(ts, p) {
        Err(e) => Err(e),
        Ok(name) => match expect(ts, p + 1, SpecToken::Equals) {
            Err(e) => Err(e),
            Ok(r) => match type_variants(ts, r) {
                Err(e) => Err(e),
                Ok((variants, q)) => Ok((SpecTypeDefinition { name, variants }, q)),
            },
        },
    }
}

/// The definitions from `p` to the end: each is `Type ... ;` or
/// `Let name: type = value;`.
pub open spec fn definitions_from(ts: Seq<SpecToken>, p: int) -> Result<SpecDefinitions, ParseError>
    decreases ts.len() - p,
{
    if p < 0 || p >= ts.len() {
        Ok((seq![], seq![]))
    } else {
        match ts[p] {
            SpecToken::Type => match parse_type_definition_at(ts, p + 1) {
                Err(e) => Err(e),
                Ok((d, q)) => match expect(ts, q, SpecToken::SemiColon) {
                    Err(e) => Err(e),
                    Ok(r) => if advances(ts, p, r) {
                        match definitions_from(ts, r) {
                            Err(e) => Err(e),
                            Ok((tds, cds)) => Ok((seq![d] + tds, cds)),
                        }
                    } else {
                        Err(ParseError::UnexpectedEnd)
                    },
                },
            },
            SpecToken::Let => match expect_name(ts, p + 1) {
                Err(e) => Err(e),
                Ok(x) => match expect(ts, p + 2, SpecToken::Colon) {
                    Err(e) => Err(e),
                    Ok(r) => match parse_type_at(ts, r) {
                        Err(e) => Err(e),
                        Ok((t, q)) => match expect(ts, q, SpecToken::Equals) {
                            Err(e) => Err(e),
                            Ok(r2) => match parse_value_at(ts, r2) {
                                Err(e) => Err(e),
                                Ok((v, q2)) => match expect(ts, q2, SpecToken::SemiColon) {
                                    Err(e) => Err(e),
                                    Ok(r3) => if advances(ts, p, r3) {
                                        match definitions_from(ts, r3) {
                                            Err(e) => Err(e),
                                            Ok((tds, cds)) => Ok((tds, seq![(x, v, t)] + cds)),
                                        }
                                    } else {
                                        Err(ParseError::UnexpectedEnd)
                                    },
                                },
                            },
                        },
                    },
                },
            },
            _ => Err(ParseError::UnexpectedToken(p as usize)),
        }
    }
}

/// The definitions a token sequence stands for.
pub open spec fn spec_parse_definitions(ts: Seq<SpecToken>) -> Result<SpecDefinitions, ParseError> {
    definitions_from(ts, 0)
}


pub open spec fn type_result(r: Result<(RawType, usize), ParseError>) -> Result<(SpecRawType, int), ParseError> {
    match r {
        Ok((t, q)) => Ok((t@, q as int)),
        Err(e) => Err(e),
    }
}

pub open spec fn value_result(r: Result<(Value, usize), ParseError>) -> Result<(SpecValue, int), ParseError> {
    match r {
        Ok((v, q)) => Ok((v@, q as int)),
        Err(e) => Err(e),
    }
}

pub open spec fn position_result(r: Result<usize, ParseError>) -> Result<int, ParseError> {
    match r {
        Ok(q) => Ok(q as int),
        Err(e) => Err(e),
    }
}

pub open spec fn is_punctuation_token(t: Token) -> bool {
    !(t is Name) && !(t is NumberLiteral)
}

proof fn lemma_arms_view_push(arms: Seq<(String, Box<Value>)>, a: (String, Box<Value>))
    ensures
        arms_view(arms.push(a)) == arms_view(arms).push((a.0@, value_view(*a.1))),
    decreases arms.len(),
{
    if arms.len() == 0 {
        assert(arms.push(a).drop_first() =~= Seq::<(String, Box<Value>)>::empty());
        assert(arms_view(arms.push(a).drop_first()) == Seq::<(Seq<char>, SpecValue)>::empty());
        assert(arms_view(arms.push(a)) =~= seq![(a.0@, value_view(*a.1))]);
    } else {
        assert(arms.push(a).drop_first() =~= arms.drop_first().push(a));
        lemma_arms_view_push(arms.drop_first(), a);
        assert(arms_view(arms.push(a)) =~= arms_view(arms).push((a.0@, value_view(*a.1))));
    }
}

/// Whether `t` is the keyword or punctuation token `k`.
fn is_token(t: &Token, k: &Token) -> (b: bool)
    requires
        is_punctuation_token(*k),
    ensures
        b == (t@ == k@),
{
    match k {
        Token::Type => matches!(t, Token::Type),
        Token::Let => matches!(t, Token::Let),
        Token::Match => matches!(t, Token::Match),
        Token::Bar => matches!(t, Token::Bar),
        Token::SemiColon => matches!(t, Token::SemiColon),
        Token::Colon => matches!(t, Token::Colon),
        Token::Equals => matches!(t, Token::Equals),
        Token::Minus => matches!(t, Token::Minus),
        Token::RAngle => matches!(t, Token::RAngle),
        Token::Comma => matches!(t, Token::Comma),
        Token::LParens => matches!(t, Token::LParens),
        Token::RParens => matches!(t, Token::RParens),
        Token::LBrace => matches!(t, Token::LBrace),
        Token::RBrace => matches!(t, Token::RBrace),
        _ => false,
    }
}

/// Whether the token at `p` exists and is `k`.
fn at_is(tokens: &Vec<Token>, p: usize, k: Token) -> (b: bool)
    requires
        is_punctuation_token(k),
    ensures
        b == (token_at(view_tokens(tokens@), p as int) == Some(k@)),
{
    p < tokens.len() && is_token(&tokens[p], &k)
}

fn expect_token(tokens: &Vec<Token>, p: usize, k: Token) -> (res: Result<usize, ParseError>)
    requires
        is_punctuation_token(k),
    ensures
        position_result(res) == expect(view_tokens(tokens@), p as int, k@),
        res matches Ok(q) ==> q == p + 1 && q <= tokens@.len(),
{
    if p >= tokens.len() {
        Err(ParseError::UnexpectedEnd)
    } else if is_token(&tokens[p], &k) {
        Ok(p + 1)
    } else {
        Err(ParseError::UnexpectedToken(p))
    }
}

fn expect_name_token(tokens: &Vec<Token>, p: usize) -> (res: Result<String, ParseError>)
    ensures
        match res {
            Ok(x) => expect_name(view_tokens(tokens@), p as int) == Ok::<Seq<char>, ParseError>(x@),
            Err(e) => expect_name(view_tokens(tokens@), p as int) == Err::<Seq<char>, ParseError>(e),
        },
        res is Ok ==> p < tokens@.len() <= usize::MAX,
{
    if p >= tokens.len() {
        Err(ParseError::UnexpectedEnd)
    } else {
        match &tokens[p] {
            Token::Name(x) => Ok(x.clone()),
            _ => Err(ParseError::UnexpectedToken(p)),
        }
    }
}

fn parse_type(tokens: &Vec<Token>, p: usize) -> (res: Result<(RawType, usize), ParseError>)
    ensures
        type_result(res) == parse_type_at(view_tokens(tokens@), p as int),
        res matches Ok((_, q)) ==> p < q < tokens@.len(),
    decreases tokens@.len() - p, 1int,
{
    let ghost ts = view_tokens(tokens@);
    if p >= tokens.len() {
        return Err(ParseError::UnexpectedEnd);
    }
    match &tokens[p] {
        Token::LParens => {
            if p + 1 >= tokens.len() {
                Err(ParseError::UnexpectedEnd)
            } else if is_token(&tokens[p + 1], &Token::RParens) {
                type_arrow_exec(tokens, RawType::Unit, p + 2)
            } else {
                let (t, q) = parse_type(tokens, p + 1)?;
                let r = expect_token(tokens, q, Token::RParens)?;
                type_arrow_exec(tokens, t, r)
            }
        },
        Token::Name(x) => type_arrow_exec(tokens, RawType::TypeDef(x.clone()), p + 1),
        _ => Err(ParseError::UnexpectedToken(p)),
    }
}

fn type_arrow_exec(tokens: &Vec<Token>, t: RawType, p: usize) -> (res: Result<(RawType, usize), ParseError>)
    requires
        0 < p <= tokens@.len(),
    ensures
        type_result(res) == type_arrow(view_tokens(tokens@), t@, p as int),
        res matches Ok((_, q)) ==> p <= q < tokens@.len(),
    decreases tokens@.len() - p, 0int,
{
    if p >= tokens.len() {
        Err(ParseError::UnexpectedEnd)
    } else if is_token(&tokens[p], &Token::Minus) {
        let r = expect_token(tokens, p + 1, Token::RAngle)?;
        let (ret, q) = parse_type(tokens, r)?;
        Ok((RawType::Function(Box::new(t), Box::new(ret)), q))
    } else {
        Ok((t, p))
    }
}


pub open spec fn arms_result(r: Result<(Vec<(String, Box<Value>)>, usize), ParseError>) -> Result<
    (Seq<(Seq<char>, SpecValue)>, int),
    ParseError,
> {
    match r {
        Ok((arms, q)) => Ok((arms_view(arms@), q as int)),
        Err(e) => Err(e),
    }
}

pub open spec fn variants_result(r: Result<(Vec<(String, RawType)>, usize), ParseError>) -> Result<
    (Seq<(Seq<char>, SpecRawType)>, int),
    ParseError,
> {
    match r {
        Ok((vs, q)) => Ok((variants_view(vs@), q as int)),
        Err(e) => Err(e),
    }
}

pub open spec fn prepend_arms(
    front: Seq<(Seq<char>, SpecValue)>,
    r: Result<(Seq<(Seq<char>, SpecValue)>, int), ParseError>,
) -> Result<(Seq<(Seq<char>, SpecValue)>, int), ParseError> {
    match r {
        Ok((rest, q)) => Ok((front + rest, q)),
        Err(e) => Err(e),
    }
}

pub open spec fn prepend_variants(
    front: Seq<(Seq<char>, SpecRawType)>,
    r: Result<(Seq<(Seq<char>, SpecRawType)>, int), ParseError>,
) -> Result<(Seq<(Seq<char>, SpecRawType)>, int), ParseError> {
    match r {
        Ok((rest, q)) => Ok((front + rest, q)),
        Err(e) => Err(e),
    }
}

pub open spec fn prepend_definitions(
    front: SpecDefinitions,
    r: Result<SpecDefinitions, ParseError>,
) -> Result<SpecDefinitions, ParseError> {
    match r {
        Ok((tds, cds)) => Ok((front.0 + tds, front.1 + cds)),
        Err(e) => Err(e),
    }
}

#[verifier::spinoff_prover]
fn parse_value(tokens: &Vec<Token>, p: usize) -> (res: Result<(Value, usize), ParseError>)
    ensures
        value_result(res) == parse_value_at(view_tokens(tokens@), p as int),
        res matches Ok((_, q)) ==> p < q < tokens@.len(),
    decreases tokens@.len() - p, 1int,
{
    let ghost ts = view_tokens(tokens@);
    if p >= tokens.len() {
        return Err(ParseError::UnexpectedEnd);
    }
    match &tokens[p] {
        Token::NumberLiteral(x) => value_calls_exec(tokens, Value::Number(x.clone()), p + 1),
        Token::LParens => {
            if p + 1 >= tokens.len() {
                Err(ParseError::UnexpectedEnd)
            } else if is_token(&tokens[p + 1], &Token::RParens) {
                value_calls_exec(tokens, Value::Unit, p + 2)
            } else {
                let (v, q) = parse_value(tokens, p + 1)?;
                let r = expect_token(tokens, q, Token::RParens)?;
                value_calls_exec(tokens, v, r)
            }
        },
        Token::Bar => {
            let x = expect_name_token(tokens, p + 1)?;
            if p + 2 >= tokens.len() {
                Err(ParseError::UnexpectedEnd)
            } else if is_token(&tokens[p + 2], &Token::Bar) {
                let (body, q) = parse_value(tokens, p + 3)?;
                value_calls_exec(tokens, Value::FunctionDefinition(x, None, Box::new(body)), q)
            } else if is_token(&tokens[p + 2], &Token::Colon) {
                let (t, q) = parse_type(tokens, p + 3)?;
                let r = expect_token(tokens, q, Token::Bar)?;
                let (body, s) = parse_value(tokens, r)?;
                value_calls_exec(tokens, Value::FunctionDefinition(x, Some(t), Box::new(body)), s)
            } else {
                Err(ParseError::UnexpectedToken(p + 2))
            }
        },
        Token::Match => {
            let (scrutinee, q) = parse_value(tokens, p + 1)?;
            let r = expect_token(tokens, q, Token::LBrace)?;
            let (arms, s) = match_arms_exec(tokens, r)?;
            value_calls_exec(tokens, Value::Match(Box::new(scrutinee), arms), s)
        },
        Token::Name(x) => value_calls_exec(tokens, Value::Constant(x.clone()), p + 1),
        _ => Err(ParseError::UnexpectedToken(p)),
    }
}

fn value_calls_exec(tokens: &Vec<Token>, value: Value, start: usize) -> (res: Result<(Value, usize), ParseError>)
    requires
        0 < start <= tokens@.len(),
    ensures
        value_result(res) == value_calls(view_tokens(tokens@), value@, start as int),
        res matches Ok((_, q)) ==> start <= q < tokens@.len(),
    decreases tokens@.len() - start, 0int,
{
    let ghost ts = view_tokens(tokens@);
    let ghost p0 = start;
    let mut v = value;
    let mut p = start;
    loop
        invariant
            p0 == start,
            0 < p0 <= p <= tokens@.len(),
            ts == view_tokens(tokens@),
            value_calls(ts, value@, p0 as int) == value_calls(ts, v@, p as int),
        decreases tokens@.len() - p,
    {
        if p >= tokens.len() {
            return Err(ParseError::UnexpectedEnd);
        }
        if !is_token(&tokens[p], &Token::LParens) {
            return Ok((v, p));
        }
        let (arg, q) = parse_value(tokens, p + 1)?;
        let r = expect_token(tokens, q, Token::RParens)?;
        v = Value::FunctionCall(Box::new(v), Box::new(arg));
        p = r;
    }
}

fn match_arms_exec(tokens: &Vec<Token>, start: usize) -> (res: Result<(Vec<(String, Box<Value>)>, usize), ParseError>)
    requires
        0 < start <= tokens@.len(),
    ensures
        arms_result(res) == match_arms(view_tokens(tokens@), start as int),
        res matches Ok((_, q)) ==> start < q <= tokens@.len(),
    decreases tokens@.len() - start, 0int,
{
    let ghost ts = view_tokens(tokens@);
    let ghost p0 = start;
    let mut arms: Vec<(String, Box<Value>)> = Vec::new();
    let mut p = start;
    assert(prepend_arms(arms_view(arms@), match_arms(ts, p as int)) == match_arms(ts, p as int)) by {
        assert(arms_view(arms@) == Seq::<(Seq<char>, SpecValue)>::empty());
        match match_arms(ts, p as int) {
            Ok((rest, s)) => {
                assert(arms_view(arms@) + rest =~= rest);
            },
            Err(e) => {},
        }
    }
    loop
        invariant
            p0 == start,
            0 < p0 <= p <= tokens@.len(),
            ts == view_tokens(tokens@),
            match_arms(ts, p0 as int) == prepend_arms(arms_view(arms@), match_arms(ts, p as int)),
        decreases tokens@.len() - p,
    {
        if p >= tokens.len() {
            return Err(ParseError::UnexpectedEnd);
        }
        match &tokens[p] {
            Token::RBrace => {
                assert(arms_view(arms@) + Seq::<(Seq<char>, SpecValue)>::empty() =~= arms_view(arms@));
                return Ok((arms, p + 1));
            },
            Token::Name(x) => {
                let name = x.clone();
                let (v, q) = parse_value(tokens, p + 1)?;
                let r = expect_token(tokens, q, Token::Comma)?;
                let ghost before = arms@;
                let ghost entry = (name, Box::new(v));
                arms.push((name, Box::new(v)));
                proof {
                    lemma_arms_view_push(before, entry);
                    match match_arms(ts, r as int) {
                        Ok((rest, s)) => {
                            assert(arms_view(before) + (seq![(name@, v@)] + rest) =~= arms_view(arms@) + rest);
                        },
                        Err(e) => {},
                    }
                }
                p = r;
            },
            _ => {
                return Err(ParseError::UnexpectedToken(p));
            },
        }
    }
}

fn type_variants_exec(tokens: &Vec<Token>, start: usize) -> (res: Result<(Vec<(String, RawType)>, usize), ParseError>)
    ensures
        variants_result(res) == type_variants(view_tokens(tokens@), start as int),
        res matches Ok((_, q)) ==> start <= q < tokens@.len(),
{
    let ghost ts = view_tokens(tokens@);
    let ghost p0 = start;
    let mut variants: Vec<(String, RawType)> = Vec::new();
    let mut p = start;
    assert(prepend_variants(variants_view(variants@), type_variants(ts, p as int)) == type_variants(ts, p as int)) by {
        assert(variants_view(variants@) =~= Seq::<(Seq<char>, SpecRawType)>::empty());
        match type_variants(ts, p as int) {
            Ok((rest, s)) => {
                assert(variants_view(variants@) + rest =~= rest);
            },
            Err(e) => {},
        }
    }
    loop
        invariant
            p0 == start,
            p0 <= p,
            ts == view_tokens(tokens@),
            type_variants(ts, p0 as int) == prepend_variants(variants_view(variants@), type_variants(ts, p as int)),
        decreases tokens@.len() - p,
    {
        if p >= tokens.len() {
            return Err(ParseError::UnexpectedEnd);
        }
        match &tokens[p] {
            Token::SemiColon => {
                assert(variants_view(variants@) + Seq::<(Seq<char>, SpecRawType)>::empty() =~= variants_view(variants@));
                return Ok((variants, p));
            },
            Token::Name(x) => {
                let name = x.clone();
                let (t, q) = parse_type(tokens, p + 1)?;
                let ghost before = variants@;
                let ghost nt = name@;
                let ghost tt = t@;
                if is_token(&tokens[q], &Token::SemiColon) {
                    variants.push((name, t));
                    assert(variants_view(variants@) =~= variants_view(before) + seq![(nt, tt)]);
                    return Ok((variants, q));
                } else if is_token(&tokens[q], &Token::Bar) {
                    variants.push((name, t));
                    proof {
                        assert(variants_view(variants@) =~= variants_view(before) + seq![(nt, tt)]);
                        match type_variants(ts, q + 1) {
                            Ok((rest, s)) => {
                                assert(variants_view(before) + (seq![(nt, tt)] + rest) =~= variants_view(variants@) + rest);
                            },
                            Err(e) => {},
                        }
                    }
                    p = q + 1;
                } else {
                    return Err(ParseError::UnexpectedToken(q));
                }
            },
            _ => {
                return Err(ParseError::UnexpectedToken(p));
            },
        }
    }
}

fn parse_type_definition(tokens: &Vec<Token>, p: usize) -> (res: Result<(RawTypeDefinition, usize), ParseError>)
    ensures
        match res {
            Ok((d, q)) => parse_type_definition_at(view_tokens(tokens@), p as int) == Ok::<(SpecTypeDefinition, int), ParseError>((d@, q as int)),
            Err(e) => parse_type_definition_at(view_tokens(tokens@), p as int) == Err::<(SpecTypeDefinition, int), ParseError>(e),
        },
        res matches Ok((_, q)) ==> p < q < tokens@.len(),
{
    let name = match expect_name_token(tokens, p) {
        Ok(name) => name,
        Err(e) => {
            return Err(e);
        },
    };
    let r = expect_token(tokens, p + 1, Token::Equals)?;
    let (variants, q) = type_variants_exec(tokens, r)?;
    Ok((RawTypeDefinition { name, variants }, q))
}

/// Parses a program: a sequence of type definitions and constant definitions,
/// each ended by a semicolon. Type definitions and constant definitions are
/// returned separately, each in the order they were written.
#[verifier::spinoff_prover]
pub fn parse_definitions(tokens: &Vec<Token>) -> (res: Result<(Vec<RawTypeDefinition>, Vec<(String, Value, RawType)>), ParseError>)
    ensures
        match res {
            Ok(d) => spec_parse_definitions(view_tokens(tokens@)) == Ok::<SpecDefinitions, ParseError>(definitions_view(d)),
            Err(e) => spec_parse_definitions(view_tokens(tokens@)) == Err::<SpecDefinitions, ParseError>(e),
        },
{
    let ghost ts = view_tokens(tokens@);
    let mut type_definitions: Vec<RawTypeDefinition> = Vec::new();
    let mut const_def: Vec<(String, Value, RawType)> = Vec::new();
    let mut p: usize = 0;
    assert(prepend_definitions(definitions_view((type_definitions, const_def)), definitions_from(ts, 0)) == definitions_from(ts, 0)) by {
        match definitions_from(ts, 0) {
            Ok((tds, cds)) => {
                assert(definitions_view((type_definitions, const_def)).0 + tds =~= tds);
                assert(definitions_view((type_definitions, const_def)).1 + cds =~= cds);
            },
            Err(e) => {},
        }
    }
    loop
        invariant
            p <= tokens@.len(),
            ts == view_tokens(tokens@),
            definitions_from(ts, 0) == prepend_definitions(
                definitions_view((type_definitions, const_def)),
                definitions_from(ts, p as int),
            ),
        decreases tokens@.len() - p,
    {
        let ghost front = definitions_view((type_definitions, const_def));
        if p >= tokens.len() {
            assert(front.0 + Seq::<SpecTypeDefinition>::empty() =~= front.0);
            assert(front.1 + Seq::<(Seq<char>, SpecValue, SpecRawType)>::empty() =~= front.1);
            return Ok((type_definitions, const_def));
        }
        match &tokens[p] {
            Token::Type => {
                let (d, q) = parse_type_definition(tokens, p + 1)?;
                let r = expect_token(tokens, q, Token::SemiColon)?;
                let ghost dv = d@;
                type_definitions.push(d);
                proof {
                    let now = definitions_view((type_definitions, const_def));
                    assert(now.0 =~= front.0 + seq![dv]);
                    assert(now.1 =~= front.1);
                    match definitions_from(ts, r as int) {
                        Ok((tds, cds)) => {
                            assert(front.0 + (seq![dv] + tds) =~= now.0 + tds);
                        },
                        Err(e) => {},
                    }
                }
                p = r;
            },
            Token::Let => {
                let var_name = expect_name_token(tokens, p + 1)?;
                let r = expect_token(tokens, p + 2, Token::Colon)?;
                let (typ, q) = parse_type(tokens, r)?;
                let r2 = expect_token(tokens, q, Token::Equals)?;
                let (val, q2) = parse_value(tokens, r2)?;
                let r3 = expect_token(tokens, q2, Token::SemiColon)?;
                let ghost entry = (var_name@, val@, typ@);
                const_def.push((var_name, val, typ));
                proof {
                    let now = definitions_view((type_definitions, const_def));
                    assert(now.0 =~= front.0);
                    assert(now.1 =~= front.1 + seq![entry]);
                    match definitions_from(ts, r3 as int) {
                        Ok((tds, cds)) => {
                            assert(front.1 + (seq![entry] + cds) =~= now.1 + cds);
                        },
                        Err(e) => {},
                    }
                }
                p = r3;
            },
            _ => {
                return Err(ParseError::UnexpectedToken(p));
            },
        }
    }
}


/// A successful parse result ends at a position in `lo..=hi`.
pub open spec fn ends_in<A>(r: Result<(A, int), ParseError>, lo: int, hi: int) -> bool {
    match r {
        Ok((_, q)) => lo <= q <= hi,
        Err(_) => true,
    }
}

/// What each grammar function guarantees about where a successful parse from `k` ends.
pub open spec fn parse_progress_at(ts: Seq<SpecToken>, k: int) -> bool {
    &&& ends_in(parse_type_at(ts, k), k + 1, ts.len() - 1)
    &&& ends_in(parse_value_at(ts, k), k + 1, ts.len() - 1)
    &&& ends_in(match_arms(ts, k), k + 1, ts.len() as int)
    &&& ends_in(type_variants(ts, k), k, ts.len() - 1)
    &&& forall|t: SpecRawType| ends_in(#[trigger] type_arrow(ts, t, k), k, ts.len() - 1)
    &&& forall|v: SpecValue| ends_in(#[trigger] value_calls(ts, v, k), k, ts.len() - 1)
}

/// Every sub-parse that succeeds ends after it starts and within the tokens,
/// so the `advances` checks in the grammar never reject anything.
pub proof fn lemma_parse_progress(ts: Seq<SpecToken>, p: int)
    ensures
        forall|k: int| p <= k ==> #[trigger] parse_progress_at(ts, k),
    decreases ts.len() - p,
{
    if p < ts.len() {
        lemma_parse_progress(ts, p + 1);
        lemma_progress_types(ts, p);
        lemma_progress_values(ts, p);
        assert forall|k: int| p <= k implies #[trigger] parse_progress_at(ts, k) by {
            if k > p {
                assert(parse_progress_at(ts, k));
            }
        }
    } else {
        assert forall|k: int| p <= k implies #[trigger] parse_progress_at(ts, k) by {
            assert forall|t: SpecRawType| ends_in(#[trigger] type_arrow(ts, t, k), k, ts.len() - 1) by {}
            assert forall|v: SpecValue| ends_in(#[trigger] value_calls(ts, v, k), k, ts.len() - 1) by {}
        }
    }
}

#[verifier::spinoff_prover]
proof fn lemma_progress_types(ts: Seq<SpecToken>, p: int)
    requires
        p < ts.len(),
        forall|k: int| p < k ==> #[trigger] parse_progress_at(ts, k),
    ensures
        ends_in(parse_type_at(ts, p), p + 1, ts.len() - 1),
        ends_in(type_variants(ts, p), p, ts.len() - 1),
        forall|t: SpecRawType| ends_in(#[trigger] type_arrow(ts, t, p), p, ts.len() - 1),
{
    assert forall|t: SpecRawType| ends_in(#[trigger] type_arrow(ts, t, p), p, ts.len() - 1) by {
        if p >= 0 && ts[p] == SpecToken::Minus && p + 2 <= ts.len() {
            assert(parse_progress_at(ts, p + 2));
        }
    }
    if p >= 0 {
        if ts[p] == SpecToken::LParens {
            assert(parse_progress_at(ts, p + 1));
            if p + 2 <= ts.len() {
                assert(parse_progress_at(ts, p + 2));
                assert(ends_in(type_arrow(ts, SpecRawType::Unit, p + 2), p + 2, ts.len() - 1));
            }
            if let Ok((t, q)) = parse_type_at(ts, p + 1) {
                if advances(ts, p, q) && expect(ts, q, SpecToken::RParens) is Ok {
                    assert(parse_progress_at(ts, q + 1));
                    assert(ends_in(type_arrow(ts, t, q + 1), q + 1, ts.len() - 1));
                }
            }
        }
        if let SpecToken::Name(x) = ts[p] {
            assert(parse_progress_at(ts, p + 1));
            assert(ends_in(type_arrow(ts, SpecRawType::TypeDef(x), p + 1), p + 1, ts.len() - 1));
            if let Ok((t, q)) = parse_type_at(ts, p + 1) {
                if token_at(ts, q) == Some(SpecToken::Bar) && advances(ts, p, q) {
                    assert(parse_progress_at(ts, q + 1));
                }
            }
        }
    }
}

#[verifier::spinoff_prover]
proof fn lemma_progress_values(ts: Seq<SpecToken>, p: int)
    requires
        p < ts.len(),
        forall|k: int| p < k ==> #[trigger] parse_progress_at(ts, k),
    ensures
        ends_in(parse_value_at(ts, p), p + 1, ts.len() - 1),
        ends_in(match_arms(ts, p), p + 1, ts.len() as int),
        forall|v: SpecValue| ends_in(#[trigger] value_calls(ts, v, p), p, ts.len() - 1),
{
    assert forall|v: SpecValue| ends_in(#[trigger] value_calls(ts, v, p), p, ts.len() - 1) by {
        if p >= 0 && ts[p] == SpecToken::LParens {
            assert(parse_progress_at(ts, p + 1));
            if let Ok((arg, q)) = parse_value_at(ts, p + 1) {
                if advances(ts, p, q) && expect(ts, q, SpecToken::RParens) is Ok {
                    let w = SpecValue::FunctionCall(Box::new(v), Box::new(arg));
                    assert(parse_progress_at(ts, q + 1));
                    assert(ends_in(value_calls(ts, w, q + 1), q + 1, ts.len() - 1));
                }
            }
        }
    }
    if p >= 0 {
        match ts[p] {
            SpecToken::NumberLiteral(x) => {
                assert(parse_progress_at(ts, p + 1));
                assert(ends_in(value_calls(ts, SpecValue::Number(x), p + 1), p + 1, ts.len() - 1));
            },
            SpecToken::Name(x) => {
                assert(parse_progress_at(ts, p + 1));
                assert(ends_in(value_calls(ts, SpecValue::Constant(x), p + 1), p + 1, ts.len() - 1));
                if let Ok((v, q)) = parse_value_at(ts, p + 1) {
                    if advances(ts, p, q) && expect(ts, q, SpecToken::Comma) is Ok {
                        assert(parse_progress_at(ts, q + 1));
                    }
                }
            },
            SpecToken::LParens => {
                assert(parse_progress_at(ts, p + 1));
                if p + 2 <= ts.len() {
                    assert(parse_progress_at(ts, p + 2));
                    assert(ends_in(value_calls(ts, SpecValue::Unit, p + 2), p + 2, ts.len() - 1));
                }
                if let Ok((v, q)) = parse_value_at(ts, p + 1) {
                    if advances(ts, p, q) && expect(ts, q, SpecToken::RParens) is Ok {
                        assert(parse_progress_at(ts, q + 1));
                        assert(ends_in(value_calls(ts, v, q + 1), q + 1, ts.len() - 1));
                    }
                }
            },
            SpecToken::Bar => {
                if let Ok(x) = expect_name(ts, p + 1) {
                    if token_at(ts, p + 2) == Some(SpecToken::Bar) {
                        if let Ok((body, q)) = parse_value_at(ts, p + 3) {
                            let w = SpecValue::FunctionDefinition(x, None, Box::new(body));
                            if advances(ts, p, q) {
                                assert(parse_progress_at(ts, q));
                                assert(ends_in(value_calls(ts, w, q), q, ts.len() - 1));
                            }
                        }
                    } else if token_at(ts, p + 2) == Some(SpecToken::Colon) {
                        if let Ok((t, q)) = parse_type_at(ts, p + 3) {
                            if let Ok(r) = expect(ts, q, SpecToken::Bar) {
                                if advances(ts, p, r) {
                                    if let Ok((body, s2)) = parse_value_at(ts, r) {
                                        let w = SpecValue::FunctionDefinition(x, Some(t), Box::new(body));
                                        if advances(ts, p, s2) {
                                            assert(parse_progress_at(ts, s2));
                                            assert(ends_in(value_calls(ts, w, s2), s2, ts.len() - 1));
                                        }
                                    }
                                }
                            }
                        }
                    }
                }
            },
            SpecToken::Match => {
                if let Ok((scrutinee, q)) = parse_value_at(ts, p + 1) {
                    if advances(ts, p, q) {
                        if let Ok(r) = expect(ts, q, SpecToken::LBrace) {
                            if let Ok((arms, s2)) = match_arms(ts, r) {
                                let w = SpecValue::Match(Box::new(scrutinee), arms);
                                if advances(ts, p, s2) {
                                    assert(parse_progress_at(ts, s2));
                                    assert(ends_in(value_calls(ts, w, s2), s2, ts.len() - 1));
                                }
                            }
                        }
                    }
                }
            },
            _ => {},
        }
    }
}

/// A successful parse from `k` reads no token past where it ends, so it is
/// the same when more tokens follow.
pub open spec fn parse_extends_at(ts: Seq<SpecToken>, more: Seq<SpecToken>, k: int) -> bool {
    let us = ts + more;
    &&& (parse_type_at(ts, k) is Ok ==> parse_type_at(us, k) == parse_type_at(ts, k))
    &&& (parse_value_at(ts, k) is Ok ==> parse_value_at(us, k) == parse_value_at(ts, k))
    &&& (match_arms(ts, k) is Ok ==> match_arms(us, k) == match_arms(ts, k))
    &&& (type_variants(ts, k) is Ok ==> type_variants(us, k) == type_variants(ts, k))
    &&& forall|t: SpecRawType| #[trigger] type_arrow(ts, t, k) is Ok ==> type_arrow(us, t, k) == type_arrow(ts, t, k)
    &&& forall|v: SpecValue| #[trigger] value_calls(ts, v, k) is Ok ==> value_calls(us, v, k) == value_calls(ts, v, k)
}

proof fn lemma_token_at_extend(ts: Seq<SpecToken>, more: Seq<SpecToken>)
    ensures
        forall|k: int| 0 <= k < ts.len() ==> #[trigger] token_at(ts + more, k) == token_at(ts, k),
        forall|k: int, t: SpecToken| 0 <= k < ts.len() ==> #[trigger] expect(ts + more, k, t) == expect(ts, k, t),
        forall|k: int| 0 <= k < ts.len() ==> #[trigger] expect_name(ts + more, k) == expect_name(ts, k),
{
    assert forall|k: int| 0 <= k < ts.len() implies #[trigger] token_at(ts + more, k) == token_at(ts, k) by {
        assert((ts + more)[k] == ts[k]);
    }
}

pub proof fn lemma_parse_extends(ts: Seq<SpecToken>, more: Seq<SpecToken>, p: int)
    ensures
        forall|k: int| p <= k ==> #[trigger] parse_extends_at(ts, more, k),
    decreases ts.len() - p,
{
    if p < ts.len() {
        lemma_parse_extends(ts, more, p + 1);
        lemma_extends_types(ts, more, p);
        lemma_extends_values(ts, more, p);
        assert forall|k: int| p <= k implies #[trigger] parse_extends_at(ts, more, k) by {
            if k > p {
                assert(parse_extends_at(ts, more, k));
            }
        }
    } else {
        assert forall|k: int| p <= k implies #[trigger] parse_extends_at(ts, more, k) by {
            assert forall|t: SpecRawType| #[trigger] type_arrow(ts, t, k) is Ok implies type_arrow(ts + more, t, k) == type_arrow(ts, t, k) by {}
            assert forall|v: SpecValue| #[trigger] value_calls(ts, v, k) is Ok implies value_calls(ts + more, v, k) == value_calls(ts, v, k) by {}
        }
    }
}

#[verifier::spinoff_prover]
proof fn lemma_extends_types(ts: Seq<SpecToken>, more: Seq<SpecToken>, p: int)
    requires
        p < ts.len(),
        forall|k: int| p < k ==> #[trigger] parse_extends_at(ts, more, k),
    ensures
        parse_type_at(ts, p) is Ok ==> parse_type_at(ts + more, p) == parse_type_at(ts, p),
        type_variants(ts, p) is Ok ==> type_variants(ts + more, p) == type_variants(ts, p),
        forall|t: SpecRawType| #[trigger] type_arrow(ts, t, p) is Ok ==> type_arrow(ts + more, t, p) == type_arrow(ts, t, p),
{
    lemma_token_at_extend(ts, more);
    assert forall|t: SpecRawType| #[trigger] type_arrow(ts, t, p) is Ok implies type_arrow(ts + more, t, p) == type_arrow(ts, t, p) by {
        if p >= 0 && ts[p] == SpecToken::Minus {
            assert(parse_extends_at(ts, more, p + 2));
        }
    }
    if p >= 0 {
        assert((ts + more)[p] == ts[p]);
        if ts[p] == SpecToken::LParens && parse_type_at(ts, p) is Ok {
            assert(token_at(ts + more, p + 1) == token_at(ts, p + 1));
            if token_at(ts, p + 1) == Some(SpecToken::RParens) {
                assert(parse_extends_at(ts, more, p + 2));
                assert(type_arrow(ts + more, SpecRawType::Unit, p + 2) == type_arrow(ts, SpecRawType::Unit, p + 2));
            } else {
                assert(parse_extends_at(ts, more, p + 1));
                let (t, q) = parse_type_at(ts, p + 1)->Ok_0;
                assert(parse_type_at(ts + more, p + 1) == parse_type_at(ts, p + 1));
                assert(expect(ts + more, q, SpecToken::RParens) == expect(ts, q, SpecToken::RParens));
                assert(parse_extends_at(ts, more, q + 1));
                assert(type_arrow(ts + more, t, q + 1) == type_arrow(ts, t, q + 1));
            }
        }
        if let SpecToken::Name(x) = ts[p] {
            assert(parse_extends_at(ts, more, p + 1));
            assert(type_arrow(ts + more, SpecRawType::TypeDef(x), p + 1) == type_arrow(ts, SpecRawType::TypeDef(x), p + 1) || type_arrow(ts, SpecRawType::TypeDef(x), p + 1) is Err);
            if let Ok((t, q)) = parse_type_at(ts, p + 1) {
                if token_at(ts, q) == Some(SpecToken::Bar) && advances(ts, p, q) {
                    assert(parse_extends_at(ts, more, q + 1));
                }
            }
        }
    }
}

#[verifier::spinoff_prover]
proof fn lemma_extends_values(ts: Seq<SpecToken>, more: Seq<SpecToken>, p: int)
    requires
        p < ts.len(),
        forall|k: int| p < k ==> #[trigger] parse_extends_at(ts, more, k),
    ensures
        parse_value_at(ts, p) is Ok ==> parse_value_at(ts + more, p) == parse_value_at(ts, p),
        match_arms(ts, p) is Ok ==> match_arms(ts + more, p) == match_arms(ts, p),
        forall|v: SpecValue| #[trigger] value_calls(ts, v, p) is Ok ==> value_calls(ts + more, v, p) == value_calls(ts, v, p),
{
    lemma_token_at_extend(ts, more);
    assert forall|v: SpecValue| #[trigger] value_calls(ts, v, p) is Ok implies value_calls(ts + more, v, p) == value_calls(ts, v, p) by {
        if p >= 0 && ts[p] == SpecToken::LParens {
            assert(token_at(ts + more, p) == token_at(ts, p));
            assert(parse_extends_at(ts, more, p + 1));
            let (arg, q) = parse_value_at(ts, p + 1)->Ok_0;
            assert(parse_value_at(ts + more, p + 1) == parse_value_at(ts, p + 1));
            assert(advances(ts, p, q));
            assert(expect(ts + more, q, SpecToken::RParens) == expect(ts, q, SpecToken::RParens));
            let w = SpecValue::FunctionCall(Box::new(v), Box::new(arg));
            assert(parse_extends_at(ts, more, q + 1));
            assert(value_calls(ts, w, q + 1) is Ok);
            assert(value_calls(ts + more, w, q + 1) == value_calls(ts, w, q + 1));
        } else if p >= 0 {
            assert(token_at(ts + more, p) == token_at(ts, p));
        }
    }
    if p >= 0 && parse_value_at(ts, p) is Ok {
        assert((ts + more)[p] == ts[p]);
        match ts[p] {
            SpecToken::NumberLiteral(x) => {
                assert(parse_extends_at(ts, more, p + 1));
                assert(value_calls(ts + more, SpecValue::Number(x), p + 1) == value_calls(ts, SpecValue::Number(x), p + 1));
            },
            SpecToken::Name(x) => {
                assert(parse_extends_at(ts, more, p + 1));
                assert(value_calls(ts + more, SpecValue::Constant(x), p + 1) == value_calls(ts, SpecValue::Constant(x), p + 1));
            },
            SpecToken::LParens => {
                assert(token_at(ts + more, p + 1) == token_at(ts, p + 1));
                if token_at(ts, p + 1) == Some(SpecToken::RParens) {
                    assert(parse_extends_at(ts, more, p + 2));
                    assert(value_calls(ts + more, SpecValue::Unit, p + 2) == value_calls(ts, SpecValue::Unit, p + 2));
                } else {
                    assert(parse_extends_at(ts, more, p + 1));
                    let (v, q) = parse_value_at(ts, p + 1)->Ok_0;
                    assert(parse_value_at(ts + more, p + 1) == parse_value_at(ts, p + 1));
                    assert(expect(ts + more, q, SpecToken::RParens) == expect(ts, q, SpecToken::RParens));
                    assert(parse_extends_at(ts, more, q + 1));
                    assert(value_calls(ts + more, v, q + 1) == value_calls(ts, v, q + 1));
                }
            },
            SpecToken::Bar => {
                let x = expect_name(ts, p + 1)->Ok_0;
                assert(expect_name(ts + more, p + 1) == expect_name(ts, p + 1));
                assert(token_at(ts + more, p + 2) == token_at(ts, p + 2));
                if token_at(ts, p + 2) == Some(SpecToken::Bar) {
                    assert(parse_extends_at(ts, more, p + 3));
                    let (body, q) = parse_value_at(ts, p + 3)->Ok_0;
                    assert(parse_value_at(ts + more, p + 3) == parse_value_at(ts, p + 3));
                    let w = SpecValue::FunctionDefinition(x, None, Box::new(body));
                    assert(parse_extends_at(ts, more, q));
                    assert(value_calls(ts + more, w, q) == value_calls(ts, w, q));
                } else {
                    assert(parse_extends_at(ts, more, p + 3));
                    let (t, q) = parse_type_at(ts, p + 3)->Ok_0;
                    assert(parse_type_at(ts + more, p + 3) == parse_type_at(ts, p + 3));
                    assert(expect(ts + more, q, SpecToken::Bar) == expect(ts, q, SpecToken::Bar));
                    let r = q + 1;
                    assert(parse_extends_at(ts, more, r));
                    let (body, s2) = parse_value_at(ts, r)->Ok_0;
                    assert(parse_value_at(ts + more, r) == parse_value_at(ts, r));
                    let w = SpecValue::FunctionDefinition(x, Some(t), Box::new(body));
                    assert(parse_extends_at(ts, more, s2));
                    assert(value_calls(ts + more, w, s2) == value_calls(ts, w, s2));
                }
            },
            SpecToken::Match => {
                assert(parse_extends_at(ts, more, p + 1));
                let (scrutinee, q) = parse_value_at(ts, p + 1)->Ok_0;
                assert(parse_value_at(ts + more, p + 1) == parse_value_at(ts, p + 1));
                assert(expect(ts + more, q, SpecToken::LBrace) == expect(ts, q, SpecToken::LBrace));
                let r = q + 1;
                assert(parse_extends_at(ts, more, r));
                let (arms, s2) = match_arms(ts, r)->Ok_0;
                assert(match_arms(ts + more, r) == match_arms(ts, r));
                let w = SpecValue::Match(Box::new(scrutinee), arms);
                assert(parse_extends_at(ts, more, s2));
                assert(value_calls(ts + more, w, s2) == value_calls(ts, w, s2));
            },
            _ => {},
        }
    }
    if p >= 0 && match_arms(ts, p) is Ok {
        assert(token_at(ts + more, p) == token_at(ts, p));
        if let SpecToken::Name(x) = ts[p] {
            assert(parse_extends_at(ts, more, p + 1));
            let (v, q) = parse_value_at(ts, p + 1)->Ok_0;
            assert(parse_value_at(ts + more, p + 1) == parse_value_at(ts, p + 1));
            assert(expect(ts + more, q, SpecToken::Comma) == expect(ts, q, SpecToken::Comma));
            assert(parse_extends_at(ts, more, q + 1));
            assert(match_arms(ts + more, q + 1) == match_arms(ts, q + 1));
        }
    }
}


/// A parse result with its end position moved by `off`.
pub open spec fn shifted<A>(r: Result<(A, int), ParseError>, off: int) -> Result<(A, int), ParseError> {
    match r {
        Ok((a, q)) => Ok((a, q + off)),
        Err(e) => Err(e),
    }
}

/// A successful parse of `ts` from `k` is the same parse of `pre + ts` from
/// `pre.len() + k`, ending `pre.len()` later.
pub open spec fn parse_shifts_at(pre: Seq<SpecToken>, ts: Seq<SpecToken>, k: int) -> bool {
    let o = pre.len() as int;
    &&& (parse_type_at(ts, k) is Ok ==> parse_type_at(pre + ts, o + k) == shifted(parse_type_at(ts, k), o))
    &&& (parse_value_at(ts, k) is Ok ==> parse_value_at(pre + ts, o + k) == shifted(parse_value_at(ts, k), o))
    &&& (match_arms(ts, k) is Ok ==> match_arms(pre + ts, o + k) == shifted(match_arms(ts, k), o))
    &&& (type_variants(ts, k) is Ok ==> type_variants(pre + ts, o + k) == shifted(type_variants(ts, k), o))
    &&& forall|t: SpecRawType| #[trigger] type_arrow(ts, t, k) is Ok ==> type_arrow(pre + ts, t, o + k) == shifted(type_arrow(ts, t, k), o)
    &&& forall|v: SpecValue| #[trigger] value_calls(ts, v, k) is Ok ==> value_calls(pre + ts, v, o + k) == shifted(value_calls(ts, v, k), o)
    &&& (definitions_from(ts, k) is Ok ==> definitions_from(pre + ts, o + k) == definitions_from(ts, k))
}

proof fn lemma_token_at_shift(pre: Seq<SpecToken>, ts: Seq<SpecToken>)
    ensures
        forall|k: int| 0 <= k ==> #[trigger] token_at(pre + ts, pre.len() + k) == token_at(ts, k),
        forall|k: int, t: SpecToken| 0 <= k && #[trigger] expect(ts, k, t) is Ok ==> expect(pre + ts, pre.len() + k, t) == Ok::<int, ParseError>(pre.len() + k + 1),
        forall|k: int| 0 <= k && #[trigger] expect_name(ts, k) is Ok ==> expect_name(pre + ts, pre.len() + k) == expect_name(ts, k),
{
    assert forall|k: int| 0 <= k implies #[trigger] token_at(pre + ts, pre.len() + k) == token_at(ts, k) by {
        if k < ts.len() {
            assert((pre + ts)[pre.len() + k] == ts[k]);
        }
    }
    assert forall|k: int, t: SpecToken| 0 <= k && #[trigger] expect(ts, k, t) is Ok implies expect(pre + ts, pre.len() + k, t) == Ok::<int, ParseError>(pre.len() + k + 1) by {
        assert((pre + ts)[pre.len() + k] == ts[k]);
    }
    assert forall|k: int| 0 <= k && #[trigger] expect_name(ts, k) is Ok implies expect_name(pre + ts, pre.len() + k) == expect_name(ts, k) by {
        assert((pre + ts)[pre.len() + k] == ts[k]);
    }
}

pub proof fn lemma_parse_shifts(pre: Seq<SpecToken>, ts: Seq<SpecToken>, p: int)
    requires
        0 <= p,
    ensures
        forall|k: int| p <= k ==> #[trigger] parse_shifts_at(pre, ts, k),
    decreases ts.len() - p,
{
    let o = pre.len() as int;
    if p < ts.len() {
        lemma_parse_shifts(pre, ts, p + 1);
        lemma_shifts_types(pre, ts, p);
        lemma_shifts_values(pre, ts, p);
        lemma_shifts_definitions(pre, ts, p);
        assert forall|k: int| p <= k implies #[trigger] parse_shifts_at(pre, ts, k) by {
            if k > p {
                assert(parse_shifts_at(pre, ts, k));
            }
        }
    } else {
        assert forall|k: int| p <= k implies #[trigger] parse_shifts_at(pre, ts, k) by {
            assert forall|t: SpecRawType| #[trigger] type_arrow(ts, t, k) is Ok implies type_arrow(pre + ts, t, o + k) == shifted(type_arrow(ts, t, k), o) by {}
            assert forall|v: SpecValue| #[trigger] value_calls(ts, v, k) is Ok implies value_calls(pre + ts, v, o + k) == shifted(value_calls(ts, v, k), o) by {}
        }
    }
}

#[verifier::spinoff_prover]
proof fn lemma_shifts_types(pre: Seq<SpecToken>, ts: Seq<SpecToken>, p: int)
    requires
        0 <= p < ts.len(),
        forall|k: int| p < k ==> #[trigger] parse_shifts_at(pre, ts, k),
    ensures
        parse_type_at(ts, p) is Ok ==> parse_type_at(pre + ts, pre.len() + p) == shifted(parse_type_at(ts, p), pre.len() as int),
        type_variants(ts, p) is Ok ==> type_variants(pre + ts, pre.len() + p) == shifted(type_variants(ts, p), pre.len() as int),
        forall|t: SpecRawType| #[trigger] type_arrow(ts, t, p) is Ok ==> type_arrow(pre + ts, t, pre.len() + p) == shifted(type_arrow(ts, t, p), pre.len() as int),
{
    let o = pre.len() as int;
    lemma_token_at_shift(pre, ts);
    assert((pre + ts)[o + p] == ts[p]);
    assert(token_at(pre + ts, o + p) == token_at(ts, p));
    assert forall|t: SpecRawType| #[trigger] type_arrow(ts, t, p) is Ok implies type_arrow(pre + ts, t, o + p) == shifted(type_arrow(ts, t, p), o) by {
        if ts[p] == SpecToken::Minus {
            assert(expect(pre + ts, o + p + 1, SpecToken::RAngle) == Ok::<int, ParseError>(o + p + 2));
            assert(parse_shifts_at(pre, ts, p + 2));
            assert(parse_type_at(pre + ts, o + (p + 2)) == shifted(parse_type_at(ts, p + 2), o));
        }
    }
    if parse_type_at(ts, p) is Ok {
        if ts[p] == SpecToken::LParens {
            assert(token_at(pre + ts, o + (p + 1)) == token_at(ts, p + 1));
            if token_at(ts, p + 1) == Some(SpecToken::RParens) {
                assert(parse_shifts_at(pre, ts, p + 2));
                assert(type_arrow(pre + ts, SpecRawType::Unit, o + (p + 2)) == shifted(type_arrow(ts, SpecRawType::Unit, p + 2), o));
            } else {
                assert(parse_shifts_at(pre, ts, p + 1));
                let (t, q) = parse_type_at(ts, p + 1)->Ok_0;
                assert(parse_type_at(pre + ts, o + (p + 1)) == shifted(parse_type_at(ts, p + 1), o));
                assert(expect(pre + ts, o + q, SpecToken::RParens) == Ok::<int, ParseError>(o + q + 1));
                assert(parse_shifts_at(pre, ts, q + 1));
                assert(type_arrow(pre + ts, t, o + (q + 1)) == shifted(type_arrow(ts, t, q + 1), o));
            }
        }
        if let SpecToken::Name(x) = ts[p] {
            assert(parse_shifts_at(pre, ts, p + 1));
            assert(type_arrow(pre + ts, SpecRawType::TypeDef(x), o + (p + 1)) == shifted(type_arrow(ts, SpecRawType::TypeDef(x), p + 1), o));
        }
    }
    if type_variants(ts, p) is Ok {
        if let SpecToken::Name(x) = ts[p] {
            assert(parse_shifts_at(pre, ts, p + 1));
            let (t, q) = parse_type_at(ts, p + 1)->Ok_0;
            assert(parse_type_at(pre + ts, o + (p + 1)) == shifted(parse_type_at(ts, p + 1), o));
            assert(token_at(pre + ts, o + q) == token_at(ts, q));
            if token_at(ts, q) == Some(SpecToken::Bar) {
                assert(parse_shifts_at(pre, ts, q + 1));
                assert(type_variants(pre + ts, o + (q + 1)) == shifted(type_variants(ts, q + 1), o));
            }
        }
    }
}

proof fn lemma_shifts_values(pre: Seq<SpecToken>, ts: Seq<SpecToken>, p: int)
    requires
        0 <= p < ts.len(),
        forall|k: int| p < k ==> #[trigger] parse_shifts_at(pre, ts, k),
    ensures
        parse_value_at(ts, p) is Ok ==> parse_value_at(pre + ts, pre.len() + p) == shifted(parse_value_at(ts, p), pre.len() as int),
        match_arms(ts, p) is Ok ==> match_arms(pre + ts, pre.len() + p) == shifted(match_arms(ts, p), pre.len() as int),
        forall|v: SpecValue| #[trigger] value_calls(ts, v, p) is Ok ==> value_calls(pre + ts, v, pre.len() + p) == shifted(value_calls(ts, v, p), pre.len() as int),
{
    lemma_shifts_calls(pre, ts, p);
    lemma_shifts_arms(pre, ts, p);
    if parse_value_at(ts, p) is Ok {
        if ts[p] == SpecToken::Bar {
            lemma_shifts_function_value(pre, ts, p);
        } else {
            lemma_shifts_other_value(pre, ts, p);
        }
    }
}

#[verifier::spinoff_prover]
proof fn lemma_shifts_calls(pre: Seq<SpecToken>, ts: Seq<SpecToken>, p: int)
    requires
        0 <= p < ts.len(),
        forall|k: int| p < k ==> #[trigger] parse_shifts_at(pre, ts, k),
    ensures
        forall|v: SpecValue| #[trigger] value_calls(ts, v, p) is Ok ==> value_calls(pre + ts, v, pre.len() + p) == shifted(value_calls(ts, v, p), pre.len() as int),
{
    let o = pre.len() as int;
    lemma_token_at_shift(pre, ts);
    assert((pre + ts)[o + p] == ts[p]);
    assert(token_at(pre + ts, o + p) == token_at(ts, p));
    assert forall|v: SpecValue| #[trigger] value_calls(ts, v, p) is Ok implies value_calls(pre + ts, v, o + p) == shifted(value_calls(ts, v, p), o) by {
        if ts[p] == SpecToken::LParens {
            assert(parse_shifts_at(pre, ts, p + 1));
            let (arg, q) = parse_value_at(ts, p + 1)->Ok_0;
            assert(parse_value_at(pre + ts, o + (p + 1)) == shifted(parse_value_at(ts, p + 1), o));
            assert(expect(pre + ts, o + q, SpecToken::RParens) == Ok::<int, ParseError>(o + q + 1));
            let w = SpecValue::FunctionCall(Box::new(v), Box::new(arg));
            assert(parse_shifts_at(pre, ts, q + 1));
            assert(value_calls(ts, w, q + 1) is Ok);
            assert(value_calls(pre + ts, w, o + (q + 1)) == shifted(value_calls(ts, w, q + 1), o));
        }
    }
}

#[verifier::spinoff_prover]
proof fn lemma_shifts_arms(pre: Seq<SpecToken>, ts: Seq<SpecToken>, p: int)
    requires
        0 <= p < ts.len(),
        forall|k: int| p < k ==> #[trigger] parse_shifts_at(pre, ts, k),
    ensures
        match_arms(ts, p) is Ok ==> match_arms(pre + ts, pre.len() + p) == shifted(match_arms(ts, p), pre.len() as int),
{
    let o = pre.len() as int;
    lemma_token_at_shift(pre, ts);
    assert((pre + ts)[o + p] == ts[p]);
    assert(token_at(pre + ts, o + p) == token_at(ts, p));
    if match_arms(ts, p) is Ok {
        if let SpecToken::Name(x) = ts[p] {
            assert(parse_shifts_at(pre, ts, p + 1));
            let (v, q) = parse_value_at(ts, p + 1)->Ok_0;
            assert(parse_value_at(pre + ts, o + (p + 1)) == shifted(parse_value_at(ts, p + 1), o));
            assert(expect(pre + ts, o + q, SpecToken::Comma) == Ok::<int, ParseError>(o + q + 1));
            assert(parse_shifts_at(pre, ts, q + 1));
            assert(match_arms(pre + ts, o + (q + 1)) == shifted(match_arms(ts, q + 1), o));
        }
    }
}

#[verifier::spinoff_prover]
proof fn lemma_shifts_function_value(pre: Seq<SpecToken>, ts: Seq<SpecToken>, p: int)
    requires
        0 <= p < ts.len(),
        ts[p] == SpecToken::Bar,
        parse_value_at(ts, p) is Ok,
        forall|k: int| p < k ==> #[trigger] parse_shifts_at(pre, ts, k),
    ensures
        parse_value_at(pre + ts, pre.len() + p) == shifted(parse_value_at(ts, p), pre.len() as int),
{
    let o = pre.len() as int;
    lemma_token_at_shift(pre, ts);
    assert((pre + ts)[o + p] == ts[p]);
    let x = expect_name(ts, p + 1)->Ok_0;
    assert(expect_name(pre + ts, o + (p + 1)) == expect_name(ts, p + 1));
    assert(token_at(pre + ts, o + (p + 2)) == token_at(ts, p + 2));
    if token_at(ts, p + 2) == Some(SpecToken::Bar) {
        assert(parse_shifts_at(pre, ts, p + 3));
        let (body, q) = parse_value_at(ts, p + 3)->Ok_0;
        assert(parse_value_at(pre + ts, o + (p + 3)) == shifted(parse_value_at(ts, p + 3), o));
        let w = SpecValue::FunctionDefinition(x, None, Box::new(body));
        assert(parse_shifts_at(pre, ts, q));
        assert(value_calls(pre + ts, w, o + q) == shifted(value_calls(ts, w, q), o));
    } else {
        assert(parse_shifts_at(pre, ts, p + 3));
        let (t, q) = parse_type_at(ts, p + 3)->Ok_0;
        assert(parse_type_at(pre + ts, o + (p + 3)) == shifted(parse_type_at(ts, p + 3), o));
        assert(expect(pre + ts, o + q, SpecToken::Bar) == Ok::<int, ParseError>(o + q + 1));
        let r = q + 1;
        assert(parse_shifts_at(pre, ts, r));
        let (body, s2) = parse_value_at(ts, r)->Ok_0;
        assert(parse_value_at(pre + ts, o + r) == shifted(parse_value_at(ts, r), o));
        let w = SpecValue::FunctionDefinition(x, Some(t), Box::new(body));
        assert(parse_shifts_at(pre, ts, s2));
        assert(value_calls(pre + ts, w, o + s2) == shifted(value_calls(ts, w, s2), o));
    }
}

#[verifier::spinoff_prover]
proof fn lemma_shifts_other_value(pre: Seq<SpecToken>, ts: Seq<SpecToken>, p: int)
    requires
        0 <= p < ts.len(),
        ts[p] != SpecToken::Bar,
        parse_value_at(ts, p) is Ok,
        forall|k: int| p < k ==> #[trigger] parse_shifts_at(pre, ts, k),
    ensures
        parse_value_at(pre + ts, pre.len() + p) == shifted(parse_value_at(ts, p), pre.len() as int),
{
    let o = pre.len() as int;
    lemma_token_at_shift(pre, ts);
    assert((pre + ts)[o + p] == ts[p]);
    match ts[p] {
        SpecToken::NumberLiteral(x) => {
            assert(parse_shifts_at(pre, ts, p + 1));
            assert(value_calls(pre + ts, SpecValue::Number(x), o + (p + 1)) == shifted(value_calls(ts, SpecValue::Number(x), p + 1), o));
        },
        SpecToken::Name(x) => {
            assert(parse_shifts_at(pre, ts, p + 1));
            assert(value_calls(pre + ts, SpecValue::Constant(x), o + (p + 1)) == shifted(value_calls(ts, SpecValue::Constant(x), p + 1), o));
        },
        SpecToken::LParens => {
            assert(token_at(pre + ts, o + (p + 1)) == token_at(ts, p + 1));
            if token_at(ts, p + 1) == Some(SpecToken::RParens) {
                assert(parse_shifts_at(pre, ts, p + 2));
                assert(value_calls(pre + ts, SpecValue::Unit, o + (p + 2)) == shifted(value_calls(ts, SpecValue::Unit, p + 2), o));
            } else {
                assert(parse_shifts_at(pre, ts, p + 1));
                let (v, q) = parse_value_at(ts, p + 1)->Ok_0;
                assert(parse_value_at(pre + ts, o + (p + 1)) == shifted(parse_value_at(ts, p + 1), o));
                assert(expect(pre + ts, o + q, SpecToken::RParens) == Ok::<int, ParseError>(o + q + 1));
                assert(parse_shifts_at(pre, ts, q + 1));
                assert(value_calls(pre + ts, v, o + (q + 1)) == shifted(value_calls(ts, v, q + 1), o));
            }
        },
        SpecToken::Match => {
            assert(parse_shifts_at(pre, ts, p + 1));
            let (scrutinee, q) = parse_value_at(ts, p + 1)->Ok_0;
            assert(parse_value_at(pre + ts, o + (p + 1)) == shifted(parse_value_at(ts, p + 1), o));
            assert(expect(pre + ts, o + q, SpecToken::LBrace) == Ok::<int, ParseError>(o + q + 1));
            let r = q + 1;
            assert(parse_shifts_at(pre, ts, r));
            let (arms, s2) = match_arms(ts, r)->Ok_0;
            assert(match_arms(pre + ts, o + r) == shifted(match_arms(ts, r), o));
            let w = SpecValue::Match(Box::new(scrutinee), arms);
            assert(parse_shifts_at(pre, ts, s2));
            assert(value_calls(pre + ts, w, o + s2) == shifted(value_calls(ts, w, s2), o));
        },
        _ => {},
    }
}

proof fn lemma_shifts_definitions(pre: Seq<SpecToken>, ts: Seq<SpecToken>, p: int)
    requires
        0 <= p < ts.len(),
        forall|k: int| p < k ==> #[trigger] parse_shifts_at(pre, ts, k),
    ensures
        definitions_from(ts, p) is Ok ==> definitions_from(pre + ts, pre.len() + p) == definitions_from(ts, p),
{
    if definitions_from(ts, p) is Ok {
        if ts[p] == SpecToken::Type {
            lemma_shifts_type_definition(pre, ts, p);
        } else {
            lemma_shifts_let_definition(pre, ts, p);
        }
    }
}

#[verifier::spinoff_prover]
proof fn lemma_shifts_type_definition(pre: Seq<SpecToken>, ts: Seq<SpecToken>, p: int)
    requires
        0 <= p < ts.len(),
        ts[p] == SpecToken::Type,
        definitions_from(ts, p) is Ok,
        forall|k: int| p < k ==> #[trigger] parse_shifts_at(pre, ts, k),
    ensures
        definitions_from(pre + ts, pre.len() + p) == definitions_from(ts, p),
{
    let o = pre.len() as int;
    let us = pre + ts;
    lemma_token_at_shift(pre, ts);
    assert(us[o + p] == ts[p]);
    let (d, q) = parse_type_definition_at(ts, p + 1)->Ok_0;
    assert(parse_type_definition_at(us, o + (p + 1)) == shifted(parse_type_definition_at(ts, p + 1), o)) by {
        assert(expect_name(us, o + (p + 1)) == expect_name(ts, p + 1));
        assert(expect(us, o + (p + 2), SpecToken::Equals) == Ok::<int, ParseError>(o + p + 3));
        assert(parse_shifts_at(pre, ts, p + 3));
    }
    assert(expect(us, o + q, SpecToken::SemiColon) == Ok::<int, ParseError>(o + q + 1));
    assert(parse_shifts_at(pre, ts, q + 1));
    assert(definitions_from(us, o + (q + 1)) == definitions_from(ts, q + 1));
}

#[verifier::rlimit(40)]
#[verifier::spinoff_prover]
proof fn lemma_shifts_let_definition(pre: Seq<SpecToken>, ts: Seq<SpecToken>, p: int)
    requires
        0 <= p < ts.len(),
        ts[p] != SpecToken::Type,
        definitions_from(ts, p) is Ok,
        forall|k: int| p < k ==> #[trigger] parse_shifts_at(pre, ts, k),
    ensures
        definitions_from(pre + ts, pre.len() + p) == definitions_from(ts, p),
{
    let o = pre.len() as int;
    let us = pre + ts;
    lemma_token_at_shift(pre, ts);
    assert(us[o + p] == ts[p]);
    assert(ts[p] == SpecToken::Let);
    lemma_parse_progress(ts, p);
    assert(parse_progress_at(ts, p + 3));
    assert(expect_name(us, o + (p + 1)) == expect_name(ts, p + 1));
    assert(expect(us, o + (p + 2), SpecToken::Colon) == Ok::<int, ParseError>(o + p + 3));
    assert(parse_shifts_at(pre, ts, p + 3));
    let (t, q) = parse_type_at(ts, p + 3)->Ok_0;
    assert(parse_type_at(us, o + (p + 3)) == shifted(parse_type_at(ts, p + 3), o));
    assert(expect(us, o + q, SpecToken::Equals) == Ok::<int, ParseError>(o + q + 1));
    assert(parse_shifts_at(pre, ts, q + 1));
    let (v, q2) = parse_value_at(ts, q + 1)->Ok_0;
    assert(parse_progress_at(ts, q + 1));
    assert(parse_value_at(us, o + (q + 1)) == shifted(parse_value_at(ts, q + 1), o));
    assert(expect(us, o + q2, SpecToken::SemiColon) == Ok::<int, ParseError>(o + q2 + 1));
    assert(parse_shifts_at(pre, ts, q2 + 1));
    assert(definitions_from(us, o + (q2 + 1)) == definitions_from(ts, q2 + 1));
}

proof fn lemma_prepend_definitions_assoc(a: SpecDefinitions, b: SpecDefinitions, r: Result<SpecDefinitions, ParseError>)
    ensures
        prepend_definitions(a, prepend_definitions(b, r)) == prepend_definitions((a.0 + b.0, a.1 + b.1), r),
{
    if let Ok((t, c)) = r {
        assert(a.0 + (b.0 + t) =~= (a.0 + b.0) + t);
        assert(a.1 + (b.1 + c) =~= (a.1 + b.1) + c);
    }
}

/// One definition at `p`, read in `ts1` and in `ts1 + ts2`: the same, ending at
/// the same position.
proof fn lemma_concat_step(ts1: Seq<SpecToken>, ts2: Seq<SpecToken>, p: int) -> (res: (SpecDefinitions, int))
    requires
        0 <= p < ts1.len(),
        definitions_from(ts1, p) is Ok,
    ensures
        p < res.1 <= ts1.len(),
        definitions_from(ts1, res.1) is Ok,
        definitions_from(ts1, p) == prepend_definitions(res.0, definitions_from(ts1, res.1)),
        definitions_from(ts1 + ts2, p) == prepend_definitions(res.0, definitions_from(ts1 + ts2, res.1)),
{
    let us = ts1 + ts2;
    lemma_token_at_extend(ts1, ts2);
    assert(us[p] == ts1[p]);
    if ts1[p] == SpecToken::Type {
        lemma_concat_type_step(ts1, ts2, p)
    } else {
        lemma_concat_let_step(ts1, ts2, p)
    }
}

#[verifier::spinoff_prover]
proof fn lemma_concat_type_step(ts1: Seq<SpecToken>, ts2: Seq<SpecToken>, p: int) -> (res: (SpecDefinitions, int))
    requires
        0 <= p < ts1.len(),
        ts1[p] == SpecToken::Type,
        definitions_from(ts1, p) is Ok,
    ensures
        p < res.1 <= ts1.len(),
        definitions_from(ts1, res.1) is Ok,
        definitions_from(ts1, p) == prepend_definitions(res.0, definitions_from(ts1, res.1)),
        definitions_from(ts1 + ts2, p) == prepend_definitions(res.0, definitions_from(ts1 + ts2, res.1)),
{
    let us = ts1 + ts2;
    lemma_token_at_extend(ts1, ts2);
    assert(us[p] == ts1[p]);
    let (d, q) = parse_type_definition_at(ts1, p + 1)->Ok_0;
    lemma_parse_extends(ts1, ts2, p + 3);
    assert(parse_extends_at(ts1, ts2, p + 3));
    assert(parse_type_definition_at(us, p + 1) == parse_type_definition_at(ts1, p + 1));
    let r = q + 1;
    let front: SpecDefinitions = (seq![d], seq![]);
    match definitions_from(ts1, r) {
        Ok((t, c)) => {
            assert(Seq::<(Seq<char>, SpecValue, SpecRawType)>::empty() + c =~= c);
        },
        Err(_) => {},
    }
    match definitions_from(us, r) {
        Ok((t, c)) => {
            assert(Seq::<(Seq<char>, SpecValue, SpecRawType)>::empty() + c =~= c);
        },
        Err(_) => {},
    }
    (front, r)
}

#[verifier::rlimit(20)]
#[verifier::spinoff_prover]
proof fn lemma_concat_let_step(ts1: Seq<SpecToken>, ts2: Seq<SpecToken>, p: int) -> (res: (SpecDefinitions, int))
    requires
        0 <= p < ts1.len(),
        ts1[p] != SpecToken::Type,
        definitions_from(ts1, p) is Ok,
    ensures
        p < res.1 <= ts1.len(),
        definitions_from(ts1, res.1) is Ok,
        definitions_from(ts1, p) == prepend_definitions(res.0, definitions_from(ts1, res.1)),
        definitions_from(ts1 + ts2, p) == prepend_definitions(res.0, definitions_from(ts1 + ts2, res.1)),
{
    let us = ts1 + ts2;
    lemma_token_at_extend(ts1, ts2);
    assert(us[p] == ts1[p]);
    assert(ts1[p] == SpecToken::Let);
    lemma_parse_progress(ts1, p + 3);
    lemma_parse_extends(ts1, ts2, p + 3);
    let x = expect_name(ts1, p + 1)->Ok_0;
    assert(parse_extends_at(ts1, ts2, p + 3));
    let (t, q) = parse_type_at(ts1, p + 3)->Ok_0;
    assert(parse_type_at(us, p + 3) == parse_type_at(ts1, p + 3));
    assert(parse_progress_at(ts1, p + 3));
    assert(parse_extends_at(ts1, ts2, q + 1));
    let (v, q2) = parse_value_at(ts1, q + 1)->Ok_0;
    assert(parse_value_at(us, q + 1) == parse_value_at(ts1, q + 1));
    assert(parse_progress_at(ts1, q + 1));
    let r = q2 + 1;
    let front: SpecDefinitions = (seq![], seq![(x, v, t)]);
    match definitions_from(ts1, r) {
        Ok((tt, c)) => {
            assert(Seq::<SpecTypeDefinition>::empty() + tt =~= tt);
        },
        Err(_) => {},
    }
    match definitions_from(us, r) {
        Ok((tt, c)) => {
            assert(Seq::<SpecTypeDefinition>::empty() + tt =~= tt);
        },
        Err(_) => {},
    }
    (front, r)
}

proof fn lemma_definitions_concat_from(ts1: Seq<SpecToken>, ts2: Seq<SpecToken>, p: int)
    requires
        0 <= p <= ts1.len(),
        definitions_from(ts1, p) is Ok,
    ensures
        definitions_from(ts1 + ts2, p) == prepend_definitions(
            definitions_from(ts1, p)->Ok_0,
            definitions_from(ts1 + ts2, ts1.len() as int),
        ),
    decreases ts1.len() - p,
{
    let us = ts1 + ts2;
    if p == ts1.len() {
        match definitions_from(us, p) {
            Ok((tds, cds)) => {
                assert(Seq::<SpecTypeDefinition>::empty() + tds =~= tds);
                assert(Seq::<(Seq<char>, SpecValue, SpecRawType)>::empty() + cds =~= cds);
            },
            Err(_) => {},
        }
    } else {
        let (front, r) = lemma_concat_step(ts1, ts2, p);
        lemma_definitions_concat_from(ts1, ts2, r);
        let rest = definitions_from(us, ts1.len() as int);
        let later = definitions_from(ts1, r)->Ok_0;
        lemma_prepend_definitions_assoc(front, later, rest);
    }
}

/// Definitions are read one after another, each independent of the others:
/// if two token sequences are programs, so is the one followed by the other,
/// and its definitions are those of the first followed by those of the second.
pub proof fn lemma_definitions_concatenate(ts1: Seq<SpecToken>, ts2: Seq<SpecToken>)
    requires
        spec_parse_definitions(ts1) is Ok,
        spec_parse_definitions(ts2) is Ok,
    ensures
        spec_parse_definitions(ts1 + ts2) == Ok::<SpecDefinitions, ParseError>(
            (
                spec_parse_definitions(ts1)->Ok_0.0 + spec_parse_definitions(ts2)->Ok_0.0,
                spec_parse_definitions(ts1)->Ok_0.1 + spec_parse_definitions(ts2)->Ok_0.1,
            ),
        ),
{
    lemma_definitions_concat_from(ts1, ts2, 0);
    lemma_parse_shifts(ts1, ts2, 0);
    assert(parse_shifts_at(ts1, ts2, 0));
    assert(ts1.len() + 0 == ts1.len());
}


/// Two program texts joined by a blank are a program whose definitions are
/// those of the first text followed by those of the second.
pub proof fn lemma_program_texts_concatenate(a: Seq<char>, c: char, b: Seq<char>)
    requires
        is_blank(c),
        spec_tokenize(a) is Ok,
        spec_tokenize(b) is Ok,
        spec_parse_definitions(spec_tokenize(a)->Ok_0) is Ok,
        spec_parse_definitions(spec_tokenize(b)->Ok_0) is Ok,
    ensures
        ({
            let da = spec_parse_definitions(spec_tokenize(a)->Ok_0)->Ok_0;
            let db = spec_parse_definitions(spec_tokenize(b)->Ok_0)->Ok_0;
            &&& spec_tokenize(a + seq![c] + b) is Ok
            &&& spec_parse_definitions(spec_tokenize(a + seq![c] + b)->Ok_0) == Ok::<SpecDefinitions, ParseError>(
                (da.0 + db.0, da.1 + db.1),
            )
        }),
{
    lemma_tokenize_blank_separates(a, c, b);
    lemma_definitions_concatenate(spec_tokenize(a)->Ok_0, spec_tokenize(b)->Ok_0);
}



/// How a type is read: a name, `()` or a parenthesised type stands for itself
/// when no arrow follows; when `-> R` follows, the whole is the function type
/// from that type (the parameter, left of the arrow) to the type `R` (the
/// result), whatever token the left type starts with.
pub proof fn lemma_parse_type_shapes(ts: Seq<SpecToken>, p: int)
    requires
        0 <= p,
    ensures
        p + 1 < ts.len() && ts[p] is Name && ts[p + 1] != SpecToken::Minus ==> parse_type_at(ts, p)
            == Ok::<(SpecRawType, int), ParseError>((SpecRawType::TypeDef(ts[p]->Name_0), p + 1)),
        p + 2 < ts.len() && ts[p] is Name && ts[p + 1] == SpecToken::Minus && ts[p + 2] == SpecToken::RAngle
            && parse_type_at(ts, p + 3) is Ok ==> parse_type_at(ts, p) == Ok::<(SpecRawType, int), ParseError>(
            (
                SpecRawType::Function(
                    Box::new(SpecRawType::TypeDef(ts[p]->Name_0)),
                    Box::new(parse_type_at(ts, p + 3)->Ok_0.0),
                ),
                parse_type_at(ts, p + 3)->Ok_0.1,
            ),
        ),
        p + 2 < ts.len() && ts[p] == SpecToken::LParens && ts[p + 1] == SpecToken::RParens && ts[p + 2]
            != SpecToken::Minus ==> parse_type_at(ts, p) == Ok::<(SpecRawType, int), ParseError>(
            (SpecRawType::Unit, p + 2),
        ),
        p + 4 < ts.len() && ts[p] == SpecToken::LParens && ts[p + 1] == SpecToken::RParens && ts[p + 2]
            == SpecToken::Minus && ts[p + 3] == SpecToken::RAngle && parse_type_at(ts, p + 4) is Ok
            ==> parse_type_at(ts, p) == Ok::<(SpecRawType, int), ParseError>(
            (
                SpecRawType::Function(Box::new(SpecRawType::Unit), Box::new(parse_type_at(ts, p + 4)->Ok_0.0)),
                parse_type_at(ts, p + 4)->Ok_0.1,
            ),
        ),
        ({
            let inner = parse_type_at(ts, p + 1);
            let q = inner->Ok_0.1;
            p + 1 < ts.len() && ts[p] == SpecToken::LParens && ts[p + 1] != SpecToken::RParens && inner is Ok
                && q + 1 < ts.len() && ts[q] == SpecToken::RParens && ts[q + 1] != SpecToken::Minus
                ==> parse_type_at(ts, p) == Ok::<(SpecRawType, int), ParseError>((inner->Ok_0.0, q + 1))
        }),
        ({
            let inner = parse_type_at(ts, p + 1);
            let q = inner->Ok_0.1;
            p + 1 < ts.len() && ts[p] == SpecToken::LParens && ts[p + 1] != SpecToken::RParens && inner is Ok
                && q + 2 < ts.len() && ts[q] == SpecToken::RParens && ts[q + 1] == SpecToken::Minus && ts[q
                + 2] == SpecToken::RAngle && parse_type_at(ts, q + 3) is Ok ==> parse_type_at(ts, p) == Ok::<
                (SpecRawType, int),
                ParseError,
            >(
                (
                    SpecRawType::Function(
                        Box::new(inner->Ok_0.0),
                        Box::new(parse_type_at(ts, q + 3)->Ok_0.0),
                    ),
                    parse_type_at(ts, q + 3)->Ok_0.1,
                ),
            )
        }),
{
    lemma_parse_progress(ts, p);
    assert(parse_progress_at(ts, p + 1));
    if p < ts.len() && ts[p] is Name {
        let x = ts[p]->Name_0;
        assert(parse_type_at(ts, p) == type_arrow(ts, SpecRawType::TypeDef(x), p + 1));
    }
    if p + 1 < ts.len() && ts[p] == SpecToken::LParens && ts[p + 1] == SpecToken::RParens {
        assert(parse_type_at(ts, p) == type_arrow(ts, SpecRawType::Unit, p + 2));
    }
    if p + 1 < ts.len() && ts[p] == SpecToken::LParens && ts[p + 1] != SpecToken::RParens && parse_type_at(
        ts,
        p + 1,
    ) is Ok {
        let (t, q) = parse_type_at(ts, p + 1)->Ok_0;
        assert(p + 1 < q);
        if q < ts.len() && ts[q] == SpecToken::RParens {
            assert(parse_type_at(ts, p) == type_arrow(ts, t, q + 1));
        }
    }
}

} // verus!
