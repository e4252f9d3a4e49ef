//! The parser: walks the token stream by position and builds the statement
//! list, resolving literal texts into typed values. It trusts the adjacency
//! the lexer guarantees and only checks what it reads positionally; a read
//! past the end of the given range is a fault, as is an unknown type name or
//! a literal that does not match its declared type.
use vstd::prelude::*;
use crate::tokens::{Token, TokenM, TokenType, token_views};
use crate::ast::{
    ArgumentDef, ArgumentDefM, LexType, NodeM, Type, Value, ValueM, argdef_views, node_views,
    value_views, clone_chars, lemma_node_views_cons,
};
use crate::literals::{
    copy_range, eq_false_text, eq_true_text, float_canon, float_canonical, int_lit_val, is_false_text,
    is_float_lit, is_int_lit, is_true_text, parse_int,
};

verus! {

/// What stops a parse. The system is crash-only: the first fault ends the
/// whole run.
#[derive(Clone, Copy, Debug, PartialEq, Eq, Structural)]
pub enum ParseError {
    /// A statement ran past the end of the tokens it was given.
    Truncated,
    /// A declared type name is none of `int`, `string`, `bool`, `float`.
    UnknownType,
    /// A literal declared `int` is not a well-formed integer.
    BadIntLiteral,
    /// A literal declared `float` is not a well-formed float.
    BadFloatLiteral,
}

pub open spec fn int_name() -> Seq<char> {
    seq!['i', 'n', 't']
}

pub open spec fn string_name() -> Seq<char> {
    seq!['s', 't', 'r', 'i', 'n', 'g']
}

pub open spec fn bool_name() -> Seq<char> {
    seq!['b', 'o', 'o', 'l']
}

pub open spec fn float_name() -> Seq<char> {
    seq!['f', 'l', 'o', 'a', 't']
}

/// Resolves a declared type name.
pub open spec fn spec_type_name(s: Seq<char>) -> Option<Type> {
    if s == int_name() {
        Some(Type::Int)
    } else if s == string_name() {
        Some(Type::Str)
    } else if s == bool_name() {
        Some(Type::Bool)
    } else if s == float_name() {
        Some(Type::Float)
    } else {
        None
    }
}

/// Converts a variable literal according to its declared type. A `bool`
/// literal is `true` exactly when its text is `true`; any other text gives
/// `false`.
pub open spec fn spec_convert(t: Type, s: Seq<char>) -> Result<ValueM, ParseError> {
    match t {
        Type::Str => Ok(ValueM::Str(s)),
        Type::Int => if is_int_lit(s) {
            Ok(ValueM::Int(int_lit_val(s) as i64))
        } else {
            Err(ParseError::BadIntLiteral)
        },
        Type::Float => if is_float_lit(s) {
            Ok(ValueM::Float(float_canon(s)))
        } else {
            Err(ParseError::BadFloatLiteral)
        },
        Type::Bool => Ok(ValueM::Bool(is_true_text(s))),
    }
}

/// Resolves a bare call argument: first as an integer, then as a float, then
/// as a boolean, else as a string.
pub open spec fn spec_infer(s: Seq<char>) -> ValueM {
    if is_int_lit(s) {
        ValueM::Int(int_lit_val(s) as i64)
    } else if is_float_lit(s) {
        ValueM::Float(float_canon(s))
    } else if is_true_text(s) {
        ValueM::Bool(true)
    } else if is_false_text(s) {
        ValueM::Bool(false)
    } else {
        ValueM::Str(s)
    }
}

/// Index of the first scope-end token at or after `from`, or `end` when
/// there is none before `end`.
pub open spec fn scope_end_index(toks: Seq<TokenM>, from: int, end: int) -> int
    decreases end - from,
{
    if from >= end {
        end
    } else if toks[from].token_type == TokenType::TokenScopeEnd {
        from
    } else {
        scope_end_index(toks, from + 1, end)
    }
}

/// The parameter run of a function header: consecutive key/value token
/// pairs, each resolved to a typed parameter. Returns the parameters and the
/// position right after the run.
pub open spec fn spec_params(toks: Seq<TokenM>, i: int, end: int) -> Result<
    (Seq<ArgumentDefM>, int),
    ParseError,
>
    decreases end - i,
{
    if i >= end {
        Err(ParseError::Truncated)
    } else if toks[i].token_type != TokenType::TokenFunArgKey {
        Ok((Seq::empty(), i))
    } else if i + 1 >= end {
        Err(ParseError::Truncated)
    } else if toks[i + 1].token_type != TokenType::TokenFunArgValue {
        Ok((Seq::empty(), i))
    } else {
        match spec_type_name(toks[i + 1].value) {
            None => Err(ParseError::UnknownType),
            Some(t) => match spec_params(toks, i + 2, end) {
                Err(e) => Err(e),
                Ok((rest, next)) => Ok(
                    (seq![ArgumentDefM { name: toks[i].value, argtype: t }] + rest, next),
                ),
            },
        }
    }
}

/// The argument run of a call: consecutive call-argument tokens, each
/// resolved by literal inference. Returns the values and the position of the
/// first token after the run, which is always inside the range.
pub open spec fn spec_call_args(toks: Seq<TokenM>, i: int, end: int) -> Result<
    (Seq<ValueM>, int),
    ParseError,
>
    decreases end - i,
{
    if i >= end {
        Err(ParseError::Truncated)
    } else if toks[i].token_type != TokenType::TokenFunCallArg {
        Ok((Seq::empty(), i))
    } else {
        match spec_call_args(toks, i + 1, end) {
            Err(e) => Err(e),
            Ok((rest, next)) => Ok((seq![spec_infer(toks[i].value)] + rest, next)),
        }
    }
}

/// The statements of the token range `[i, end)`.
///
/// A function declaration consumes its name, its parameter run and its body
/// up to the next scope-end token, and parses the body recursively. A
/// variable declaration reads its type name and literal from the two
/// following tokens and then skips over the separator. A call strips the
/// call marker from its name and consumes its argument run. Any other token
/// is skipped without producing a statement.
pub open spec fn spec_parse(toks: Seq<TokenM>, i: int, end: int) -> Result<Seq<NodeM>, ParseError>
    decreases end - i via spec_parse_decreases
{
    if i >= end {
        Ok(Seq::empty())
    } else {
        let t = toks[i];
        if t.token_type == TokenType::TokenFunStart {
            if i + 1 >= end {
                Err(ParseError::Truncated)
            } else if toks[i + 1].token_type != TokenType::TokenFunName {
                spec_parse(toks, i + 2, end)
            } else {
                let name = toks[i + 1].value;
                match spec_params(toks, i + 2, end) {
                    Err(e) => Err(e),
                    Ok((params, next)) => {
                        let j = scope_end_index(toks, next, end);
                        if j >= end {
                            Err(ParseError::Truncated)
                        } else {
                            match spec_parse(toks, next, j) {
                                Err(e) => Err(e),
                                Ok(body) => match spec_parse(toks, j + 1, end) {
                                    Err(e) => Err(e),
                                    Ok(rest) => Ok(
                                        seq![NodeM::Function(name, params, body)] + rest,
                                    ),
                                },
                            }
                        }
                    },
                }
            }
        } else if t.token_type == TokenType::TokenVarName {
            if i + 2 >= end {
                Err(ParseError::Truncated)
            } else {
                match spec_type_name(toks[i + 1].value) {
                    None => Err(ParseError::UnknownType),
                    Some(ty) => match spec_convert(ty, toks[i + 2].value) {
                        Err(e) => Err(e),
                        Ok(v) => {
                            let nxt = if i + 4 <= end {
                                i + 4
                            } else {
                                end
                            };
                            match spec_parse(toks, nxt, end) {
                                Err(e) => Err(e),
                                Ok(rest) => Ok(
                                    seq![NodeM::Variable(t.value, ty, v)] + rest,
                                ),
                            }
                        },
                    },
                }
            }
        } else if t.token_type == TokenType::TokenFunCall {
            let name = if t.value.len() >= 1 {
                t.value.skip(1)
            } else {
                t.value
            };
            match spec_call_args(toks, i + 1, end) {
                Err(e) => Err(e),
                Ok((args, next)) => match spec_parse(toks, next + 1, end) {
                    Err(e) => Err(e),
                    Ok(rest) => Ok(seq![NodeM::FunctionCall(name, args)] + rest),
                },
            }
        } else {
            spec_parse(toks, i + 1, end)
        }
    }
}

#[via_fn]
proof fn spec_parse_decreases(toks: Seq<TokenM>, i: int, end: int) {
    lemma_spec_params_bounds(toks, i + 2, end);
    lemma_spec_call_args_bounds(toks, i + 1, end);
    if i < end && toks[i].token_type == TokenType::TokenFunStart && i + 1 < end && toks[i
        + 1].token_type == TokenType::TokenFunName {
        match spec_params(toks, i + 2, end) {
            Ok(p) => {
                lemma_scope_end_bounds(toks, p.1, end);
            },
            _ => {},
        }
    }
}

/// Bounds of the positions the runs report.
pub proof fn lemma_spec_params_bounds(toks: Seq<TokenM>, i: int, end: int)
    ensures
        spec_params(toks, i, end) matches Ok(p) ==> i <= p.1 < end,
    decreases end - i,
{
    if i < end && toks[i].token_type == TokenType::TokenFunArgKey && i + 1 < end && toks[i
        + 1].token_type == TokenType::TokenFunArgValue {
        lemma_spec_params_bounds(toks, i + 2, end);
    }
}

pub proof fn lemma_spec_call_args_bounds(toks: Seq<TokenM>, i: int, end: int)
    ensures
        spec_call_args(toks, i, end) matches Ok(p) ==> i <= p.1 < end,
    decreases end - i,
{
    if i < end && toks[i].token_type == TokenType::TokenFunCallArg {
        lemma_spec_call_args_bounds(toks, i + 1, end);
    }
}

pub proof fn lemma_scope_end_bounds(toks: Seq<TokenM>, from: int, end: int)
    requires
        from <= end,
    ensures
        from <= scope_end_index(toks, from, end) <= end,
    decreases end - from,
{
    if from < end && toks[from].token_type != TokenType::TokenScopeEnd {
        lemma_scope_end_bounds(toks, from + 1, end);
    }
}

/// Resolves a declared type name.
fn resolve_type(s: &Vec<char>) -> (r: Option<Type>)
    ensures
        r == spec_type_name(s@),
{
    if s.len() == 3 && s[0] == 'i' && s[1] == 'n' && s[2] == 't' {
        proof {
            assert(s@ =~= int_name());
        }
        return Some(Type::Int);
    }
    if s.len() == 6 && s[0] == 's' && s[1] == 't' && s[2] == 'r' && s[3] == 'i' && s[4] == 'n'
        && s[5] == 'g' {
        proof {
            assert(s@ =~= string_name());
        }
        return Some(Type::Str);
    }
    if s.len() == 4 && s[0] == 'b' && s[1] == 'o' && s[2] == 'o' && s[3] == 'l' {
        proof {
            assert(s@ =~= bool_name());
        }
        return Some(Type::Bool);
    }
    if s.len() == 5 && s[0] == 'f' && s[1] == 'l' && s[2] == 'o' && s[3] == 'a' && s[4] == 't' {
        proof {
            assert(s@ =~= float_name());
        }
        return Some(Type::Float);
    }
    proof {
        assert(s@ != int_name());
        assert(s@ != string_name());
        assert(s@ != bool_name());
        assert(s@ != float_name());
    }
    None
}

/// Converts a variable literal according to its declared type.
fn convert_value(t: Type, s: &Vec<char>) -> (r: Result<Value, ParseError>)
    ensures
        match r {
            Ok(v) => spec_convert(t, s@) == Ok::<ValueM, ParseError>(v@),
            Err(e) => spec_convert(t, s@) == Err::<ValueM, ParseError>(e),
        },
{
    match t {
        Type::Str => Ok(Value::Str(clone_chars(s))),
        Type::Int => match parse_int(s) {
            Some(n) => Ok(Value::Int(n)),
            None => Err(ParseError::BadIntLiteral),
        },
        Type::Float => match float_canonical(s) {
            Some(v) => Ok(Value::Float(v)),
            None => Err(ParseError::BadFloatLiteral),
        },
        Type::Bool => Ok(Value::Bool(eq_true_text(s))),
    }
}

/// Resolves a bare call argument by literal inference.
fn infer_value(s: &Vec<char>) -> (r: Value)
    ensures
        r@ == spec_infer(s@),
{
    match parse_int(s) {
        Some(n) => Value::Int(n),
        None => match float_canonical(s) {
            Some(v) => Value::Float(v),
            None => {
                if eq_true_text(s) {
                    Value::Bool(true)
                } else if eq_false_text(s) {
                    Value::Bool(false)
                } else {
                    Value::Str(clone_chars(s))
                }
            },
        },
    }
}

/// The parameter run of a function header.
fn parse_params(toks: &Vec<Token>, i: usize, end: usize) -> (r: Result<
    (Vec<ArgumentDef>, usize),
    ParseError,
>)
    requires
        i <= end <= toks@.len(),
    ensures
        match r {
            Ok(p) => spec_params(token_views(toks@), i as int, end as int) == Ok::<
                (Seq<ArgumentDefM>, int),
                ParseError,
            >((argdef_views(p.0@), p.1 as int)) && i <= p.1 < end,
            Err(e) => spec_params(token_views(toks@), i as int, end as int) == Err::<
                (Seq<ArgumentDefM>, int),
                ParseError,
            >(e),
        },
    decreases end - i,
{
    let ghost tv = token_views(toks@);
    proof {
        assert(tv.len() == toks@.len());
        if i < end {
            assert(tv[i as int] == toks@[i as int]@);
        }
        if i + 1 < end {
            assert(tv[i + 1] == toks@[i + 1]@);
        }
    }
    if i >= end {
        return Err(ParseError::Truncated);
    }
    if !(toks[i].token_type == TokenType::TokenFunArgKey) {
        proof {
            assert(argdef_views(Seq::<ArgumentDef>::empty()) =~= Seq::<ArgumentDefM>::empty());
        }
        return Ok((Vec::new(), i));
    }
    if end - i <= 1 {
        return Err(ParseError::Truncated);
    }
    if !(toks[i + 1].token_type == TokenType::TokenFunArgValue) {
        proof {
            assert(argdef_views(Seq::<ArgumentDef>::empty()) =~= Seq::<ArgumentDefM>::empty());
        }
        return Ok((Vec::new(), i));
    }
    match resolve_type(&toks[i + 1].value) {
        None => Err(ParseError::UnknownType),
        Some(t) => {
            match parse_params(toks, i + 2, end) {
                Err(e) => Err(e),
                Ok((mut rest, next)) => {
                    let name = clone_chars(&toks[i].value);
                    let d = ArgumentDef { name, argtype: t };
                    let ghost restv = argdef_views(rest@);
                    rest.insert(0, d);
                    proof {
                        assert(argdef_views(rest@) =~= seq![
                            ArgumentDefM { name: tv[i as int].value, argtype: t },
                        ] + restv);
                    }
                    Ok((rest, next))
                },
            }
        },
    }
}

/// The argument run of a call.
fn parse_call_args(toks: &Vec<Token>, i: usize, end: usize) -> (r: Result<
    (Vec<Value>, usize),
    ParseError,
>)
    requires
        i <= end <= toks@.len(),
    ensures
        match r {
            Ok(p) => spec_call_args(token_views(toks@), i as int, end as int) == Ok::<
                (Seq<ValueM>, int),
                ParseError,
            >((value_views(p.0@), p.1 as int)) && i <= p.1 < end,
            Err(e) => spec_call_args(token_views(toks@), i as int, end as int) == Err::<
                (Seq<ValueM>, int),
                ParseError,
            >(e),
        },
    decreases end - i,
{
    let ghost tv = token_views(toks@);
    proof {
        assert(tv.len() == toks@.len());
        if i < end {
            assert(tv[i as int] == toks@[i as int]@);
        }
    }
    if i >= end {
        return Err(ParseError::Truncated);
    }
    if !(toks[i].token_type == TokenType::TokenFunCallArg) {
        proof {
            assert(value_views(Seq::<Value>::empty()) =~= Seq::<ValueM>::empty());
        }
        return Ok((Vec::new(), i));
    }
    let v = infer_value(&toks[i].value);
    match parse_call_args(toks, i + 1, end) {
        Err(e) => Err(e),
        Ok((mut rest, next)) => {
            let ghost restv = value_views(rest@);
            rest.insert(0, v);
            proof {
                assert(value_views(rest@) =~= seq![spec_infer(tv[i as int].value)] + restv);
            }
            Ok((rest, next))
        },
    }
}

/// Finds the next scope-end token.
fn find_scope_end(toks: &Vec<Token>, from: usize, end: usize) -> (r: usize)
    requires
        from <= end <= toks@.len(),
    ensures
        r as int == scope_end_index(token_views(toks@), from as int, end as int),
        from <= r <= end,
{
    let ghost tv = token_views(toks@);
    let mut j = from;
    while j < end
        invariant
            from <= j <= end <= toks@.len(),
            tv == token_views(toks@),
            scope_end_index(tv, from as int, end as int) == scope_end_index(
                tv,
                j as int,
                end as int,
            ),
        decreases end - j,
    {
        proof {
            assert(tv[j as int] == toks@[j as int]@);
        }
        if toks[j].token_type == TokenType::TokenScopeEnd {
            return j;
        }
        j = j + 1;
    }
    j
}

/// The statements of the token range `[i, end)`.
#[verifier::rlimit(60)]
fn parse_range(toks: &Vec<Token>, i: usize, end: usize) -> (r: Result<Vec<LexType>, ParseError>)
    requires
        i <= end <= toks@.len(),
    ensures
        match r {
            Ok(nodes) => spec_parse(token_views(toks@), i as int, end as int) == Ok::<
                Seq<NodeM>,
                ParseError,
            >(node_views(nodes@)),
            Err(e) => spec_parse(token_views(toks@), i as int, end as int) == Err::<
                Seq<NodeM>,
                ParseError,
            >(e),
        },
    decreases end - i,
{
    let ghost tv = token_views(toks@);
    proof {
        assert(tv.len() == toks@.len());
        if i < end {
            assert(tv[i as int] == toks@[i as int]@);
        }
        if i + 1 < end {
            assert(tv[i + 1] == toks@[i + 1]@);
        }
        if i + 2 < end {
            assert(tv[i + 2] == toks@[i + 2]@);
        }
    }
    if i >= end {
        let nodes: Vec<LexType> = Vec::new();
        proof {
            assert(node_views(nodes@) =~= Seq::<NodeM>::empty());
        }
        return Ok(nodes);
    }
    if toks[i].token_type == TokenType::TokenFunStart {
        if end - i <= 1 {
            return Err(ParseError::Truncated);
        }
        if !(toks[i + 1].token_type == TokenType::TokenFunName) {
            return parse_range(toks, i + 2, end);
        }
        let name = clone_chars(&toks[i + 1].value);
        match parse_params(toks, i + 2, end) {
            Err(e) => Err(e),
            Ok((params, next)) => {
                let j = find_scope_end(toks, next, end);
                if j >= end {
                    return Err(ParseError::Truncated);
                }
                match parse_range(toks, next, j) {
                    Err(e) => Err(e),
                    Ok(body) => {
                        match parse_range(toks, j + 1, end) {
                            Err(e) => Err(e),
                            Ok(mut rest) => {
                                let node = LexType::Function(name, params, body);
                                let ghost restv = node_views(rest@);
                                let ghost nodev = node@;
                                let ghost oldrest = rest@;
                                rest.insert(0, node);
                                proof {
                                    assert(rest@ =~= seq![node] + oldrest);
                                    lemma_node_views_cons(oldrest, node);
                                    assert(node_views(rest@) == seq![nodev] + restv);
                                }
                                Ok(rest)
                            },
                        }
                    },
                }
            },
        }
    } else if toks[i].token_type == TokenType::TokenVarName {
        if end - i <= 2 {
            return Err(ParseError::Truncated);
        }
        match resolve_type(&toks[i + 1].value) {
            None => Err(ParseError::UnknownType),
            Some(ty) => {
                match convert_value(ty, &toks[i + 2].value) {
                    Err(e) => Err(e),
                    Ok(v) => {
                        let name = clone_chars(&toks[i].value);
                        let nxt = if end - i >= 4 {
                            i + 4
                        } else {
                            end
                        };
                        match parse_range(toks, nxt, end) {
                            Err(e) => Err(e),
                            Ok(mut rest) => {
                                let node = LexType::Variable(name, ty, v);
                                let ghost restv = node_views(rest@);
                                let ghost nodev = node@;
                                let ghost oldrest = rest@;
                                rest.insert(0, node);
                                proof {
                                    assert(rest@ =~= seq![node] + oldrest);
                                    lemma_node_views_cons(oldrest, node);
                                    assert(node_views(rest@) == seq![nodev] + restv);
                                }
                                Ok(rest)
                            },
                        }
                    },
                }
            },
        }
    } else if toks[i].token_type == TokenType::TokenFunCall {
        let tlen = toks[i].value.len();
        let name = if tlen >= 1 {
            copy_range(&toks[i].value, 1, tlen)
        } else {
            Vec::new()
        };
        proof {
            if tlen >= 1 {
                assert(name@ =~= tv[i as int].value.skip(1));
            } else {
                assert(name@ =~= tv[i as int].value);
            }
        }
        match parse_call_args(toks, i + 1, end) {
            Err(e) => Err(e),
            Ok((args, next)) => {
                match parse_range(toks, next + 1, end) {
                    Err(e) => Err(e),
                    Ok(mut rest) => {
                        let node = LexType::FunctionCall(name, args);
                        let ghost restv = node_views(rest@);
                        let ghost nodev = node@;
                        let ghost oldrest = rest@;
                        rest.insert(0, node);
                        proof {
                            assert(rest@ =~= seq![node] + oldrest);
                            lemma_node_views_cons(oldrest, node);
                            assert(node_views(rest@) == seq![nodev] + restv);
                        }
                        Ok(rest)
                    },
                }
            },
        }
    } else {
        parse_range(toks, i + 1, end)
    }
}

/// Parses a whole token stream into its statement list.
pub fn parse(tokens: &Vec<Token>) -> (r: Result<Vec<LexType>, ParseError>)
    ensures
        match r {
            Ok(nodes) => spec_parse(token_views(tokens@), 0, token_views(tokens@).len() as int)
                == Ok::<Seq<NodeM>, ParseError>(node_views(nodes@)),
            Err(e) => spec_parse(token_views(tokens@), 0, token_views(tokens@).len() as int)
                == Err::<Seq<NodeM>, ParseError>(e),
        },
{
    proof {
        assert(token_views(tokens@).len() == tokens@.len());
    }
    parse_range(tokens, 0, tokens.len())
}

} // verus!
