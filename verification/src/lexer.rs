//! The lexer: a state machine over single characters, keyed on the kind of
//! the most recently emitted token, with one accumulation buffer.
//!
//! `lex_rule` lists the rules in their priority order; only the first
//! matching rule fires for a character. `lex_step` applies one rule and the
//! cross-cutting separator rule; `spec_tokenize` folds it over the input.
//! The executable `tokenizer` is proved to produce exactly that stream.
use vstd::prelude::*;
use crate::tokens::{Token, TokenM, TokenType, token_views, compare_token_type};
use crate::literals::{char_index, find_char, copy_range};

verus! {

/// The lexer's whole state: what was emitted and what is still buffered.
pub struct LexStateM {
    pub toks: Seq<TokenM>,
    pub buf: Seq<char>,
}

pub open spec fn tok(k: TokenType, v: Seq<char>) -> TokenM {
    TokenM { token_type: k, value: v }
}

/// The buffer as used for marker comparisons: three leading spaces are
/// dropped when present, then one more leading space when present, so markers
/// may stand at a few fixed indentation depths.
pub open spec fn strip_offset(b: Seq<char>) -> int {
    let o = if b.len() >= 3 && b[0] == ' ' && b[1] == ' ' && b[2] == ' ' {
        3int
    } else {
        0int
    };
    if b.len() > o && b[o] == ' ' {
        o + 1
    } else {
        o
    }
}

pub open spec fn strip_indent(b: Seq<char>) -> Seq<char> {
    b.skip(strip_offset(b))
}

pub open spec fn last_is(toks: Seq<TokenM>, k: TokenType) -> bool {
    toks.len() > 0 && toks.last().token_type == k
}

/// Ground state: nothing emitted yet, or the last token closed a statement or
/// a scope, so a new statement may begin.
pub open spec fn ground(toks: Seq<TokenM>) -> bool {
    toks.len() == 0 || last_is(toks, TokenType::TokenNone) || last_is(
        toks,
        TokenType::TokenScopeStart,
    ) || last_is(toks, TokenType::TokenScopeEnd)
}

pub open spec fn ends_with(s: Seq<char>, c: char) -> bool {
    s.len() > 0 && s.last() == c
}

pub open spec fn starts_with(s: Seq<char>, c: char) -> bool {
    s.len() > 0 && s.first() == c
}

/// Split on spaces, keeping empty pieces. The result always has at least one
/// piece.
pub open spec fn split_spaces(s: Seq<char>) -> Seq<Seq<char>>
    decreases s.len(),
{
    if s.len() == 0 {
        seq![Seq::<char>::empty()]
    } else {
        let r = split_spaces(s.drop_first());
        if s[0] == ' ' {
            seq![Seq::<char>::empty()] + r
        } else {
            seq![seq![s[0]] + r[0]] + r.drop_first()
        }
    }
}

/// Split on spaces that stand outside double quotes, keeping empty pieces;
/// the quote characters stay in their piece.
pub open spec fn split_quoted(s: Seq<char>, inq: bool) -> Seq<Seq<char>>
    decreases s.len(),
{
    if s.len() == 0 {
        seq![Seq::<char>::empty()]
    } else {
        let inq2 = if s[0] == '"' {
            !inq
        } else {
            inq
        };
        let r = split_quoted(s.drop_first(), inq2);
        if s[0] == ' ' && !inq {
            seq![Seq::<char>::empty()] + r
        } else {
            seq![seq![s[0]] + r[0]] + r.drop_first()
        }
    }
}

pub proof fn lemma_split_spaces_nonempty(s: Seq<char>)
    ensures
        split_spaces(s).len() >= 1,
    decreases s.len(),
{
    if s.len() > 0 {
        lemma_split_spaces_nonempty(s.drop_first());
    }
}

pub proof fn lemma_split_quoted_nonempty(s: Seq<char>, inq: bool)
    ensures
        split_quoted(s, inq).len() >= 1,
    decreases s.len(),
{
    if s.len() > 0 {
        let inq2 = if s[0] == '"' {
            !inq
        } else {
            inq
        };
        lemma_split_quoted_nonempty(s.drop_first(), inq2);
    }
}

/// One leading and one trailing double quote removed, each when present.
pub open spec fn unquote(p: Seq<char>) -> Seq<char> {
    let a = if p.len() >= 1 && p[0] == '"' {
        p.skip(1)
    } else {
        p
    };
    if a.len() >= 1 && a.last() == '"' {
        a.take(a.len() - 1)
    } else {
        a
    }
}

/// The `FunArgKey`/`FunArgValue` pair of one non-empty `name@type` piece: the
/// part before the first `@` and the part after it (empty when there is
/// none).
pub open spec fn pair_tokens_of(p: Seq<char>) -> Seq<TokenM> {
    if p.len() == 0 {
        Seq::empty()
    } else {
        let k = char_index(p, '@');
        let val = if k < p.len() {
            p.skip(k + 1)
        } else {
            Seq::<char>::empty()
        };
        seq![tok(TokenType::TokenFunArgKey, p.take(k)), tok(TokenType::TokenFunArgValue, val)]
    }
}

pub open spec fn pair_tokens_of_pieces(ps: Seq<Seq<char>>) -> Seq<TokenM>
    decreases ps.len(),
{
    if ps.len() == 0 {
        Seq::empty()
    } else {
        pair_tokens_of(ps[0]) + pair_tokens_of_pieces(ps.drop_first())
    }
}

/// All tokens emitted for a parameter list buffer.
pub open spec fn param_tokens(s: Seq<char>) -> Seq<TokenM> {
    pair_tokens_of_pieces(split_spaces(s))
}

pub open spec fn arg_tokens_of_pieces(ps: Seq<Seq<char>>) -> Seq<TokenM>
    decreases ps.len(),
{
    if ps.len() == 0 {
        Seq::empty()
    } else {
        seq![tok(TokenType::TokenFunCallArg, unquote(ps[0]))] + arg_tokens_of_pieces(
            ps.drop_first(),
        )
    }
}

/// All tokens emitted for a call argument buffer.
pub open spec fn call_arg_tokens(s: Seq<char>) -> Seq<TokenM> {
    arg_tokens_of_pieces(split_quoted(s, false))
}

pub open spec fn semi_tok() -> TokenM {
    tok(TokenType::TokenNone, seq![';'])
}

/// What one rule emits and whether it consumed the character itself.
pub struct RuleFire {
    pub emitted: Seq<TokenM>,
    pub consumed: bool,
}

/// The rule chain, in priority order; only the first matching rule fires.
pub open spec fn lex_rule(toks: Seq<TokenM>, buf: Seq<char>, c: char) -> RuleFire {
    let strip = strip_indent(buf);
    if ground(toks) && strip == seq!['@', ' '] {
        RuleFire { emitted: seq![tok(TokenType::TokenIdentifier, buf)], consumed: false }
    } else if last_is(toks, TokenType::TokenIdentifier) && ends_with(buf, '[') {
        RuleFire {
            emitted: seq![tok(TokenType::TokenVarName, buf.take(buf.len() - 1))],
            consumed: false,
        }
    } else if last_is(toks, TokenType::TokenIdentifier) && buf == seq!['/'] {
        RuleFire { emitted: seq![tok(TokenType::TokenFunStart, buf)], consumed: false }
    } else if last_is(toks, TokenType::TokenFunStart) && ends_with(buf, ' ') {
        RuleFire {
            emitted: seq![tok(TokenType::TokenFunName, buf.take(buf.len() - 1))],
            consumed: false,
        }
    } else if last_is(toks, TokenType::TokenFunName) && c == '#' {
        RuleFire {
            emitted: param_tokens(buf) + seq![tok(TokenType::TokenScopeStart, seq!['#'])],
            consumed: true,
        }
    } else if (last_is(toks, TokenType::TokenVarName) || last_is(
        toks,
        TokenType::TokenVarOptionSep,
    )) && ends_with(buf, '=') {
        RuleFire {
            emitted: seq![tok(TokenType::TokenVarOptionKey, buf.take(buf.len() - 1))],
            consumed: false,
        }
    } else if last_is(toks, TokenType::TokenVarOptionKey) && (ends_with(buf, ']') || ends_with(
        buf,
        ',',
    )) {
        if ends_with(buf, ',') {
            RuleFire {
                emitted: seq![
                    tok(TokenType::TokenVarOptionValue, buf.take(buf.len() - 1)),
                    tok(TokenType::TokenVarOptionSep, seq![',']),
                ],
                consumed: false,
            }
        } else {
            RuleFire {
                emitted: seq![tok(TokenType::TokenVarOptionValue, buf.take(buf.len() - 1))],
                consumed: false,
            }
        }
    } else if ground(toks) && starts_with(strip, '/') && ends_with(strip, ' ') {
        RuleFire {
            emitted: seq![tok(TokenType::TokenFunCall, strip.take(strip.len() - 1))],
            consumed: false,
        }
    } else if ground(toks) && starts_with(strip, '/') && c == ';' {
        RuleFire { emitted: seq![tok(TokenType::TokenFunCall, strip)], consumed: true }
    } else if last_is(toks, TokenType::TokenFunCall) && c == ';' {
        RuleFire { emitted: call_arg_tokens(buf), consumed: true }
    } else if ground(toks) && strip == seq!['#'] {
        RuleFire { emitted: seq![tok(TokenType::TokenScopeEnd, seq!['#'])], consumed: true }
    } else {
        RuleFire { emitted: Seq::empty(), consumed: false }
    }
}

/// One step of the machine: apply the first matching rule, then buffer the
/// character unless the rule consumed it (newlines are never buffered), then
/// append the synthetic separator when the character is `;` and the stream
/// does not already end in one.
pub open spec fn lex_step(st: LexStateM, c: char) -> LexStateM {
    let fire = lex_rule(st.toks, st.buf, c);
    let toks1 = st.toks + fire.emitted;
    let buf1 = if fire.emitted.len() > 0 {
        Seq::<char>::empty()
    } else {
        st.buf
    };
    let buf2 = if !fire.consumed && c != '\n' {
        buf1.push(c)
    } else {
        buf1
    };
    if c == ';' && !last_is(toks1, TokenType::TokenNone) {
        LexStateM { toks: toks1.push(semi_tok()), buf: Seq::empty() }
    } else {
        LexStateM { toks: toks1, buf: buf2 }
    }
}

pub open spec fn lex_init() -> LexStateM {
    LexStateM { toks: Seq::empty(), buf: Seq::empty() }
}

/// The machine folded over a whole input.
pub open spec fn lex_run(input: Seq<char>) -> LexStateM
    decreases input.len(),
{
    if input.len() == 0 {
        lex_init()
    } else {
        lex_step(lex_run(input.drop_last()), input.last())
    }
}

/// The token stream of a whole input.
pub open spec fn spec_tokenize(input: Seq<char>) -> Seq<TokenM> {
    lex_run(input).toks
}

pub open spec fn piece_views(ps: Seq<Vec<char>>) -> Seq<Seq<char>> {
    ps.map_values(|p: Vec<char>| p@)
}

/// Splits a buffer on spaces, keeping empty pieces.
fn split_spaces_exec(s: &Vec<char>) -> (r: Vec<Vec<char>>)
    ensures
        piece_views(r@) == split_spaces(s@),
{
    let mut done: Vec<Vec<char>> = Vec::new();
    let mut cur: Vec<char> = Vec::new();
    let mut i: usize = 0;
    proof {
        lemma_split_spaces_nonempty(s@);
        assert(s@.skip(0) =~= s@);
        assert(piece_views(done@) + seq![cur@ + split_spaces(s@)[0]] + split_spaces(
            s@,
        ).drop_first() =~= seq![split_spaces(s@)[0]] + split_spaces(s@).drop_first());
        assert(seq![split_spaces(s@)[0]] + split_spaces(s@).drop_first() =~= split_spaces(s@));
    }
    while i < s.len()
        invariant
            0 <= i <= s@.len(),
            split_spaces(s@) == piece_views(done@) + seq![cur@ + split_spaces(s@.skip(i as int))[0]]
                + split_spaces(s@.skip(i as int)).drop_first(),
        decreases s@.len() - i,
    {
        let ghost rest = s@.skip(i as int);
        let ghost rest2 = s@.skip(i + 1);
        proof {
            assert(rest.drop_first() =~= rest2);
            assert(rest[0] == s@[i as int]);
            lemma_split_spaces_nonempty(rest2);
        }
        let c = s[i];
        if c == ' ' {
            proof {
                assert(split_spaces(rest) =~= seq![Seq::<char>::empty()] + split_spaces(rest2));
                assert((seq![Seq::<char>::empty()] + split_spaces(rest2)).drop_first()
                    =~= split_spaces(rest2));
                assert(cur@ + split_spaces(rest)[0] =~= cur@);
                assert(piece_views(done@.push(cur)) =~= piece_views(done@) + seq![cur@]);
                assert(piece_views(done@) + seq![cur@ + split_spaces(rest)[0]] + split_spaces(
                    rest,
                ).drop_first() =~= (piece_views(done@) + seq![cur@]) + seq![
                    Seq::<char>::empty() + split_spaces(rest2)[0],
                ] + split_spaces(rest2).drop_first()) by {
                    assert(Seq::<char>::empty() + split_spaces(rest2)[0] =~= split_spaces(
                        rest2,
                    )[0]);
                    assert(seq![split_spaces(rest2)[0]] + split_spaces(rest2).drop_first()
                        =~= split_spaces(rest2));
                }
            }
            done.push(cur);
            cur = Vec::new();
        } else {
            proof {
                assert(split_spaces(rest) =~= seq![seq![rest[0]] + split_spaces(rest2)[0]]
                    + split_spaces(rest2).drop_first());
                assert(cur@ + (seq![rest[0]] + split_spaces(rest2)[0]) =~= cur@.push(rest[0])
                    + split_spaces(rest2)[0]);
            }
            cur.push(c);
        }
        i = i + 1;
    }
    proof {
        let rest = s@.skip(i as int);
        assert(rest.len() == 0);
        assert(split_spaces(rest) == seq![Seq::<char>::empty()]);
        assert(cur@ + split_spaces(rest)[0] =~= cur@);
        assert(split_spaces(s@) =~= piece_views(done@) + seq![cur@]);
        assert(piece_views(done@.push(cur)) =~= piece_views(done@) + seq![cur@]);
    }
    done.push(cur);
    done
}

/// Splits a call argument buffer on unquoted spaces, keeping empty pieces.
fn split_quoted_exec(s: &Vec<char>) -> (r: Vec<Vec<char>>)
    ensures
        piece_views(r@) == split_quoted(s@, false),
{
    let mut done: Vec<Vec<char>> = Vec::new();
    let mut cur: Vec<char> = Vec::new();
    let mut inq = false;
    let mut i: usize = 0;
    proof {
        lemma_split_quoted_nonempty(s@, false);
        assert(s@.skip(0) =~= s@);
        assert(piece_views(done@) + seq![cur@ + split_quoted(s@, false)[0]] + split_quoted(
            s@,
            false,
        ).drop_first() =~= seq![split_quoted(s@, false)[0]] + split_quoted(s@, false).drop_first());
        assert(seq![split_quoted(s@, false)[0]] + split_quoted(s@, false).drop_first()
            =~= split_quoted(s@, false));
    }
    while i < s.len()
        invariant
            0 <= i <= s@.len(),
            split_quoted(s@, false) == piece_views(done@) + seq![
                cur@ + split_quoted(s@.skip(i as int), inq)[0],
            ] + split_quoted(s@.skip(i as int), inq).drop_first(),
        decreases s@.len() - i,
    {
        let ghost rest = s@.skip(i as int);
        let ghost rest2 = s@.skip(i + 1);
        proof {
            assert(rest.drop_first() =~= rest2);
            assert(rest[0] == s@[i as int]);
        }
        let c = s[i];
        let inq2 = if c == '"' {
            !inq
        } else {
            inq
        };
        proof {
            lemma_split_quoted_nonempty(rest2, inq2);
        }
        if c == ' ' && !inq {
            proof {
                assert(split_quoted(rest, inq) =~= seq![Seq::<char>::empty()] + split_quoted(
                    rest2,
                    inq2,
                ));
                assert((seq![Seq::<char>::empty()] + split_quoted(rest2, inq2)).drop_first()
                    =~= split_quoted(rest2, inq2));
                assert(cur@ + split_quoted(rest, inq)[0] =~= cur@);
                assert(piece_views(done@.push(cur)) =~= piece_views(done@) + seq![cur@]);
                assert(piece_views(done@) + seq![cur@ + split_quoted(rest, inq)[0]] + split_quoted(
                    rest,
                    inq,
                ).drop_first() =~= (piece_views(done@) + seq![cur@]) + seq![
                    Seq::<char>::empty() + split_quoted(rest2, inq2)[0],
                ] + split_quoted(rest2, inq2).drop_first()) by {
                    assert(Seq::<char>::empty() + split_quoted(rest2, inq2)[0] =~= split_quoted(
                        rest2,
                        inq2,
                    )[0]);
                    assert(seq![split_quoted(rest2, inq2)[0]] + split_quoted(
                        rest2,
                        inq2,
                    ).drop_first() =~= split_quoted(rest2, inq2));
                }
            }
            done.push(cur);
            cur = Vec::new();
        } else {
            proof {
                assert(split_quoted(rest, inq) =~= seq![seq![rest[0]] + split_quoted(
                    rest2,
                    inq2,
                )[0]] + split_quoted(rest2, inq2).drop_first());
                assert(cur@ + (seq![rest[0]] + split_quoted(rest2, inq2)[0]) =~= cur@.push(rest[0])
                    + split_quoted(rest2, inq2)[0]);
            }
            cur.push(c);
        }
        inq = inq2;
        i = i + 1;
    }
    proof {
        let rest = s@.skip(i as int);
        assert(rest.len() == 0);
        assert(split_quoted(rest, inq) == seq![Seq::<char>::empty()]);
        assert(cur@ + split_quoted(rest, inq)[0] =~= cur@);
        assert(split_quoted(s@, false) =~= piece_views(done@) + seq![cur@]);
        assert(piece_views(done@.push(cur)) =~= piece_views(done@) + seq![cur@]);
    }
    done.push(cur);
    done
}

proof fn lemma_pair_pieces_snoc(ps: Seq<Seq<char>>, k: int)
    requires
        0 <= k < ps.len(),
    ensures
        pair_tokens_of_pieces(ps.take(k + 1)) == pair_tokens_of_pieces(ps.take(k))
            + pair_tokens_of(ps[k]),
    decreases k,
{
    if k == 0 {
        let t = ps.take(1);
        assert(t[0] == ps[0]);
        assert(t.drop_first() =~= Seq::<Seq<char>>::empty());
        assert(ps.take(0) =~= Seq::<Seq<char>>::empty());
        assert(pair_tokens_of(ps[0]) + Seq::<TokenM>::empty() =~= pair_tokens_of(ps[0]));
        assert(Seq::<TokenM>::empty() + pair_tokens_of(ps[0]) =~= pair_tokens_of(ps[0]));
    } else {
        let d = ps.drop_first();
        lemma_pair_pieces_snoc(d, k - 1);
        assert(ps.take(k + 1).drop_first() =~= d.take(k));
        assert(ps.take(k).drop_first() =~= d.take(k - 1));
        assert(ps.take(k + 1)[0] == ps[0]);
        assert(ps.take(k)[0] == ps[0]);
        assert(d[k - 1] == ps[k]);
        assert(pair_tokens_of(ps[0]) + (pair_tokens_of_pieces(d.take(k - 1)) + pair_tokens_of(
            ps[k],
        )) =~= (pair_tokens_of(ps[0]) + pair_tokens_of_pieces(d.take(k - 1))) + pair_tokens_of(
            ps[k],
        ));
    }
}

proof fn lemma_arg_pieces_snoc(ps: Seq<Seq<char>>, k: int)
    requires
        0 <= k < ps.len(),
    ensures
        arg_tokens_of_pieces(ps.take(k + 1)) == arg_tokens_of_pieces(ps.take(k)) + seq![
            tok(TokenType::TokenFunCallArg, unquote(ps[k])),
        ],
    decreases k,
{
    if k == 0 {
        let t = ps.take(1);
        assert(t[0] == ps[0]);
        assert(t.drop_first() =~= Seq::<Seq<char>>::empty());
        assert(ps.take(0) =~= Seq::<Seq<char>>::empty());
        assert(seq![tok(TokenType::TokenFunCallArg, unquote(ps[0]))] + Seq::<TokenM>::empty()
            =~= seq![tok(TokenType::TokenFunCallArg, unquote(ps[0]))]);
        assert(Seq::<TokenM>::empty() + seq![tok(TokenType::TokenFunCallArg, unquote(ps[0]))]
            =~= seq![tok(TokenType::TokenFunCallArg, unquote(ps[0]))]);
    } else {
        let d = ps.drop_first();
        lemma_arg_pieces_snoc(d, k - 1);
        assert(ps.take(k + 1).drop_first() =~= d.take(k));
        assert(ps.take(k).drop_first() =~= d.take(k - 1));
        assert(ps.take(k + 1)[0] == ps[0]);
        assert(ps.take(k)[0] == ps[0]);
        assert(d[k - 1] == ps[k]);
        let h = seq![tok(TokenType::TokenFunCallArg, unquote(ps[0]))];
        let m = seq![tok(TokenType::TokenFunCallArg, unquote(ps[k]))];
        assert(h + (arg_tokens_of_pieces(d.take(k - 1)) + m) =~= (h + arg_tokens_of_pieces(
            d.take(k - 1),
        )) + m);
    }
}

/// Strips one leading and one trailing double quote from a piece.
fn unquote_exec(p: &Vec<char>) -> (r: Vec<char>)
    ensures
        r@ == unquote(p@),
{
    let mut a: usize = 0;
    if p.len() >= 1 && p[0] == '"' {
        a = 1;
    }
    let mut b: usize = p.len();
    if b > a && p[b - 1] == '"' {
        b = b - 1;
    }
    let r = copy_range(p, a, b);
    proof {
        let aq = if p@.len() >= 1 && p@[0] == '"' {
            p@.skip(1)
        } else {
            p@
        };
        assert(aq =~= p@.subrange(a as int, p@.len() as int));
        if aq.len() >= 1 && aq.last() == '"' {
            assert(aq.take(aq.len() - 1) =~= p@.subrange(a as int, b as int));
        } else {
            assert(aq =~= p@.subrange(a as int, b as int));
        }
    }
    r
}

/// Emits the `FunArgKey`/`FunArgValue` pairs for a parameter buffer's pieces.
fn push_pair_tokens(tokens: &mut Vec<Token>, pieces: &Vec<Vec<char>>)
    ensures
        token_views(final(tokens)@) == token_views(old(tokens)@) + pair_tokens_of_pieces(
            piece_views(pieces@),
        ),
{
    let ghost ps = piece_views(pieces@);
    let mut k: usize = 0;
    proof {
        assert(ps.take(0) =~= Seq::<Seq<char>>::empty());
        assert(token_views(tokens@) + pair_tokens_of_pieces(ps.take(0)) =~= token_views(tokens@));
    }
    while k < pieces.len()
        invariant
            0 <= k <= pieces@.len(),
            ps == piece_views(pieces@),
            token_views(tokens@) == token_views(old(tokens)@) + pair_tokens_of_pieces(
                ps.take(k as int),
            ),
        decreases pieces@.len() - k,
    {
        let piece = &pieces[k];
        proof {
            assert(ps[k as int] == piece@);
            lemma_pair_pieces_snoc(ps, k as int);
        }
        if piece.len() > 0 {
            let at = find_char(piece, '@');
            proof {
                crate::literals::lemma_char_index_props(piece@, '@');
            }
            let key = copy_range(piece, 0, at);
            let val = if at < piece.len() {
                copy_range(piece, at + 1, piece.len())
            } else {
                Vec::new()
            };
            proof {
                assert(key@ =~= piece@.take(at as int));
                if at < piece.len() {
                    assert(val@ =~= piece@.skip(at + 1));
                } else {
                    assert(val@ =~= Seq::<char>::empty());
                }
            }
            let ghost before = tokens@;
            tokens.push(Token { token_type: TokenType::TokenFunArgKey, value: key });
            tokens.push(Token { token_type: TokenType::TokenFunArgValue, value: val });
            proof {
                assert(token_views(tokens@) =~= token_views(before) + pair_tokens_of(
                    ps[k as int],
                ));
                assert(token_views(old(tokens)@) + pair_tokens_of_pieces(ps.take(k as int))
                    + pair_tokens_of(ps[k as int]) =~= token_views(old(tokens)@)
                    + pair_tokens_of_pieces(ps.take(k + 1)));
            }
        } else {
            proof {
                assert(pair_tokens_of(ps[k as int]) =~= Seq::<TokenM>::empty());
                assert(pair_tokens_of_pieces(ps.take(k + 1)) =~= pair_tokens_of_pieces(
                    ps.take(k as int),
                ));
            }
        }
        k = k + 1;
    }
    proof {
        assert(ps.take(pieces@.len() as int) =~= ps);
    }
}

/// Emits the `FunCallArg` token of every piece of a call argument buffer.
fn push_arg_tokens(tokens: &mut Vec<Token>, pieces: &Vec<Vec<char>>)
    ensures
        token_views(final(tokens)@) == token_views(old(tokens)@) + arg_tokens_of_pieces(
            piece_views(pieces@),
        ),
{
    let ghost ps = piece_views(pieces@);
    let mut k: usize = 0;
    proof {
        assert(ps.take(0) =~= Seq::<Seq<char>>::empty());
        assert(token_views(tokens@) + arg_tokens_of_pieces(ps.take(0)) =~= token_views(tokens@));
    }
    while k < pieces.len()
        invariant
            0 <= k <= pieces@.len(),
            ps == piece_views(pieces@),
            token_views(tokens@) == token_views(old(tokens)@) + arg_tokens_of_pieces(
                ps.take(k as int),
            ),
        decreases pieces@.len() - k,
    {
        let piece = &pieces[k];
        proof {
            assert(ps[k as int] == piece@);
            lemma_arg_pieces_snoc(ps, k as int);
        }
        let text = unquote_exec(piece);
        let ghost before = tokens@;
        tokens.push(Token { token_type: TokenType::TokenFunCallArg, value: text });
        proof {
            assert(token_views(tokens@) =~= token_views(before) + seq![
                tok(TokenType::TokenFunCallArg, unquote(ps[k as int])),
            ]);
            assert(token_views(old(tokens)@) + arg_tokens_of_pieces(ps.take(k as int)) + seq![
                tok(TokenType::TokenFunCallArg, unquote(ps[k as int])),
            ] =~= token_views(old(tokens)@) + arg_tokens_of_pieces(ps.take(k + 1)));
        }
        k = k + 1;
    }
    proof {
        assert(ps.take(pieces@.len() as int) =~= ps);
    }
}

/// A one-character string.
fn one_char_vec(c: char) -> (r: Vec<char>)
    ensures
        r@ == seq![c],
{
    let mut r: Vec<char> = Vec::new();
    r.push(c);
    proof {
        assert(r@ =~= seq![c]);
    }
    r
}

/// One step of the machine on the live state.
#[verifier::rlimit(100)]
fn lex_step_exec(tokens: &mut Vec<Token>, buffer: &mut Vec<char>, c: char)
    ensures
        ({
            let st2 = lex_step(
                LexStateM { toks: token_views(old(tokens)@), buf: old(buffer)@ },
                c,
            );
            token_views(final(tokens)@) == st2.toks && final(buffer)@ == st2.buf
        }),
{
    let ghost toks0 = token_views(tokens@);
    let ghost buf0 = buffer@;
    let ghost fire = lex_rule(toks0, buf0, c);
    // The stripped view of the buffer starts at this offset.
    let mut off: usize = 0;
    if buffer.len() >= 3 && buffer[0] == ' ' && buffer[1] == ' ' && buffer[2] == ' ' {
        off = 3;
    }
    if buffer.len() > off && buffer[off] == ' ' {
        off = off + 1;
    }
    proof {
        assert(off as int == strip_offset(buf0));
    }
    let ghost strip = strip_indent(buf0);
    let blen = buffer.len();
    proof {
        assert(strip =~= buf0.skip(off as int));
        assert(strip.len() == blen - off);
        if strip.len() > 0 {
            assert(strip.first() == buf0[off as int]);
            assert(strip.last() == buf0[blen - 1]);
        }
    }
    let g = tokens.len() == 0 || compare_token_type(tokens, TokenType::TokenNone)
        || compare_token_type(tokens, TokenType::TokenScopeStart) || compare_token_type(
        tokens,
        TokenType::TokenScopeEnd,
    );
    proof {
        assert(toks0.len() == tokens@.len());
        if tokens@.len() > 0 {
            assert(toks0.last() == tokens@.last()@);
        }
        assert(g == ground(toks0));
    }
    let mut consumed = false;
    let mut fired = true;
    if g && blen - off == 2 && buffer[off] == '@' && buffer[off + 1] == ' ' {
        proof {
            assert(strip[0] == buf0[off as int]);
            assert(strip[1] == buf0[off + 1]);
            assert(strip =~= seq!['@', ' ']);
        }
        let text = copy_range(buffer, 0, blen);
        proof {
            assert(text@ =~= buf0);
        }
        tokens.push(Token { token_type: TokenType::TokenIdentifier, value: text });
    } else {
        proof {
            if g {
                if strip =~= seq!['@', ' '] {
                    assert(blen - off == 2 && buf0[off as int] == '@' && buf0[off + 1] == ' ');
                }
            }
            assert(!(ground(toks0) && strip_indent(buf0) == seq!['@', ' ']));
        }
        if compare_token_type(tokens, TokenType::TokenIdentifier) && blen > 0 && buffer[blen - 1]
            == '[' {
            let text = copy_range(buffer, 0, blen - 1);
            proof {
                assert(text@ =~= buf0.take(buf0.len() - 1));
            }
            tokens.push(Token { token_type: TokenType::TokenVarName, value: text });
        } else if compare_token_type(tokens, TokenType::TokenIdentifier) && blen == 1 && buffer[0]
            == '/' {
            proof {
                assert(buf0 =~= seq!['/']);
            }
            let text = copy_range(buffer, 0, blen);
            proof {
                assert(text@ =~= buf0);
            }
            tokens.push(Token { token_type: TokenType::TokenFunStart, value: text });
        } else if compare_token_type(tokens, TokenType::TokenFunStart) && blen > 0 && buffer[blen
            - 1] == ' ' {
            proof {
                if last_is(toks0, TokenType::TokenIdentifier) && buf0 == seq!['/'] {
                    assert(buf0.len() == 1 && buf0[0] == '/');
                }
            }
            let text = copy_range(buffer, 0, blen - 1);
            proof {
                assert(text@ =~= buf0.take(buf0.len() - 1));
            }
            tokens.push(Token { token_type: TokenType::TokenFunName, value: text });
        } else if compare_token_type(tokens, TokenType::TokenFunName) && c == '#' {
            let pieces = split_spaces_exec(buffer);
            proof {
                assert(piece_views(pieces@) == split_spaces(buf0));
            }
            push_pair_tokens(tokens, &pieces);
            let ghost mid = tokens@;
            proof {
                assert(token_views(mid) == toks0 + param_tokens(buf0));
            }
            let hash_text = one_char_vec('#');
            tokens.push(Token { token_type: TokenType::TokenScopeStart, value: hash_text });
            consumed = true;
            proof {
                assert(token_views(tokens@) =~= token_views(mid).push(
                    tok(TokenType::TokenScopeStart, seq!['#']),
                ));
                assert(token_views(tokens@) =~= toks0 + (param_tokens(buf0) + seq![
                    tok(TokenType::TokenScopeStart, seq!['#']),
                ]));
                assert(param_tokens(buf0).len() + 1 > 0);
            }
        } else if (compare_token_type(tokens, TokenType::TokenVarName) || compare_token_type(
            tokens,
            TokenType::TokenVarOptionSep,
        )) && blen > 0 && buffer[blen - 1] == '=' {
            let text = copy_range(buffer, 0, blen - 1);
            proof {
                assert(text@ =~= buf0.take(buf0.len() - 1));
            }
            tokens.push(Token { token_type: TokenType::TokenVarOptionKey, value: text });
        } else if compare_token_type(tokens, TokenType::TokenVarOptionKey) && blen > 0 && (
        buffer[blen - 1] == ']' || buffer[blen - 1] == ',') {
            let text = copy_range(buffer, 0, blen - 1);
            proof {
                assert(text@ =~= buf0.take(buf0.len() - 1));
            }
            let comma = buffer[blen - 1] == ',';
            tokens.push(Token { token_type: TokenType::TokenVarOptionValue, value: text });
            if comma {
                let sep_text = one_char_vec(',');
                tokens.push(Token { token_type: TokenType::TokenVarOptionSep, value: sep_text });

            }
        } else if g && blen - off > 0 && buffer[off] == '/' && buffer[blen - 1] == ' ' {
            proof {
                assert(starts_with(strip, '/') && ends_with(strip, ' '));
            }
            let text = copy_range(buffer, off, blen - 1);
            proof {
                assert(text@ =~= strip.take(strip.len() - 1));
            }
            tokens.push(Token { token_type: TokenType::TokenFunCall, value: text });
        } else if g && blen - off > 0 && buffer[off] == '/' && c == ';' {
            proof {
                if ends_with(strip, ' ') {
                    assert(buf0[blen - 1] == ' ');
                }
                assert(!(ground(toks0) && starts_with(strip, '/') && ends_with(strip, ' ')));
            }
            let text = copy_range(buffer, off, blen);
            proof {
                assert(text@ =~= strip);
            }
            tokens.push(Token { token_type: TokenType::TokenFunCall, value: text });
            consumed = true;
        } else if compare_token_type(tokens, TokenType::TokenFunCall) && c == ';' {
            proof {
                if ground(toks0) {
                    assert(!last_is(toks0, TokenType::TokenFunCall));
                }
            }
            let pieces = split_quoted_exec(buffer);
            push_arg_tokens(tokens, &pieces);
            consumed = true;
            proof {
                lemma_split_quoted_nonempty(buf0, false);
                assert(call_arg_tokens(buf0).len() > 0);
            }
        } else if g && blen - off == 1 && buffer[off] == '#' {
            proof {
                assert(strip[0] == buf0[off as int]);
                assert(strip =~= seq!['#']);
            }
            let hash_text = one_char_vec('#');
            tokens.push(Token { token_type: TokenType::TokenScopeEnd, value: hash_text });
            consumed = true;
        } else {
            fired = false;
            proof {
                if g && starts_with(strip, '/') {
                    assert(buf0[off as int] == '/');
                }
                if g && strip == seq!['#'] {
                    assert(strip.len() == 1 && strip[0] == '#');
                    assert(blen - off == 1 && buf0[off as int] == '#');
                }
                assert(fire.emitted =~= Seq::<TokenM>::empty());
            }
        }
    }
    proof {
        assert(token_views(tokens@) =~= toks0 + fire.emitted);
        assert(fired == (fire.emitted.len() > 0));
        assert(consumed == fire.consumed);
    }
    if fired {
        *buffer = Vec::new();
    }
    if !consumed && c != '\n' {
        buffer.push(c);
    }
    let semi = c == ';' && !compare_token_type(tokens, TokenType::TokenNone);
    if semi {
        let semi_text = one_char_vec(';');
        tokens.push(Token { token_type: TokenType::TokenNone, value: semi_text });
        *buffer = Vec::new();
        proof {
            assert(token_views(tokens@) =~= (toks0 + fire.emitted).push(semi_tok()));
        }
    }
}

/// Turns a whole input into its token stream.
pub fn tokenizer(filecontent: &Vec<char>) -> (r: Vec<Token>)
    ensures
        token_views(r@) == spec_tokenize(filecontent@),
{
    let mut tokens: Vec<Token> = Vec::new();
    let mut buffer: Vec<char> = Vec::new();
    let mut i: usize = 0;
    proof {
        assert(filecontent@.take(0) =~= Seq::<char>::empty());
        assert(token_views(tokens@) =~= Seq::<TokenM>::empty());
    }
    while i < filecontent.len()
        invariant
            0 <= i <= filecontent@.len(),
            token_views(tokens@) == lex_run(filecontent@.take(i as int)).toks,
            buffer@ == lex_run(filecontent@.take(i as int)).buf,
        decreases filecontent@.len() - i,
    {
        let c = filecontent[i];
        proof {
            assert(filecontent@.take(i + 1).drop_last() =~= filecontent@.take(i as int));
            assert(filecontent@.take(i + 1).last() == filecontent@[i as int]);
        }
        lex_step_exec(&mut tokens, &mut buffer, c);
        i = i + 1;
    }
    proof {
        assert(filecontent@.take(filecontent@.len() as int) =~= filecontent@);
    }
    tokens
}

} // verus!
