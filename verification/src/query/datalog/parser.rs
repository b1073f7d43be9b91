//! The EDN reader (tokenizer and recursive-descent parser) and the parser of
//! Datalog commands: `query`, `transact`, `retract` and `rule`.
use vstd::prelude::*;
use crate::ids::{spec_uuid_parse, uuid_parse};
use crate::text::{
    spec_is_alphabetic, spec_is_alphanumeric, spec_is_numeric, char_is_alphabetic, char_is_alphanumeric,
    char_is_numeric, spec_parse_i64, parse_i64_chars, is_float_literal, is_float_literal_chars,
    str_chars, string_from_chars, sub_slice, chars_eq, concat2, to_owned_string,
};
use crate::query::datalog::types::{
    EdnV, EdnValue, edn_seq_view, edn_pairs_view, edn_is_var, clone_edn_values, Pattern, PatternV,
    pattern_len_error, WhereClause, ClauseV, clause_seq_view, FindSpec, FindSpecV, find_specs_view, AsOf,
    ValidAt, DatalogQuery, DatalogQueryV, Transaction, TransactionV, Rule, RuleV, DatalogCommand,
    DatalogCommandV, patterns_view,
};
use crate::query::datalog::matcher::{edn_debug_text, edn_debug};
use crate::temporal::{spec_parse_timestamp, parse_timestamp};
use crate::text::{is_prefix, int_text, nat_text, i64_to_string, usize_to_string, concat3, push_str};

verus! {

/// A token of EDN text. A floating-point literal keeps its text.
#[derive(Debug, PartialEq)]
pub enum Token {
    LeftParen,
    RightParen,
    LeftBracket,
    RightBracket,
    LeftBrace,
    RightBrace,
    Keyword(String),
    Symbol(String),
    String(String),
    Integer(i64),
    Float(String),
    Boolean(bool),
    TaggedLiteral(String),
    Nil,
}

/// The mathematical model of a [`Token`].
pub enum TokenV {
    LeftParen,
    RightParen,
    LeftBracket,
    RightBracket,
    LeftBrace,
    RightBrace,
    Keyword(Seq<char>),
    Symbol(Seq<char>),
    String(Seq<char>),
    Integer(i64),
    Float(Seq<char>),
    Boolean(bool),
    TaggedLiteral(Seq<char>),
    Nil,
}

impl View for Token {
    type V = TokenV;

    open spec fn view(&self) -> TokenV {
        match self {
            Token::LeftParen => TokenV::LeftParen,
            Token::RightParen => TokenV::RightParen,
            Token::LeftBracket => TokenV::LeftBracket,
            Token::RightBracket => TokenV::RightBracket,
            Token::LeftBrace => TokenV::LeftBrace,
            Token::RightBrace => TokenV::RightBrace,
            Token::Keyword(s) => TokenV::Keyword(s@),
            Token::Symbol(s) => TokenV::Symbol(s@),
            Token::String(s) => TokenV::String(s@),
            Token::Integer(i) => TokenV::Integer(*i),
            Token::Float(s) => TokenV::Float(s@),
            Token::Boolean(b) => TokenV::Boolean(*b),
            Token::TaggedLiteral(s) => TokenV::TaggedLiteral(s@),
            Token::Nil => TokenV::Nil,
        }
    }
}

/// The models of a token list.
pub open spec fn tokens_view(s: Seq<Token>) -> Seq<TokenV> {
    s.map_values(|t: Token| t@)
}

/// The outcome of tokenizing: the tokens, an error message, or a number
/// literal that does not convert (out of the 64-bit range, or with digits
/// other than ASCII ones), on which tokenizing panics.
pub enum TokOutcome {
    Tokens(Seq<TokenV>),
    Error(Seq<char>),
    Panic,
}

/// Characters that separate tokens: space, tab, newline, carriage return
/// and comma.
pub open spec fn is_edn_space(c: char) -> bool {
    c == ' ' || c == '\t' || c == '\n' || c == '\r' || c == ','
}

/// The kinds of character runs the tokenizer reads.
pub enum Run {
    Keyword,
    Tag,
    Symbol,
}

/// Whether `c` continues a run of the given kind.
pub open spec fn in_run(c: char, r: Run) -> bool {
    match r {
        Run::Keyword => spec_is_alphanumeric(c) || c == '/' || c == '-' || c == '_',
        Run::Tag => spec_is_alphanumeric(c) || c == '-',
        Run::Symbol => spec_is_alphanumeric(c) || c == '?' || c == '_' || c == '-' || c == '/',
    }
}

/// The end of the run of kind `r` that starts at `i`.
pub open spec fn run_end(s: Seq<char>, i: int, r: Run) -> int
    decreases s.len() - i,
{
    if i < 0 || i >= s.len() || !in_run(s[i], r) {
        i
    } else {
        run_end(s, i + 1, r)
    }
}

/// The end of a number literal starting at `i`, and whether it has a '.'
/// (numeric characters and at most one '.').
pub open spec fn number_end(s: Seq<char>, i: int, dot: bool) -> (int, bool)
    decreases s.len() - i,
{
    if i < 0 || i >= s.len() {
        (i, dot)
    } else if spec_is_numeric(s[i]) {
        number_end(s, i + 1, dot)
    } else if s[i] == '.' && !dot {
        number_end(s, i + 1, true)
    } else {
        (i, dot)
    }
}

/// The character an escape sequence `\c` stands for.
pub open spec fn unescape(c: char) -> char {
    if c == 'n' { '\n' } else if c == 't' { '\t' } else if c == 'r' { '\r' } else { c }
}

/// The text of a string literal whose body starts at `i`, and the position
/// after its closing quote (or the end of the input when it is not closed).
pub open spec fn string_body(s: Seq<char>, i: int) -> (Seq<char>, int)
    decreases s.len() - i,
{
    if i < 0 || i >= s.len() {
        (seq![], i)
    } else if s[i] == '"' {
        (seq![], i + 1)
    } else if s[i] == '\\' {
        if i + 1 < s.len() {
            let rest = string_body(s, i + 2);
            (seq![unescape(s[i + 1])] + rest.0, rest.1)
        } else {
            (seq![], i + 1)
        }
    } else {
        let rest = string_body(s, i + 1);
        (seq![s[i]] + rest.0, rest.1)
    }
}

/// The token a number literal's text denotes, or `None` when converting it
/// panics.
pub open spec fn number_token(text: Seq<char>, dot: bool) -> Option<TokenV> {
    if dot {
        if is_float_literal(text) { Some(TokenV::Float(text)) } else { None }
    } else {
        match spec_parse_i64(text) {
            Some(v) => Some(TokenV::Integer(v)),
            None => None,
        }
    }
}

/// The token a symbol's text denotes (`true`, `false` and `nil` are literals).
pub open spec fn symbol_token(text: Seq<char>) -> TokenV {
    if text == "true"@ {
        TokenV::Boolean(true)
    } else if text == "false"@ {
        TokenV::Boolean(false)
    } else if text == "nil"@ {
        TokenV::Nil
    } else {
        TokenV::Symbol(text)
    }
}

/// `t` with token `k` in front of the tokens of an outcome.
pub open spec fn cons_token(k: TokenV, t: TokOutcome) -> TokOutcome {
    match t {
        TokOutcome::Tokens(ts) => TokOutcome::Tokens(seq![k] + ts),
        other => other,
    }
}

/// The tokens of `s` from position `i` on.
pub open spec fn tokenize_from(s: Seq<char>, i: int) -> TokOutcome
    decreases s.len() - i,
{
    if i < 0 || i >= s.len() {
        TokOutcome::Tokens(seq![])
    } else {
        let c = s[i];
        if is_edn_space(c) {
            tokenize_from(s, i + 1)
        } else if c == '(' {
            cons_token(TokenV::LeftParen, tokenize_from(s, i + 1))
        } else if c == ')' {
            cons_token(TokenV::RightParen, tokenize_from(s, i + 1))
        } else if c == '[' {
            cons_token(TokenV::LeftBracket, tokenize_from(s, i + 1))
        } else if c == ']' {
            cons_token(TokenV::RightBracket, tokenize_from(s, i + 1))
        } else if c == '{' {
            cons_token(TokenV::LeftBrace, tokenize_from(s, i + 1))
        } else if c == '}' {
            cons_token(TokenV::RightBrace, tokenize_from(s, i + 1))
        } else if c == '"' {
            let b = string_body(s, i + 1);
            if i < b.1 && b.1 <= s.len() {
                cons_token(TokenV::String(b.0), tokenize_from(s, b.1))
            } else {
                TokOutcome::Tokens(seq![])
            }
        } else if c == ':' {
            let j = run_end(s, i + 1, Run::Keyword);
            if i < j && j <= s.len() {
                cons_token(TokenV::Keyword(s.subrange(i, j)), tokenize_from(s, j))
            } else {
                TokOutcome::Tokens(seq![])
            }
        } else if c == '#' {
            let j = run_end(s, i + 1, Run::Tag);
            if i < j && j <= s.len() {
                cons_token(TokenV::TaggedLiteral(s.subrange(i + 1, j)), tokenize_from(s, j))
            } else {
                TokOutcome::Tokens(seq![])
            }
        } else if c == '-' && i + 1 < s.len() && spec_is_numeric(s[i + 1]) {
            let (j, dot) = number_end(s, i + 1, false);
            if i < j && j <= s.len() {
                match number_token(s.subrange(i, j), dot) {
                    Some(k) => cons_token(k, tokenize_from(s, j)),
                    None => TokOutcome::Panic,
                }
            } else {
                TokOutcome::Tokens(seq![])
            }
        } else if c == '-' {
            let j = run_end(s, i + 1, Run::Symbol);
            if i < j && j <= s.len() {
                cons_token(TokenV::Symbol(s.subrange(i, j)), tokenize_from(s, j))
            } else {
                TokOutcome::Tokens(seq![])
            }
        } else if '0' <= c && c <= '9' {
            let (j, dot) = number_end(s, i, false);
            if i < j && j <= s.len() {
                match number_token(s.subrange(i, j), dot) {
                    Some(k) => cons_token(k, tokenize_from(s, j)),
                    None => TokOutcome::Panic,
                }
            } else {
                TokOutcome::Tokens(seq![])
            }
        } else if spec_is_alphabetic(c) || c == '?' || c == '_' {
            let j = run_end(s, i + 1, Run::Symbol);
            if i < j && j <= s.len() {
                cons_token(symbol_token(s.subrange(i, j)), tokenize_from(s, j))
            } else {
                TokOutcome::Tokens(seq![])
            }
        } else {
            TokOutcome::Error("Unexpected character: "@ + seq![c])
        }
    }
}

/// The tokens of EDN text.
pub open spec fn spec_tokenize(s: Seq<char>) -> TokOutcome {
    tokenize_from(s, 0)
}

proof fn lemma_run_end(s: Seq<char>, i: int, r: Run)
    requires
        0 <= i <= s.len(),
    ensures
        i <= run_end(s, i, r) <= s.len(),
        forall|k: int| i <= k < run_end(s, i, r) ==> in_run(#[trigger] s[k], r),
    decreases s.len() - i,
{
    if i < s.len() && in_run(s[i], r) {
        lemma_run_end(s, i + 1, r);
    }
}

/// Scans the rest of a symbol from `i`: letters, digits, `?`, `_`, `-` and
/// `/`; returns where it ends.
pub fn parse_symbol(s: &[char], i: usize) -> (j: usize)
    requires
        i <= s.len(),
    ensures
        j == run_end(s@, i as int, Run::Symbol),
        i <= j <= s.len(),
{
    run_end_exec(s, i, Run::Symbol)
}

fn run_end_exec(s: &[char], i: usize, r: Run) -> (j: usize)
    requires
        i <= s.len(),
    ensures
        j == run_end(s@, i as int, r),
        i <= j <= s.len(),
    decreases s.len() - i,
{
    if i >= s.len() {
        return i;
    }
    let c = s[i];
    let more = match r {
        Run::Keyword => char_is_alphanumeric(c) || c == '/' || c == '-' || c == '_',
        Run::Tag => char_is_alphanumeric(c) || c == '-',
        Run::Symbol => char_is_alphanumeric(c) || c == '?' || c == '_' || c == '-' || c == '/',
    };
    if more {
        run_end_exec(s, i + 1, r)
    } else {
        i
    }
}

/// Scans a number literal's digits from `i` (one `.` allowed, unless `dot`
/// says one was seen): its end and whether it has a `.`.
pub fn parse_number(s: &[char], i: usize, dot: bool) -> (r: (usize, bool))
    requires
        i <= s.len(),
    ensures
        (r.0 as int, r.1) == number_end(s@, i as int, dot),
        i <= r.0 <= s.len(),
        i < s.len() && spec_is_numeric(s@[i as int]) ==> r.0 > i,
    decreases s.len() - i,
{
    if i >= s.len() {
        return (i, dot);
    }
    if char_is_numeric(s[i]) {
        parse_number(s, i + 1, dot)
    } else if s[i] == '.' && !dot {
        parse_number(s, i + 1, true)
    } else {
        (i, dot)
    }
}

fn unescape_exec(c: char) -> (r: char)
    ensures
        r == unescape(c),
{
    if c == 'n' { '\n' } else if c == 't' { '\t' } else if c == 'r' { '\r' } else { c }
}

fn string_body_exec(s: &[char], i: usize) -> (r: (Vec<char>, usize))
    requires
        i <= s.len(),
    ensures
        r.0@ == string_body(s@, i as int).0,
        r.1 as int == string_body(s@, i as int).1,
        i <= r.1 <= s.len(),
    decreases s.len() - i,
{
    if i >= s.len() {
        let v: Vec<char> = Vec::new();
        assert(v@ =~= Seq::<char>::empty());
        return (v, i);
    }
    if s[i] == '"' {
        let v: Vec<char> = Vec::new();
        assert(v@ =~= Seq::<char>::empty());
        return (v, i + 1);
    }
    if s[i] == '\\' {
        if i + 1 < s.len() {
            let (rest, end) = string_body_exec(s, i + 2);
            let mut v: Vec<char> = Vec::new();
            v.push(unescape_exec(s[i + 1]));
            let ghost rv = rest@;
            let mut rest = rest;
            v.append(&mut rest);
            assert(v@ =~= seq![unescape(s@[i + 1])] + rv);
            (v, end)
        } else {
            let v: Vec<char> = Vec::new();
            assert(v@ =~= Seq::<char>::empty());
            (v, i + 1)
        }
    } else {
        let (rest, end) = string_body_exec(s, i + 1);
        let mut v: Vec<char> = Vec::new();
        v.push(s[i]);
        let ghost rv = rest@;
        let mut rest = rest;
        v.append(&mut rest);
        assert(v@ =~= seq![s@[i as int]] + rv);
        (v, end)
    }
}

fn chars_string(v: &[char]) -> (r: String)
    ensures
        r@ == v@,
{
    string_from_chars(v)
}

fn is_text(v: &[char], w: &str) -> (r: bool)
    ensures
        r == (v@ == w@),
{
    let wc = str_chars(w);
    chars_eq(v, wc.as_slice())
}

fn number_token_exec(text: &[char], dot: bool) -> (r: Option<Token>)
    ensures
        match r {
            Some(t) => number_token(text@, dot) == Some(t@),
            None => number_token(text@, dot) is None,
        },
{
    if dot {
        if is_float_literal_chars(text) {
            Some(Token::Float(chars_string(text)))
        } else {
            None
        }
    } else {
        match parse_i64_chars(text) {
            Some(v) => Some(Token::Integer(v)),
            None => None,
        }
    }
}

fn symbol_token_exec(text: &[char]) -> (r: Token)
    ensures
        r@ == symbol_token(text@),
{
    if is_text(text, "true") {
        Token::Boolean(true)
    } else if is_text(text, "false") {
        Token::Boolean(false)
    } else if is_text(text, "nil") {
        Token::Nil
    } else {
        Token::Symbol(chars_string(text))
    }
}

/// `acc` followed by the tokens of an outcome.
pub open spec fn after_tokens(acc: Seq<TokenV>, t: TokOutcome) -> TokOutcome {
    match t {
        TokOutcome::Tokens(ts) => TokOutcome::Tokens(acc + ts),
        other => other,
    }
}

/// The outcome of tokenizing in the library's terms: tokens, or an error
/// message; a panic of the tokenizer is excluded by the caller.
pub open spec fn tok_result(r: Result<Vec<Token>, String>) -> TokOutcome {
    match r {
        Ok(ts) => TokOutcome::Tokens(tokens_view(ts@)),
        Err(e) => TokOutcome::Error(e@),
    }
}

/// The outcome of tokenizing, where `Err(None)` stands for a number
/// literal that does not convert.
pub open spec fn scan_result(r: Result<Vec<Token>, Option<String>>) -> TokOutcome {
    match r {
        Ok(ts) => TokOutcome::Tokens(tokens_view(ts@)),
        Err(Some(e)) => TokOutcome::Error(e@),
        Err(None) => TokOutcome::Panic,
    }
}

/// Splits EDN text into tokens. Number literals must convert (see
/// `TokOutcome::Panic`).
pub fn tokenize(input: &str) -> (r: Result<Vec<Token>, String>)
    requires
        !(spec_tokenize(input@) is Panic),
    ensures
        tok_result(r) == spec_tokenize(input@),
{
    match scan_tokens(input) {
        Ok(ts) => Ok(ts),
        Err(Some(e)) => Err(e),
        Err(None) => Err(to_owned_string("number literal does not convert")),
    }
}

/// Splits EDN text into tokens; `Err(None)` when a number literal does not
/// convert.
pub fn scan_tokens(input: &str) -> (r: Result<Vec<Token>, Option<String>>)
    ensures
        scan_result(r) == spec_tokenize(input@),
{
    let s = str_chars(input);
    let ghost sv = s@;
    let mut tokens: Vec<Token> = Vec::new();
    let mut i: usize = 0;
    assert(tokens_view(tokens@) =~= Seq::<TokenV>::empty());
    assert(spec_tokenize(sv) == after_tokens(tokens_view(tokens@), tokenize_from(sv, 0))) by {
        match tokenize_from(sv, 0) {
            TokOutcome::Tokens(ts) => { assert(Seq::<TokenV>::empty() + ts =~= ts); },
            _ => {},
        }
    }
    while i < s.len()
        invariant
            i <= s@.len(),
            sv == s@,
            sv == input@,
            spec_tokenize(sv) == after_tokens(tokens_view(tokens@), tokenize_from(sv, i as int)),
        decreases s.len() - i,
    {
        let c = s[i];
        let ghost old_tokens = tokens_view(tokens@);
        let ghost rest = tokenize_from(sv, i as int);
        let mut next: usize = i + 1;
        let mut tok: Option<Token> = None;
        if c == ' ' || c == '\t' || c == '\n' || c == '\r' || c == ',' {
        } else if c == '(' {
            tok = Some(Token::LeftParen);
        } else if c == ')' {
            tok = Some(Token::RightParen);
        } else if c == '[' {
            tok = Some(Token::LeftBracket);
        } else if c == ']' {
            tok = Some(Token::RightBracket);
        } else if c == '{' {
            tok = Some(Token::LeftBrace);
        } else if c == '}' {
            tok = Some(Token::RightBrace);
        } else if c == '"' {
            let (body, end) = string_body_exec(s.as_slice(), i + 1);
            tok = Some(Token::String(chars_string(body.as_slice())));
            next = end;
        } else if c == ':' {
            let j = run_end_exec(s.as_slice(), i + 1, Run::Keyword);
            let t = sub_slice(s.as_slice(), i, j);
            tok = Some(Token::Keyword(chars_string(t.as_slice())));
            next = j;
        } else if c == '#' {
            let j = run_end_exec(s.as_slice(), i + 1, Run::Tag);
            let t = sub_slice(s.as_slice(), i + 1, j);
            tok = Some(Token::TaggedLiteral(chars_string(t.as_slice())));
            next = j;
        } else if c == '-' && i + 1 < s.len() && char_is_numeric(s[i + 1]) {
            let (j, dot) = parse_number(s.as_slice(), i + 1, false);
            let t = sub_slice(s.as_slice(), i, j);
            proof {
                assert(number_end(sv, i + 1, false) == (j as int, dot));
                assert(!is_edn_space(c));
                assert(c == '-' && i + 1 < sv.len() && spec_is_numeric(sv[i + 1]));
            }
            match number_token_exec(t.as_slice(), dot) {
                Some(k) => {
                    tok = Some(k);
                    next = j;
                },
                None => {
                    proof {
                        assert(number_token(sv.subrange(i as int, j as int), dot) is None);
                        assert(rest is Panic);
                        assert(spec_tokenize(sv) is Panic);
                    }
                    return Err(None);
                },
            }
        } else if c == '-' {
            let j = parse_symbol(s.as_slice(), i + 1);
            let t = sub_slice(s.as_slice(), i, j);
            tok = Some(Token::Symbol(chars_string(t.as_slice())));
            next = j;
        } else if '0' <= c && c <= '9' {
            let digit = char_is_numeric(c);
            assert(digit);
            let (j, dot) = parse_number(s.as_slice(), i, false);
            let t = sub_slice(s.as_slice(), i, j);
            match number_token_exec(t.as_slice(), dot) {
                Some(k) => {
                    tok = Some(k);
                    next = j;
                },
                None => {
                    proof {
                        assert(rest is Panic);
                        assert(spec_tokenize(sv) is Panic);
                    }
                    return Err(None);
                },
            }
        } else if char_is_alphabetic(c) || c == '?' || c == '_' {
            let j = parse_symbol(s.as_slice(), i + 1);
            let t = sub_slice(s.as_slice(), i, j);
            tok = Some(symbol_token_exec(t.as_slice()));
            next = j;
        } else {
            let mut cs: Vec<char> = Vec::new();
            cs.push(c);
            let cstr = chars_string(cs.as_slice());
            let msg = concat2("Unexpected character: ", cstr.as_str());
            proof {
                assert(cs@ =~= seq![c]);
                assert(rest == TokOutcome::Error("Unexpected character: "@ + seq![c]));
            }
            return Err(Some(msg));
        }
        proof {
            assert(next > i);
        }
        match tok {
            Some(k) => {
                proof {
                    assert(rest == cons_token(k@, tokenize_from(sv, next as int)));
                }
                tokens.push(k);
                proof {
                    assert(tokens_view(tokens@) =~= old_tokens.push(k@));
                    match tokenize_from(sv, next as int) {
                        TokOutcome::Tokens(ts) => {
                            assert(old_tokens + (seq![k@] + ts) =~= old_tokens.push(k@) + ts);
                        },
                        _ => {},
                    }
                }
            },
            None => {
                proof {
                    assert(rest == tokenize_from(sv, next as int));
                }
            },
        }
        i = next;
    }
    proof {
        assert(tokenize_from(sv, i as int) == TokOutcome::Tokens(Seq::<TokenV>::empty()));
        assert(tokens_view(tokens@) + Seq::<TokenV>::empty() =~= tokens_view(tokens@));
    }
    Ok(tokens)
}


/// The value read from the tokens at position `p`, and the position after it.
pub open spec fn spec_value_at(t: Seq<TokenV>, p: int) -> Result<(EdnV, int), Seq<char>>
    decreases t.len() - p, 0int,
{
    if p < 0 || p >= t.len() {
        Err("Unexpected end of input"@)
    } else {
        match t[p] {
            TokenV::LeftParen => match spec_items_at(t, p + 1, true) {
                Ok((vs, q)) => Ok((EdnV::List(vs), q)),
                Err(e) => Err(e),
            },
            TokenV::LeftBracket => match spec_items_at(t, p + 1, false) {
                Ok((vs, q)) => Ok((EdnV::Vector(vs), q)),
                Err(e) => Err(e),
            },
            TokenV::LeftBrace => match spec_pairs_at(t, p + 1) {
                Ok((ps, q)) => Ok((EdnV::Mapping(ps), q)),
                Err(e) => Err(e),
            },
            TokenV::Keyword(k) => Ok((EdnV::Keyword(k), p + 1)),
            TokenV::Symbol(k) => Ok((EdnV::Symbol(k), p + 1)),
            TokenV::String(k) => Ok((EdnV::String(k), p + 1)),
            TokenV::Integer(i) => Ok((EdnV::Integer(i), p + 1)),
            TokenV::Float(f) => Ok((EdnV::Float(f), p + 1)),
            TokenV::Boolean(b) => Ok((EdnV::Boolean(b), p + 1)),
            TokenV::Nil => Ok((EdnV::Nil, p + 1)),
            TokenV::TaggedLiteral(tag) => if tag == "uuid"@ {
                if p + 1 < t.len() && t[p + 1] is String {
                    let u = t[p + 1]->String_0;
                    match spec_uuid_parse(u) {
                        Some(x) => Ok((EdnV::Uuid(x), p + 2)),
                        None => Err("Invalid UUID: "@ + u),
                    }
                } else {
                    Err("Expected UUID string after #uuid tag"@)
                }
            } else {
                Err("Unknown tagged literal: #"@ + tag)
            },
            TokenV::RightParen => Err("Unexpected token: RightParen"@),
            TokenV::RightBracket => Err("Unexpected token: RightBracket"@),
            TokenV::RightBrace => Err("Unexpected token: RightBrace"@),
        }
    }
}

/// The elements of a list (`list`) or vector read from position `p` up to
/// and including its closing token.
pub open spec fn spec_items_at(t: Seq<TokenV>, p: int, list: bool) -> Result<(Seq<EdnV>, int), Seq<char>>
    decreases t.len() - p, 1int,
{
    if p < 0 || p >= t.len() {
        Err(if list { "Unclosed list"@ } else { "Unclosed vector"@ })
    } else if (list && t[p] is RightParen) || (!list && t[p] is RightBracket) {
        Ok((seq![], p + 1))
    } else {
        match spec_value_at(t, p) {
            Err(e) => Err(e),
            Ok((v, q)) => if p < q <= t.len() {
                match spec_items_at(t, q, list) {
                    Ok((vs, r)) => Ok((seq![v] + vs, r)),
                    Err(e) => Err(e),
                }
            } else {
                Err(seq![])
            },
        }
    }
}

/// The key/value pairs of a map read from position `p` up to and including
/// its closing brace.
pub open spec fn spec_pairs_at(t: Seq<TokenV>, p: int) -> Result<(Seq<(EdnV, EdnV)>, int), Seq<char>>
    decreases t.len() - p, 1int,
{
    if p < 0 || p >= t.len() {
        Err("Unterminated map: missing '}'"@)
    } else if t[p] is RightBrace {
        Ok((seq![], p + 1))
    } else {
        match spec_value_at(t, p) {
            Err(e) => Err(e),
            Ok((k, q)) => if p < q <= t.len() {
                match spec_value_at(t, q) {
                    Err(e) => Err(e),
                    Ok((v, r)) => if q < r <= t.len() {
                        match spec_pairs_at(t, r) {
                            Ok((ps, z)) => Ok((seq![(k, v)] + ps, z)),
                            Err(e) => Err(e),
                        }
                    } else {
                        Err(seq![])
                    },
                }
            } else {
                Err(seq![])
            },
        }
    }
}

/// The model of a parse result with its end position.
pub open spec fn value_result(r: Result<(EdnValue, usize), String>) -> Result<(EdnV, int), Seq<char>> {
    match r {
        Ok((v, q)) => Ok((v@, q as int)),
        Err(e) => Err(e@),
    }
}

/// Reads one EDN value from the tokens at position `p`.
pub fn parse_value(t: &Vec<Token>, p: usize) -> (r: Result<(EdnValue, usize), String>)
    requires
        p <= t@.len(),
    ensures
        value_result(r) == spec_value_at(tokens_view(t@), p as int),
        r matches Ok((_, q)) ==> p < q <= t@.len(),
    decreases t@.len() - p, 0nat,
{
    let ghost tv = tokens_view(t@);
    if p >= t.len() {
        return Err(to_owned_string("Unexpected end of input"));
    }
    assert(tv[p as int] == t@[p as int]@);
    match &t[p] {
        Token::LeftParen => match parse_items(t, p + 1, true) {
            Ok((vs, q)) => Ok((EdnValue::List(vs), q)),
            Err(e) => Err(e),
        },
        Token::LeftBracket => match parse_items(t, p + 1, false) {
            Ok((vs, q)) => Ok((EdnValue::Vector(vs), q)),
            Err(e) => Err(e),
        },
        Token::LeftBrace => match parse_map(t, p + 1) {
            Ok((ps, q)) => Ok((EdnValue::Mapping(ps), q)),
            Err(e) => Err(e),
        },
        Token::Keyword(k) => Ok((EdnValue::Keyword(k.clone()), p + 1)),
        Token::Symbol(k) => Ok((EdnValue::Symbol(k.clone()), p + 1)),
        Token::String(k) => Ok((EdnValue::String(k.clone()), p + 1)),
        Token::Integer(i) => Ok((EdnValue::Integer(*i), p + 1)),
        Token::Float(f) => Ok((EdnValue::Float(f.clone()), p + 1)),
        Token::Boolean(b) => Ok((EdnValue::Boolean(*b), p + 1)),
        Token::Nil => Ok((EdnValue::Nil, p + 1)),
        Token::TaggedLiteral(tag) => {
            if crate::text::str_is(tag.as_str(), "uuid") {
                if p + 1 < t.len() {
                    assert(tv[p + 1] == t@[p + 1]@);
                    match &t[p + 1] {
                        Token::String(u) => match uuid_parse(u.as_str()) {
                            Some(x) => Ok((EdnValue::Uuid(x), p + 2)),
                            None => Err(concat2("Invalid UUID: ", u.as_str())),
                        },
                        _ => Err(to_owned_string("Expected UUID string after #uuid tag")),
                    }
                } else {
                    Err(to_owned_string("Expected UUID string after #uuid tag"))
                }
            } else {
                Err(concat2("Unknown tagged literal: #", tag.as_str()))
            }
        },
        Token::RightParen => Err(to_owned_string("Unexpected token: RightParen")),
        Token::RightBracket => Err(to_owned_string("Unexpected token: RightBracket")),
        Token::RightBrace => Err(to_owned_string("Unexpected token: RightBrace")),
    }
}

fn parse_items(t: &Vec<Token>, p: usize, list: bool) -> (r: Result<(Vec<EdnValue>, usize), String>)
    requires
        p <= t@.len(),
    ensures
        (match r {
            Ok((vs, q)) => Ok((edn_seq_view(vs@), q as int)),
            Err(e) => Err(e@),
        }) == spec_items_at(tokens_view(t@), p as int, list),
        r matches Ok((_, q)) ==> p < q <= t@.len(),
    decreases t@.len() - p, 1nat,
{
    let ghost tv = tokens_view(t@);
    if p >= t.len() {
        if list {
            return Err(to_owned_string("Unclosed list"));
        } else {
            return Err(to_owned_string("Unclosed vector"));
        }
    }
    assert(tv[p as int] == t@[p as int]@);
    let closes = match &t[p] {
        Token::RightParen => list,
        Token::RightBracket => !list,
        _ => false,
    };
    if closes {
        let v: Vec<EdnValue> = Vec::new();
        assert(edn_seq_view(v@) =~= Seq::<EdnV>::empty());
        return Ok((v, p + 1));
    }
    match parse_value(t, p) {
        Err(e) => Err(e),
        Ok((v, q)) => match parse_items(t, q, list) {
            Ok((vs, r)) => {
                let ghost rest = edn_seq_view(vs@);
                let mut out: Vec<EdnValue> = Vec::new();
                out.push(v);
                let mut vs = vs;
                out.append(&mut vs);
                proof {
                    assert forall|j: int| 0 <= j < out@.len() implies edn_seq_view(out@)[j] == (seq![out@[0]@] + rest)[j] by {
                        if j > 0 {
                            assert(edn_seq_view(out@)[j] == out@[j]@);
                        }
                    }
                    assert(edn_seq_view(out@) =~= seq![out@[0]@] + rest);
                }
                Ok((out, r))
            },
            Err(e) => Err(e),
        },
    }
}

fn parse_map(t: &Vec<Token>, p: usize) -> (r: Result<(Vec<(EdnValue, EdnValue)>, usize), String>)
    requires
        p <= t@.len(),
    ensures
        (match r {
            Ok((ps, q)) => Ok((edn_pairs_view(ps@), q as int)),
            Err(e) => Err(e@),
        }) == spec_pairs_at(tokens_view(t@), p as int),
        r matches Ok((_, q)) ==> p < q <= t@.len(),
    decreases t@.len() - p, 1nat,
{
    let ghost tv = tokens_view(t@);
    if p >= t.len() {
        return Err(to_owned_string("Unterminated map: missing '}'"));
    }
    assert(tv[p as int] == t@[p as int]@);
    let closes = match &t[p] {
        Token::RightBrace => true,
        _ => false,
    };
    if closes {
        let v: Vec<(EdnValue, EdnValue)> = Vec::new();
        assert(edn_pairs_view(v@) =~= Seq::<(EdnV, EdnV)>::empty());
        return Ok((v, p + 1));
    }
    match parse_value(t, p) {
        Err(e) => Err(e),
        Ok((k, q)) => match parse_value(t, q) {
            Err(e) => Err(e),
            Ok((v, r)) => match parse_map(t, r) {
                Ok((ps, z)) => {
                    let ghost rest = edn_pairs_view(ps@);
                    let ghost kv = (k@, v@);
                    let mut out: Vec<(EdnValue, EdnValue)> = Vec::new();
                    out.push((k, v));
                    let mut ps = ps;
                    out.append(&mut ps);
                    proof {
                        assert forall|j: int| 0 <= j < out@.len() implies edn_pairs_view(out@)[j] == (seq![kv] + rest)[j] by {
                            if j > 0 {
                                assert(edn_pairs_view(out@)[j] == (out@[j].0@, out@[j].1@));
                            }
                        }
                        assert(edn_pairs_view(out@) =~= seq![kv] + rest);
                    }
                    Ok((out, z))
                },
                Err(e) => Err(e),
            },
        },
    }
}

/// The EDN value that text denotes (trailing tokens are ignored).
pub open spec fn spec_parse_edn(s: Seq<char>) -> Result<EdnV, Seq<char>> {
    match spec_tokenize(s) {
        TokOutcome::Tokens(t) => match spec_value_at(t, 0) {
            Ok((v, _)) => Ok(v),
            Err(e) => Err(e),
        },
        TokOutcome::Error(e) => Err(e),
        TokOutcome::Panic => Err(seq![]),
    }
}

/// The model of an EDN parse result.
pub open spec fn edn_result(r: Result<EdnValue, String>) -> Result<EdnV, Seq<char>> {
    match r {
        Ok(v) => Ok(v@),
        Err(e) => Err(e@),
    }
}

/// Reads an EDN value from text. Number literals must convert.
pub fn parse_edn(input: &str) -> (r: Result<EdnValue, String>)
    requires
        !(spec_tokenize(input@) is Panic),
    ensures
        edn_result(r) == spec_parse_edn(input@),
{
    let tokens = tokenize(input)?;
    match parse_value(&tokens, 0) {
        Ok((v, _)) => Ok(v),
        Err(e) => Err(e),
    }
}

/// Reads an EDN value from text; `None` when a number literal does not
/// convert (on which reading panics).
pub fn parse_edn_checked(input: &str) -> (r: Option<Result<EdnValue, String>>)
    ensures
        r is None <==> spec_tokenize(input@) is Panic,
        r matches Some(x) ==> edn_result(x) == spec_parse_edn(input@),
{
    match scan_tokens(input) {
        Err(None) => None,
        _ => Some(parse_edn(input)),
    }
}


/// The pattern of a `[e a v]` vector.
pub open spec fn pattern_of(v: Seq<EdnV>) -> Result<PatternV, Seq<char>> {
    if v.len() == 3 {
        Ok(PatternV { entity: v[0], attribute: v[1], value: v[2], valid_from: None, valid_to: None })
    } else {
        Err(pattern_len_error(v.len()))
    }
}

/// A list inside a `(not ...)`: a rule invocation (a nested `not` is refused).
pub open spec fn inner_list_clause(l: Seq<EdnV>) -> Result<ClauseV, Seq<char>> {
    if l.len() == 0 {
        Err("Empty list in :where clause"@)
    } else {
        match l[0] {
            EdnV::Symbol(s) => if s == "not"@ {
                Err("(not ...) cannot appear inside another (not ...)"@)
            } else {
                Ok(ClauseV::RuleInvocation { predicate: s, args: l.drop_first() })
            },
            other => Err("Rule invocation must start with predicate name (symbol), got "@ + edn_debug_text(other)),
        }
    }
}

/// One clause of a `(not ...)` body: a pattern vector or an inner list.
pub open spec fn not_item(e: EdnV) -> Result<ClauseV, Seq<char>> {
    match e {
        EdnV::Vector(v) => match pattern_of(v) {
            Ok(p) => Ok(ClauseV::Pattern(p)),
            Err(e) => Err(e),
        },
        EdnV::List(x) => inner_list_clause(x),
        other => Err("expected pattern or rule invocation inside (not), got "@ + edn_debug_text(other)),
    }
}

/// The clauses of a `(not ...)` body from position `i` on, after `acc`.
pub open spec fn not_items(l: Seq<EdnV>, i: int, acc: Seq<ClauseV>) -> Result<Seq<ClauseV>, Seq<char>>
    decreases l.len() - i,
{
    if i < 0 || i >= l.len() {
        Ok(acc)
    } else {
        match not_item(l[i]) {
            Ok(c) => not_items(l, i + 1, acc.push(c)),
            Err(e) => Err(e),
        }
    }
}

/// A list in a `:where` clause or rule body: `(not ...)` or a rule invocation.
pub open spec fn list_clause(l: Seq<EdnV>) -> Result<ClauseV, Seq<char>> {
    if l.len() == 0 {
        Err("Empty list in :where clause"@)
    } else {
        match l[0] {
            EdnV::Symbol(s) => if s == "not"@ {
                if l.len() < 2 {
                    Err("(not) requires at least one clause"@)
                } else {
                    match not_items(l, 1, seq![]) {
                        Ok(cs) => Ok(ClauseV::Not(cs)),
                        Err(e) => Err(e),
                    }
                }
            } else {
                Ok(ClauseV::RuleInvocation { predicate: s, args: l.drop_first() })
            },
            other => Err("Rule invocation must start with predicate name (symbol), got "@ + edn_debug_text(other)),
        }
    }
}

/// The variable an EDN value names, unless it is an anonymous `?_...` one.
pub open spec fn named_var(e: EdnV) -> Seq<Seq<char>> {
    if edn_is_var(e) && !is_prefix("?_"@, e->Symbol_0) { seq![e->Symbol_0] } else { seq![] }
}

/// The named variables among the values.
pub open spec fn named_vars(s: Seq<EdnV>) -> Seq<Seq<char>>
    decreases s.len(),
{
    if s.len() == 0 { seq![] } else { named_vars(s.drop_last()) + named_var(s.last()) }
}

/// The variables a clause binds for the `not` safety check: those of a
/// pattern or rule invocation (a `not` binds none).
pub open spec fn outer_vars(c: ClauseV) -> Seq<Seq<char>> {
    match c {
        ClauseV::Pattern(p) => named_var(p.entity) + named_var(p.attribute) + named_var(p.value),
        ClauseV::RuleInvocation { args, .. } => named_vars(args),
        _ => seq![],
    }
}

/// The variables the clauses bind for the `not` safety check.
pub open spec fn all_outer(cs: Seq<ClauseV>) -> Seq<Seq<char>>
    decreases cs.len(),
{
    if cs.len() == 0 { seq![] } else { all_outer(cs.drop_last()) + outer_vars(cs.last()) }
}

/// The first of `vs` not in `bound`, if any.
pub open spec fn first_unbound(vs: Seq<Seq<char>>, bound: Set<Seq<char>>) -> Option<Seq<char>>
    decreases vs.len(),
{
    if vs.len() == 0 {
        None
    } else if !bound.contains(vs[0]) {
        Some(vs[0])
    } else {
        first_unbound(vs.drop_first(), bound)
    }
}

/// The `not` safety check: every variable of a `(not ...)` body is bound
/// outside; the first offending variable is reported.
pub open spec fn not_safety(cs: Seq<ClauseV>, bound: Set<Seq<char>>) -> Result<(), Seq<char>>
    decreases cs.len(),
{
    if cs.len() == 0 {
        Ok(())
    } else {
        match cs[0] {
            ClauseV::Not(inner) => match first_unbound(all_outer(inner), bound) {
                Some(v) => Err("variable "@ + v + " in (not ...) is not bound by any outer clause"@),
                None => not_safety(cs.drop_first(), bound),
            },
            _ => not_safety(cs.drop_first(), bound),
        }
    }
}

/// The state of reading a query vector.
pub struct QScan {
    pub find: Seq<FindSpecV>,
    pub wh: Seq<ClauseV>,
    pub cur: Option<Seq<char>>,
    pub as_of: Option<AsOf>,
    pub valid_at: Option<ValidAt>,
}

/// The `:as-of` value: a non-negative transaction counter or a timestamp.
pub open spec fn as_of_value(e: EdnV) -> Result<AsOf, Seq<char>> {
    match e {
        EdnV::Integer(n) => if n >= 0 {
            Ok(AsOf::Counter(n as u64))
        } else {
            Err(":as-of counter must be non-negative, got "@ + int_text(n as int))
        },
        EdnV::String(s) => match spec_parse_timestamp(s) {
            Ok(t) => Ok(AsOf::Timestamp(t)),
            Err(m) => Err(m),
        },
        other => Err(":as-of must be an integer (counter) or ISO 8601 string, got "@ + edn_debug_text(other)),
    }
}

/// The `:valid-at` value: a timestamp or `:any-valid-time`.
pub open spec fn valid_at_value(e: EdnV) -> Result<ValidAt, Seq<char>> {
    match e {
        EdnV::String(s) => match spec_parse_timestamp(s) {
            Ok(t) => Ok(ValidAt::Timestamp(t)),
            Err(m) => Err(m),
        },
        EdnV::Keyword(k) => if k == ":any-valid-time"@ {
            Ok(ValidAt::AnyValidTime)
        } else {
            Err(":valid-at must be an ISO 8601 string or :any-valid-time, got "@ + edn_debug_text(e))
        },
        other => Err(":valid-at must be an ISO 8601 string or :any-valid-time, got "@ + edn_debug_text(other)),
    }
}

/// A non-keyword element of the query vector, read under the current section.
pub open spec fn query_element(st: QScan, e: EdnV) -> Result<QScan, Seq<char>> {
    if st.cur == Some(":find"@) {
        if edn_is_var(e) {
            Ok(QScan { find: st.find.push(FindSpecV::Variable(e->Symbol_0)), ..st })
        } else {
            Err("Expected variable in :find clause, got "@ + edn_debug_text(e))
        }
    } else if st.cur == Some(":where"@) {
        match e {
            EdnV::Vector(v) => match pattern_of(v) {
                Ok(p) => Ok(QScan { wh: st.wh.push(ClauseV::Pattern(p)), ..st }),
                Err(m) => Err(m),
            },
            EdnV::List(l) => match list_clause(l) {
                Ok(c) => Ok(QScan { wh: st.wh.push(c), ..st }),
                Err(m) => Err(m),
            },
            _ => Err("Expected pattern vector or rule invocation in :where clause, got "@ + edn_debug_text(e)),
        }
    } else {
        Err("Unexpected element in query: "@ + edn_debug_text(e))
    }
}

/// Reading the query vector from position `i` on.
pub open spec fn query_scan(qv: Seq<EdnV>, i: int, st: QScan) -> Result<QScan, Seq<char>>
    decreases qv.len() - i,
{
    if i < 0 || i >= qv.len() {
        Ok(st)
    } else {
        match qv[i] {
            EdnV::Keyword(k) => if k == ":as-of"@ {
                if i + 1 >= qv.len() {
                    Err(":as-of requires a value"@)
                } else {
                    match as_of_value(qv[i + 1]) {
                        Ok(a) => query_scan(qv, i + 2, QScan { as_of: Some(a), ..st }),
                        Err(m) => Err(m),
                    }
                }
            } else if k == ":valid-at"@ {
                if i + 1 >= qv.len() {
                    Err(":valid-at requires a value"@)
                } else {
                    match valid_at_value(qv[i + 1]) {
                        Ok(a) => query_scan(qv, i + 2, QScan { valid_at: Some(a), ..st }),
                        Err(m) => Err(m),
                    }
                }
            } else {
                query_scan(qv, i + 1, QScan { cur: Some(k), ..st })
            },
            other => match query_element(st, other) {
                Ok(st2) => query_scan(qv, i + 1, st2),
                Err(m) => Err(m),
            },
        }
    }
}

/// `(query [:find ... :where ...])`.
pub open spec fn spec_query_cmd(els: Seq<EdnV>) -> Result<DatalogCommandV, Seq<char>> {
    if els.len() == 0 {
        Err("Query requires a map argument"@)
    } else {
        match els[0] {
            EdnV::Vector(qv) => match query_scan(
                qv,
                0,
                QScan { find: seq![], wh: seq![], cur: None, as_of: None, valid_at: None },
            ) {
                Err(m) => Err(m),
                Ok(st) => match not_safety(st.wh, all_outer(st.wh).to_set()) {
                    Err(m) => Err(m),
                    Ok(_) => Ok(DatalogCommandV::Query(DatalogQueryV {
                        find: st.find,
                        where_clauses: st.wh,
                        as_of: st.as_of,
                        valid_at: st.valid_at,
                        with_vars: seq![],
                    })),
                },
            },
            _ => Err("Query argument must be a vector"@),
        }
    }
}

/// Reading a valid-time map `{:valid-from "ts" :valid-to "ts"}` from entry `i` on.
pub open spec fn vt_scan(
    m: Seq<(EdnV, EdnV)>,
    i: int,
    from: Option<i64>,
    to: Option<i64>,
) -> Result<(Option<i64>, Option<i64>), Seq<char>>
    decreases m.len() - i,
{
    if i < 0 || i >= m.len() {
        Ok((from, to))
    } else {
        let (k, v) = m[i];
        if k == EdnV::Keyword(":valid-from"@) {
            match v {
                EdnV::String(s) => match spec_parse_timestamp(s) {
                    Ok(t) => vt_scan(m, i + 1, Some(t), to),
                    Err(e) => Err(e),
                },
                other => Err(":valid-from must be an ISO 8601 string, got "@ + edn_debug_text(other)),
            }
        } else if k == EdnV::Keyword(":valid-to"@) {
            match v {
                EdnV::String(s) => match spec_parse_timestamp(s) {
                    Ok(t) => vt_scan(m, i + 1, from, Some(t)),
                    Err(e) => Err(e),
                },
                other => Err(":valid-to must be an ISO 8601 string, got "@ + edn_debug_text(other)),
            }
        } else {
            Err("Unknown key in valid-time map: "@ + edn_debug_text(k) + "; expected :valid-from or :valid-to"@)
        }
    }
}

/// `a`, or else `b`.
pub open spec fn or_else(a: Option<i64>, b: Option<i64>) -> Option<i64> {
    match a {
        Some(x) => Some(x),
        None => b,
    }
}

/// Reading the facts of a transaction from position `i` on.
pub open spec fn facts_scan(
    fv: Seq<EdnV>,
    i: int,
    from: Option<i64>,
    to: Option<i64>,
    acc: Seq<PatternV>,
) -> Result<Seq<PatternV>, Seq<char>>
    decreases fv.len() - i,
{
    if i < 0 || i >= fv.len() {
        Ok(acc)
    } else {
        match fv[i] {
            EdnV::Vector(f) => if f.len() < 3 {
                Err("Fact must have at least 3 elements (E A V), got "@ + nat_text(f.len()))
            } else {
                let opts = if f.len() >= 4 {
                    match f[3] {
                        EdnV::Mapping(ps) => vt_scan(ps, 0, None, None),
                        other => Err(
                            "Optional 4th element of a fact must be a map {:valid-from ... :valid-to ...}, got "@
                                + edn_debug_text(other),
                        ),
                    }
                } else {
                    Ok((None, None))
                };
                match opts {
                    Err(e) => Err(e),
                    Ok((ff, ft)) => facts_scan(
                        fv,
                        i + 1,
                        from,
                        to,
                        acc.push(PatternV {
                            entity: f[0],
                            attribute: f[1],
                            value: f[2],
                            valid_from: or_else(ff, from),
                            valid_to: or_else(ft, to),
                        }),
                    ),
                }
            },
            _ => Err("Each fact must be a vector [e a v] or [e a v {opts}]"@),
        }
    }
}

/// `(transact [facts])` or `(transact {opts} [facts])`.
pub open spec fn spec_transact_cmd(els: Seq<EdnV>) -> Result<DatalogCommandV, Seq<char>> {
    if els.len() == 0 {
        Err("Transact requires a vector of facts"@)
    } else {
        let head: Result<(Option<i64>, Option<i64>, EdnV), Seq<char>> = match els[0] {
            EdnV::Mapping(m) => match vt_scan(m, 0, None, None) {
                Err(e) => Err(e),
                Ok((f, t)) => if els.len() < 2 {
                    Err("Transact with options requires a facts vector after the map"@)
                } else {
                    Ok((f, t, els[1]))
                },
            },
            _ => Ok((None, None, els[0])),
        };
        match head {
            Err(e) => Err(e),
            Ok((f, t, fe)) => match fe {
                EdnV::Vector(fv) => match facts_scan(fv, 0, f, t, seq![]) {
                    Ok(ps) => Ok(DatalogCommandV::Transact(TransactionV { facts: ps, valid_from: f, valid_to: t })),
                    Err(e) => Err(e),
                },
                _ => Err("Transact argument must be a vector of facts"@),
            },
        }
    }
}

/// Reading the facts of a retraction from position `i` on.
pub open spec fn retract_scan(fv: Seq<EdnV>, i: int, acc: Seq<PatternV>) -> Result<Seq<PatternV>, Seq<char>>
    decreases fv.len() - i,
{
    if i < 0 || i >= fv.len() {
        Ok(acc)
    } else {
        match fv[i] {
            EdnV::Vector(f) => match pattern_of(f) {
                Ok(p) => retract_scan(fv, i + 1, acc.push(p)),
                Err(e) => Err(e),
            },
            _ => Err("Each fact must be a vector [e a v]"@),
        }
    }
}

/// `(retract [facts])`.
pub open spec fn spec_retract_cmd(els: Seq<EdnV>) -> Result<DatalogCommandV, Seq<char>> {
    if els.len() == 0 {
        Err("Retract requires a vector of facts"@)
    } else {
        match els[0] {
            EdnV::Vector(fv) => match retract_scan(fv, 0, seq![]) {
                Ok(ps) => Ok(DatalogCommandV::Retract(TransactionV { facts: ps, valid_from: None, valid_to: None })),
                Err(e) => Err(e),
            },
            _ => Err("Retract argument must be a vector"@),
        }
    }
}

/// Reading the body clauses of a rule from position `i` on.
pub open spec fn body_scan(bv: Seq<EdnV>, i: int, acc: Seq<ClauseV>) -> Result<Seq<ClauseV>, Seq<char>>
    decreases bv.len() - i,
{
    if i < 0 || i >= bv.len() {
        Ok(acc)
    } else {
        match body_item(bv[i]) {
            Ok(c) => body_scan(bv, i + 1, acc.push(c)),
            Err(e) => Err(e),
        }
    }
}

/// The variables among the values.
pub open spec fn var_names(s: Seq<EdnV>) -> Seq<Seq<char>>
    decreases s.len(),
{
    if s.len() == 0 {
        seq![]
    } else {
        var_names(s.drop_last()) + (if edn_is_var(s.last()) { seq![s.last()->Symbol_0] } else { seq![] })
    }
}

/// `(rule [(head ?args) body...])`.
pub open spec fn spec_rule_cmd(els: Seq<EdnV>) -> Result<DatalogCommandV, Seq<char>> {
    if els.len() == 0 {
        Err("Rule must have a body"@)
    } else {
        match els[0] {
            EdnV::Vector(bv) => if bv.len() == 0 {
                Err("Rule body cannot be empty"@)
            } else {
                match bv[0] {
                    EdnV::List(head) => if head.len() == 0 {
                        Err("Rule head cannot be empty"@)
                    } else if !(head[0] is Symbol) {
                        Err("Rule head must start with a symbol (predicate name)"@)
                    } else {
                        match body_scan(bv, 1, seq![]) {
                            Err(e) => Err(e),
                            Ok(body) => if body.len() == 0 {
                                Err("Rule must have at least one pattern or rule invocation in body"@)
                            } else {
                                match not_safety(body, (var_names(head.drop_first()) + all_outer(body)).to_set()) {
                                    Err(e) => Err(e),
                                    Ok(_) => Ok(DatalogCommandV::Rule(RuleV { head, body })),
                                }
                            },
                        }
                    },
                    _ => Err("Rule head must be a list: (predicate ?args)"@),
                }
            },
            _ => Err("Rule body must be a vector"@),
        }
    }
}

/// The command an EDN value denotes.
pub open spec fn spec_command(e: EdnV) -> Result<DatalogCommandV, Seq<char>> {
    match e {
        EdnV::List(els) => if els.len() == 0 {
            Err("Expected a list starting with a command symbol"@)
        } else {
            let c = match els[0] {
                EdnV::Symbol(s) => Some(s),
                EdnV::Keyword(k) => Some(k),
                _ => None,
            };
            match c {
                None => Err("Expected command symbol"@),
                Some(c) => {
                    let rest = els.drop_first();
                    if c == "query"@ {
                        spec_query_cmd(rest)
                    } else if c == "transact"@ {
                        spec_transact_cmd(rest)
                    } else if c == "retract"@ {
                        spec_retract_cmd(rest)
                    } else if c == "rule"@ {
                        spec_rule_cmd(rest)
                    } else {
                        Err("Unknown command: "@ + c)
                    }
                },
            }
        },
        _ => Err("Expected a list starting with a command symbol"@),
    }
}

/// The Datalog command that text denotes.
pub open spec fn spec_parse_datalog_command(s: Seq<char>) -> Result<DatalogCommandV, Seq<char>> {
    match spec_parse_edn(s) {
        Ok(e) => spec_command(e),
        Err(e) => Err(e),
    }
}


/// The model of a clause result.
pub open spec fn clause_result(r: Result<WhereClause, String>) -> Result<ClauseV, Seq<char>> {
    match r {
        Ok(c) => Ok(c@),
        Err(e) => Err(e@),
    }
}

fn with_debug(prefix: &str, e: &EdnValue) -> (r: String)
    ensures
        r@ == prefix@ + edn_debug_text(e@),
{
    let d = edn_debug(e);
    concat2(prefix, d.as_str())
}

fn pattern_of_exec(v: &Vec<EdnValue>) -> (r: Result<Pattern, String>)
    ensures
        (match r {
            Ok(p) => Ok(p@),
            Err(e) => Err(e@),
        }) == pattern_of(edn_seq_view(v@)),
{
    let r = Pattern::from_edn(v.as_slice());
    proof {
        let ev = edn_seq_view(v@);
        if v@.len() == 3 {
            assert(ev[0] == v@[0]@ && ev[1] == v@[1]@ && ev[2] == v@[2]@);
        }
    }
    r
}

fn tail_clone(v: &Vec<EdnValue>, from: usize) -> (r: Vec<EdnValue>)
    requires
        from <= v@.len(),
    ensures
        edn_seq_view(r@) == edn_seq_view(v@).subrange(from as int, v@.len() as int),
{
    let mut out: Vec<EdnValue> = Vec::new();
    let mut k: usize = from;
    while k < v.len()
        invariant
            from <= k <= v@.len(),
            out@.len() == k - from,
            forall|j: int| 0 <= j < out@.len() ==> #[trigger] out@[j]@ == v@[from + j]@,
        decreases v.len() - k,
    {
        out.push(v[k].clone());
        k = k + 1;
    }
    proof {
        let a = edn_seq_view(out@);
        let b = edn_seq_view(v@).subrange(from as int, v@.len() as int);
        assert forall|j: int| 0 <= j < a.len() implies a[j] == b[j] by {
            assert(a[j] == out@[j]@);
            assert(b[j] == v@[from + j]@);
        }
        assert(a =~= b);
    }
    out
}

fn inner_list_clause_exec(l: &Vec<EdnValue>) -> (r: Result<WhereClause, String>)
    ensures
        clause_result(r) == inner_list_clause(edn_seq_view(l@)),
{
    let ghost lv = edn_seq_view(l@);
    if l.len() == 0 {
        return Err(to_owned_string("Empty list in :where clause"));
    }
    assert(lv[0] == l@[0]@);
    match &l[0] {
        EdnValue::Symbol(s) => {
            if crate::text::str_is(s.as_str(), "not") {
                Err(to_owned_string("(not ...) cannot appear inside another (not ...)"))
            } else {
                let args = tail_clone(l, 1);
                assert(lv.subrange(1, lv.len() as int) =~= lv.drop_first());
                Ok(WhereClause::RuleInvocation { predicate: s.clone(), args })
            }
        },
        other => Err(with_debug("Rule invocation must start with predicate name (symbol), got ", other)),
    }
}

fn not_item_exec(e: &EdnValue) -> (r: Result<WhereClause, String>)
    ensures
        clause_result(r) == not_item(e@),
{
    match e {
        EdnValue::Vector(v) => match pattern_of_exec(v) {
            Ok(p) => Ok(WhereClause::Pattern(p)),
            Err(e) => Err(e),
        },
        EdnValue::List(x) => inner_list_clause_exec(x),
        other => Err(with_debug("expected pattern or rule invocation inside (not), got ", other)),
    }
}

fn parse_list_as_where_clause(l: &Vec<EdnValue>) -> (r: Result<WhereClause, String>)
    ensures
        clause_result(r) == list_clause(edn_seq_view(l@)),
{
    let ghost lv = edn_seq_view(l@);
    if l.len() == 0 {
        return Err(to_owned_string("Empty list in :where clause"));
    }
    assert(lv[0] == l@[0]@);
    match &l[0] {
        EdnValue::Symbol(s) => {
            if crate::text::str_is(s.as_str(), "not") {
                if l.len() < 2 {
                    return Err(to_owned_string("(not) requires at least one clause"));
                }
                let mut inner: Vec<WhereClause> = Vec::new();
                let mut i: usize = 1;
                assert(clause_seq_view(inner@) =~= Seq::<ClauseV>::empty());
                while i < l.len()
                    invariant
                        1 <= i <= l@.len(),
                        lv == edn_seq_view(l@),
                        not_items(lv, 1, seq![]) == not_items(lv, i as int, clause_seq_view(inner@)),
                        list_clause(lv) == (match not_items(lv, 1, seq![]) {
                            Ok(cs) => Ok(ClauseV::Not(cs)),
                            Err(e) => Err(e),
                        }),
                    decreases l.len() - i,
                {
                    assert(lv[i as int] == l@[i as int]@);
                    let c = not_item_exec(&l[i]);
                    match c {
                        Ok(c) => {
                            let ghost before = clause_seq_view(inner@);
                            let ghost cv = c@;
                            inner.push(c);
                            assert(clause_seq_view(inner@) =~= before.push(cv)) by {
                                assert forall|j: int| 0 <= j < inner@.len() implies #[trigger] clause_seq_view(inner@)[j] == before.push(cv)[j] by {
                                    if j < before.len() {
                                        assert(clause_seq_view(inner@)[j] == inner@[j]@);
                                    }
                                }
                            }
                        },
                        Err(e) => {
                            return Err(e);
                        },
                    }
                    i = i + 1;
                }
                Ok(WhereClause::Not(inner))
            } else {
                let args = tail_clone(l, 1);
                assert(lv.subrange(1, lv.len() as int) =~= lv.drop_first());
                Ok(WhereClause::RuleInvocation { predicate: s.clone(), args })
            }
        },
        other => Err(with_debug("Rule invocation must start with predicate name (symbol), got ", other)),
    }
}

/// The models of a list of names.
pub open spec fn name_seq(s: Seq<String>) -> Seq<Seq<char>> {
    s.map_values(|x: String| x@)
}

fn push_named_var(out: &mut Vec<String>, e: &EdnValue)
    ensures
        name_seq(final(out)@) == name_seq(old(out)@) + named_var(e@),
{
    let ghost before = name_seq(out@);
    match e.as_variable() {
        Some(name) => {
            let nc = str_chars(name);
            let pre: Vec<char> = vec!['?', '_'];
            assert(pre@ =~= "?_"@) by { reveal_strlit("?_"); }
            if !crate::text::starts_with_chars(nc.as_slice(), pre.as_slice()) {
                out.push(to_owned_string(name));
                assert(name_seq(out@) =~= before + seq![name@]);
            } else {
                assert(name_seq(out@) =~= before + Seq::<Seq<char>>::empty());
            }
        },
        None => {
            assert(name_seq(out@) =~= before + Seq::<Seq<char>>::empty());
        },
    }
}

fn outer_vars_from_clause(out: &mut Vec<String>, c: &WhereClause)
    ensures
        name_seq(final(out)@) == name_seq(old(out)@) + outer_vars(c@),
{
    let ghost before = name_seq(out@);
    match c {
        WhereClause::Pattern(p) => {
            push_named_var(out, &p.entity);
            push_named_var(out, &p.attribute);
            push_named_var(out, &p.value);
            assert(name_seq(out@) =~= before + outer_vars(c@));
        },
        WhereClause::RuleInvocation { args, .. } => {
            let ghost av = edn_seq_view(args@);
            let mut i: usize = 0;
            assert(av.subrange(0, 0) =~= Seq::<EdnV>::empty());
            assert(name_seq(out@) =~= before + named_vars(av.subrange(0, 0)));
            while i < args.len()
                invariant
                    i <= args@.len(),
                    av == edn_seq_view(args@),
                    name_seq(out@) == before + named_vars(av.subrange(0, i as int)),
                decreases args.len() - i,
            {
                assert(av.subrange(0, i + 1).drop_last() =~= av.subrange(0, i as int));
                assert(av[i as int] == args@[i as int]@);
                push_named_var(out, &args[i]);
                i = i + 1;
                assert(name_seq(out@) =~= before + named_vars(av.subrange(0, i as int)));
            }
            assert(av.subrange(0, args.len() as int) =~= av);
        },
        _ => {
            assert(name_seq(out@) =~= before + outer_vars(c@));
        },
    }
}

fn push_all_outer(out: &mut Vec<String>, cs: &Vec<WhereClause>)
    ensures
        name_seq(final(out)@) == name_seq(old(out)@) + all_outer(clause_seq_view(cs@)),
{
    let ghost before = name_seq(out@);
    let ghost cv = clause_seq_view(cs@);
    let mut i: usize = 0;
    assert(name_seq(out@) =~= before + all_outer(cv.subrange(0, 0)));
    while i < cs.len()
        invariant
            i <= cs@.len(),
            cv == clause_seq_view(cs@),
            name_seq(out@) == before + all_outer(cv.subrange(0, i as int)),
        decreases cs.len() - i,
    {
        assert(cv.subrange(0, i + 1).drop_last() =~= cv.subrange(0, i as int));
        assert(cv[i as int] == cs@[i as int]@);
        outer_vars_from_clause(out, &cs[i]);
        i = i + 1;
        assert(name_seq(out@) =~= before + all_outer(cv.subrange(0, i as int)));
    }
    assert(cv.subrange(0, cs.len() as int) =~= cv);
}

fn name_in(names: &Vec<String>, x: &String) -> (r: bool)
    ensures
        r == name_seq(names@).to_set().contains(x@),
{
    let mut i: usize = 0;
    while i < names.len()
        invariant
            i <= names@.len(),
            forall|j: int| 0 <= j < i ==> names@[j]@ != x@,
        decreases names.len() - i,
    {
        if crate::text::str_is(names[i].as_str(), x.as_str()) {
            assert(name_seq(names@)[i as int] == x@);
            return true;
        }
        i = i + 1;
    }
    proof {
        if name_seq(names@).to_set().contains(x@) {
            let j = choose|j: int| 0 <= j < name_seq(names@).len() && name_seq(names@)[j] == x@;
            assert(names@[j]@ == x@);
        }
    }
    false
}

fn check_not_safety(cs: &Vec<WhereClause>, bound: &Vec<String>) -> (r: Result<(), String>)
    ensures
        (match r {
            Ok(_) => Ok(()),
            Err(e) => Err(e@),
        }) == not_safety(clause_seq_view(cs@), name_seq(bound@).to_set()),
{
    let ghost cv = clause_seq_view(cs@);
    let ghost bs = name_seq(bound@).to_set();
    let mut i: usize = 0;
    assert(cv.subrange(0, cv.len() as int) =~= cv);
    while i < cs.len()
        invariant
            i <= cs@.len(),
            cv == clause_seq_view(cs@),
            bs == name_seq(bound@).to_set(),
            not_safety(cv, bs) == not_safety(cv.subrange(i as int, cv.len() as int), bs),
        decreases cs.len() - i,
    {
        let ghost rest = cv.subrange(i as int, cv.len() as int);
        assert(rest[0] == cs@[i as int]@);
        assert(rest.drop_first() =~= cv.subrange(i + 1, cv.len() as int));
        match &cs[i] {
            WhereClause::Not(inner) => {
                let mut vars: Vec<String> = Vec::new();
                assert(name_seq(vars@) =~= Seq::<Seq<char>>::empty());
                push_all_outer(&mut vars, inner);
                let ghost vs = name_seq(vars@);
                assert(vs =~= all_outer(clause_seq_view(inner@)));
                let mut k: usize = 0;
                assert(vs.subrange(0, vs.len() as int) =~= vs);
                while k < vars.len()
                    invariant
                        k <= vars@.len(),
                        i < cs@.len(),
                        vs == name_seq(vars@),
                        bs == name_seq(bound@).to_set(),
                        cv == clause_seq_view(cs@),
                        cs@[i as int]@ == ClauseV::Not(clause_seq_view(inner@)),
                        vs == all_outer(clause_seq_view(inner@)),
                        not_safety(cv, bs) == not_safety(cv.subrange(i as int, cv.len() as int), bs),
                        cv.subrange(i as int, cv.len() as int)[0] == cs@[i as int]@,
                        first_unbound(vs, bs) == first_unbound(vs.subrange(k as int, vs.len() as int), bs),
                    decreases vars.len() - k,
                {
                    let ghost vr = vs.subrange(k as int, vs.len() as int);
                    assert(vr[0] == vars@[k as int]@);
                    assert(vr.drop_first() =~= vs.subrange(k + 1, vs.len() as int));
                    if !name_in(bound, &vars[k]) {
                        assert(first_unbound(vr, bs) == Some(vars@[k as int]@));
                        assert(first_unbound(vs, bs) == Some(vars@[k as int]@));
                        return Err(concat3("variable ", vars[k].as_str(), " in (not ...) is not bound by any outer clause"));
                    }
                    k = k + 1;
                }
                assert(vs.subrange(k as int, vs.len() as int) =~= Seq::<Seq<char>>::empty());
            },
            _ => {},
        }
        i = i + 1;
    }
    assert(cv.subrange(i as int, cv.len() as int) =~= Seq::<ClauseV>::empty());
    Ok(())
}


/// The model of an optional text.
pub open spec fn opt_text(o: Option<String>) -> Option<Seq<char>> {
    match o {
        Some(s) => Some(s@),
        None => None,
    }
}

/// The query-reading state that the executable state denotes.
pub open spec fn qscan_of(
    find: Seq<FindSpec>,
    wh: Seq<WhereClause>,
    cur: Option<String>,
    as_of: Option<AsOf>,
    valid_at: Option<ValidAt>,
) -> QScan {
    QScan { find: find_specs_view(find), wh: clause_seq_view(wh), cur: opt_text(cur), as_of, valid_at }
}

fn as_of_value_exec(e: &EdnValue) -> (r: Result<AsOf, String>)
    ensures
        (match r {
            Ok(a) => Ok(a),
            Err(m) => Err(m@),
        }) == as_of_value(e@),
{
    match e {
        EdnValue::Integer(n) => {
            if *n >= 0 {
                Ok(AsOf::Counter(*n as u64))
            } else {
                let t = i64_to_string(*n);
                Err(concat2(":as-of counter must be non-negative, got ", t.as_str()))
            }
        },
        EdnValue::String(s) => match parse_timestamp(s.as_str()) {
            Ok(t) => Ok(AsOf::Timestamp(t)),
            Err(m) => Err(m),
        },
        other => Err(with_debug(":as-of must be an integer (counter) or ISO 8601 string, got ", other)),
    }
}

fn valid_at_value_exec(e: &EdnValue) -> (r: Result<ValidAt, String>)
    ensures
        (match r {
            Ok(a) => Ok(a),
            Err(m) => Err(m@),
        }) == valid_at_value(e@),
{
    match e {
        EdnValue::String(s) => match parse_timestamp(s.as_str()) {
            Ok(t) => Ok(ValidAt::Timestamp(t)),
            Err(m) => Err(m),
        },
        EdnValue::Keyword(k) => {
            if crate::text::str_is(k.as_str(), ":any-valid-time") {
                Ok(ValidAt::AnyValidTime)
            } else {
                Err(with_debug(":valid-at must be an ISO 8601 string or :any-valid-time, got ", e))
            }
        },
        other => Err(with_debug(":valid-at must be an ISO 8601 string or :any-valid-time, got ", other)),
    }
}

fn push_clause(v: &mut Vec<WhereClause>, c: WhereClause)
    ensures
        clause_seq_view(final(v)@) == clause_seq_view(old(v)@).push(c@),
{
    let ghost before = clause_seq_view(v@);
    let ghost cv = c@;
    v.push(c);
    assert forall|j: int| 0 <= j < v@.len() implies #[trigger] clause_seq_view(v@)[j] == before.push(cv)[j] by {
        if j < before.len() {
            assert(clause_seq_view(v@)[j] == v@[j]@);
        }
    }
    assert(clause_seq_view(v@) =~= before.push(cv));
}

fn text_is(o: &Option<String>, w: &str) -> (r: bool)
    ensures
        r == (opt_text(*o) == Some(w@)),
{
    match o {
        Some(s) => crate::text::str_is(s.as_str(), w),
        None => false,
    }
}

fn parse_query(els: &Vec<EdnValue>) -> (r: Result<DatalogCommand, String>)
    requires
        els@.len() >= 1,
    ensures
        (match r {
            Ok(c) => Ok(c@),
            Err(e) => Err(e@),
        }) == spec_query_cmd(edn_seq_view(els@).drop_first()),
{
    let ghost ev = edn_seq_view(els@).drop_first();
    if els.len() < 2 {
        return Err(to_owned_string("Query requires a map argument"));
    }
    assert(ev[0] == els@[1]@);
    let qv = match &els[1] {
        EdnValue::Vector(qv) => qv,
        _ => {
            return Err(to_owned_string("Query argument must be a vector"));
        },
    };
    let ghost qvv = edn_seq_view(qv@);
    let ghost init = QScan { find: seq![], wh: seq![], cur: None, as_of: None, valid_at: None };
    let mut find: Vec<FindSpec> = Vec::new();
    let mut wh: Vec<WhereClause> = Vec::new();
    let mut cur: Option<String> = None;
    let mut as_of: Option<AsOf> = None;
    let mut valid_at: Option<ValidAt> = None;
    assert(qscan_of(find@, wh@, cur, as_of, valid_at) == init) by {
        assert(find_specs_view(find@) =~= Seq::<FindSpecV>::empty());
        assert(clause_seq_view(wh@) =~= Seq::<ClauseV>::empty());
    }
    let mut i: usize = 0;
    while i < qv.len()
        invariant
            i <= qv@.len(),
            qvv == edn_seq_view(qv@),
            ev == edn_seq_view(els@).drop_first(),
            ev.len() >= 1,
            ev[0] == EdnV::Vector(qvv),
            init == (QScan { find: seq![], wh: seq![], cur: None, as_of: None, valid_at: None }),
            query_scan(qvv, 0, init) == query_scan(qvv, i as int, qscan_of(find@, wh@, cur, as_of, valid_at)),
        decreases qv.len() - i,
    {
        let ghost st = qscan_of(find@, wh@, cur, as_of, valid_at);
        assert(qvv[i as int] == qv@[i as int]@);
        match &qv[i] {
            EdnValue::Keyword(k) => {
                if crate::text::str_is(k.as_str(), ":as-of") {
                    if i + 1 >= qv.len() {
                        return Err(to_owned_string(":as-of requires a value"));
                    }
                    assert(qvv[i + 1] == qv@[i + 1]@);
                    match as_of_value_exec(&qv[i + 1]) {
                        Ok(a) => {
                            as_of = Some(a);
                        },
                        Err(m) => {
                            return Err(m);
                        },
                    }
                    i = i + 2;
                    continue;
                } else if crate::text::str_is(k.as_str(), ":valid-at") {
                    if i + 1 >= qv.len() {
                        return Err(to_owned_string(":valid-at requires a value"));
                    }
                    assert(qvv[i + 1] == qv@[i + 1]@);
                    match valid_at_value_exec(&qv[i + 1]) {
                        Ok(a) => {
                            valid_at = Some(a);
                        },
                        Err(m) => {
                            return Err(m);
                        },
                    }
                    i = i + 2;
                    continue;
                } else {
                    cur = Some(k.clone());
                    i = i + 1;
                    continue;
                }
            },
            other => {
                if text_is(&cur, ":find") {
                    match other.as_variable() {
                        Some(name) => {
                            let ghost before = find_specs_view(find@);
                            find.push(FindSpec::Variable(to_owned_string(name)));
                            assert(find_specs_view(find@) =~= before.push(FindSpecV::Variable(name@)));
                        },
                        None => {
                            return Err(with_debug("Expected variable in :find clause, got ", other));
                        },
                    }
                } else if text_is(&cur, ":where") {
                    match other {
                        EdnValue::Vector(v) => match pattern_of_exec(v) {
                            Ok(p) => {
                                push_clause(&mut wh, WhereClause::Pattern(p));
                            },
                            Err(m) => {
                                return Err(m);
                            },
                        },
                        EdnValue::List(l) => match parse_list_as_where_clause(l) {
                            Ok(c) => {
                                push_clause(&mut wh, c);
                            },
                            Err(m) => {
                                return Err(m);
                            },
                        },
                        _ => {
                            return Err(with_debug(
                                "Expected pattern vector or rule invocation in :where clause, got ",
                                other,
                            ));
                        },
                    }
                } else {
                    return Err(with_debug("Unexpected element in query: ", other));
                }
                i = i + 1;
            },
        }
    }
    let ghost fin = qscan_of(find@, wh@, cur, as_of, valid_at);
    assert(query_scan(qvv, i as int, fin) == Ok::<QScan, Seq<char>>(fin));
    let mut bound: Vec<String> = Vec::new();
    assert(name_seq(bound@) =~= Seq::<Seq<char>>::empty());
    push_all_outer(&mut bound, &wh);
    assert(name_seq(bound@) =~= all_outer(clause_seq_view(wh@)));
    match check_not_safety(&wh, &bound) {
        Err(m) => Err(m),
        Ok(_) => {
            let mut q = DatalogQuery::new(find, wh);
            q.as_of = as_of;
            q.valid_at = valid_at;
            assert(q.with_vars@.map_values(|v: String| v@) =~= Seq::<Seq<char>>::empty());
            Ok(DatalogCommand::Query(q))
        },
    }
}

fn parse_valid_time_map(m: &Vec<(EdnValue, EdnValue)>) -> (r: Result<(Option<i64>, Option<i64>), String>)
    ensures
        (match r {
            Ok(x) => Ok(x),
            Err(e) => Err(e@),
        }) == vt_scan(edn_pairs_view(m@), 0, None, None),
{
    let ghost mv = edn_pairs_view(m@);
    let mut from: Option<i64> = None;
    let mut to: Option<i64> = None;
    let mut i: usize = 0;
    while i < m.len()
        invariant
            i <= m@.len(),
            mv == edn_pairs_view(m@),
            vt_scan(mv, 0, None, None) == vt_scan(mv, i as int, from, to),
        decreases m.len() - i,
    {
        let (k, v) = (&m[i].0, &m[i].1);
        assert(mv[i as int] == (k@, v@));
        let is_from = match k {
            EdnValue::Keyword(s) => crate::text::str_is(s.as_str(), ":valid-from"),
            _ => false,
        };
        let is_to = match k {
            EdnValue::Keyword(s) => crate::text::str_is(s.as_str(), ":valid-to"),
            _ => false,
        };
        assert(is_from == (k@ == EdnV::Keyword(":valid-from"@)));
        assert(is_to == (k@ == EdnV::Keyword(":valid-to"@)));
        if is_from {
            match v {
                EdnValue::String(s) => match parse_timestamp(s.as_str()) {
                    Ok(t) => {
                        from = Some(t);
                    },
                    Err(e) => {
                        return Err(e);
                    },
                },
                other => {
                    return Err(with_debug(":valid-from must be an ISO 8601 string, got ", other));
                },
            }
        } else if is_to {
            match v {
                EdnValue::String(s) => match parse_timestamp(s.as_str()) {
                    Ok(t) => {
                        to = Some(t);
                    },
                    Err(e) => {
                        return Err(e);
                    },
                },
                other => {
                    return Err(with_debug(":valid-to must be an ISO 8601 string, got ", other));
                },
            }
        } else {
            let d = edn_debug(k);
            return Err(concat3("Unknown key in valid-time map: ", d.as_str(), "; expected :valid-from or :valid-to"));
        }
        i = i + 1;
    }
    Ok((from, to))
}

fn or_else_exec(a: Option<i64>, b: Option<i64>) -> (r: Option<i64>)
    ensures
        r == or_else(a, b),
{
    match a {
        Some(x) => Some(x),
        None => b,
    }
}

fn push_pattern(v: &mut Vec<Pattern>, p: Pattern)
    ensures
        patterns_view(final(v)@) == patterns_view(old(v)@).push(p@),
{
    let ghost before = patterns_view(v@);
    let ghost pv = p@;
    v.push(p);
    assert(patterns_view(v@) =~= before.push(pv));
}

fn parse_transact(els: &Vec<EdnValue>) -> (r: Result<DatalogCommand, String>)
    requires
        els@.len() >= 1,
    ensures
        (match r {
            Ok(c) => Ok(c@),
            Err(e) => Err(e@),
        }) == spec_transact_cmd(edn_seq_view(els@).drop_first()),
{
    let ghost ev = edn_seq_view(els@).drop_first();
    if els.len() < 2 {
        return Err(to_owned_string("Transact requires a vector of facts"));
    }
    assert(ev[0] == els@[1]@);
    let (txf, txt, fe): (Option<i64>, Option<i64>, &EdnValue) = match &els[1] {
        EdnValue::Mapping(m) => match parse_valid_time_map(m) {
            Err(e) => {
                return Err(e);
            },
            Ok((f, t)) => {
                if els.len() < 3 {
                    return Err(to_owned_string("Transact with options requires a facts vector after the map"));
                }
                assert(ev[1] == els@[2]@);
                (f, t, &els[2])
            },
        },
        _ => (None, None, &els[1]),
    };
    let fv = match fe {
        EdnValue::Vector(fv) => fv,
        _ => {
            return Err(to_owned_string("Transact argument must be a vector of facts"));
        },
    };
    let ghost fvv = edn_seq_view(fv@);
    let mut pats: Vec<Pattern> = Vec::new();
    assert(patterns_view(pats@) =~= Seq::<PatternV>::empty());
    let mut i: usize = 0;
    while i < fv.len()
        invariant
            i <= fv@.len(),
            fvv == edn_seq_view(fv@),
            ev == edn_seq_view(els@).drop_first(),
            spec_transact_cmd(ev) == (match facts_scan(fvv, 0, txf, txt, seq![]) {
                Ok(ps) => Ok(DatalogCommandV::Transact(TransactionV { facts: ps, valid_from: txf, valid_to: txt })),
                Err(e) => Err(e),
            }),
            facts_scan(fvv, 0, txf, txt, seq![]) == facts_scan(fvv, i as int, txf, txt, patterns_view(pats@)),
        decreases fv.len() - i,
    {
        assert(fvv[i as int] == fv@[i as int]@);
        let f = match &fv[i] {
            EdnValue::Vector(f) => f,
            _ => {
                return Err(to_owned_string("Each fact must be a vector [e a v] or [e a v {opts}]"));
            },
        };
        let ghost fw = edn_seq_view(f@);
        if f.len() < 3 {
            let n = usize_to_string(f.len());
            return Err(concat2("Fact must have at least 3 elements (E A V), got ", n.as_str()));
        }
        let (ff, ft): (Option<i64>, Option<i64>) = if f.len() >= 4 {
            assert(fw[3] == f@[3]@);
            match &f[3] {
                EdnValue::Mapping(ps) => match parse_valid_time_map(ps) {
                    Ok(x) => x,
                    Err(e) => {
                        return Err(e);
                    },
                },
                other => {
                    return Err(with_debug(
                        "Optional 4th element of a fact must be a map {:valid-from ... :valid-to ...}, got ",
                        other,
                    ));
                },
            }
        } else {
            (None, None)
        };
        assert(fw[0] == f@[0]@ && fw[1] == f@[1]@ && fw[2] == f@[2]@);
        let p = Pattern::with_valid_time(
            f[0].clone(),
            f[1].clone(),
            f[2].clone(),
            or_else_exec(ff, txf),
            or_else_exec(ft, txt),
        );
        push_pattern(&mut pats, p);
        i = i + 1;
    }
    let mut tx = Transaction::new(pats);
    tx.valid_from = txf;
    tx.valid_to = txt;
    Ok(DatalogCommand::Transact(tx))
}

fn parse_retract(els: &Vec<EdnValue>) -> (r: Result<DatalogCommand, String>)
    requires
        els@.len() >= 1,
    ensures
        (match r {
            Ok(c) => Ok(c@),
            Err(e) => Err(e@),
        }) == spec_retract_cmd(edn_seq_view(els@).drop_first()),
{
    let ghost ev = edn_seq_view(els@).drop_first();
    if els.len() < 2 {
        return Err(to_owned_string("Retract requires a vector of facts"));
    }
    assert(ev[0] == els@[1]@);
    let fv = match &els[1] {
        EdnValue::Vector(fv) => fv,
        _ => {
            return Err(to_owned_string("Retract argument must be a vector"));
        },
    };
    let ghost fvv = edn_seq_view(fv@);
    let mut pats: Vec<Pattern> = Vec::new();
    assert(patterns_view(pats@) =~= Seq::<PatternV>::empty());
    let mut i: usize = 0;
    while i < fv.len()
        invariant
            i <= fv@.len(),
            fvv == edn_seq_view(fv@),
            ev == edn_seq_view(els@).drop_first(),
            ev.len() >= 1,
            ev[0] == EdnV::Vector(fvv),
            retract_scan(fvv, 0, seq![]) == retract_scan(fvv, i as int, patterns_view(pats@)),
        decreases fv.len() - i,
    {
        assert(fvv[i as int] == fv@[i as int]@);
        match &fv[i] {
            EdnValue::Vector(f) => match pattern_of_exec(f) {
                Ok(p) => {
                    push_pattern(&mut pats, p);
                },
                Err(e) => {
                    return Err(e);
                },
            },
            _ => {
                return Err(to_owned_string("Each fact must be a vector [e a v]"));
            },
        }
        i = i + 1;
    }
    Ok(DatalogCommand::Retract(Transaction::new(pats)))
}

/// One clause of a rule body: a pattern vector or a list.
pub open spec fn body_item(e: EdnV) -> Result<ClauseV, Seq<char>> {
    match e {
        EdnV::Vector(v) => match pattern_of(v) {
            Ok(p) => Ok(ClauseV::Pattern(p)),
            Err(e) => Err(e),
        },
        EdnV::List(l) => list_clause(l),
        other => Err(
            "Rule body clause must be a vector (pattern) or list (rule invocation / not), got "@
                + edn_debug_text(other),
        ),
    }
}

fn body_item_exec(e: &EdnValue) -> (r: Result<WhereClause, String>)
    ensures
        clause_result(r) == body_item(e@),
{
    match e {
        EdnValue::Vector(v) => match pattern_of_exec(v) {
            Ok(p) => Ok(WhereClause::Pattern(p)),
            Err(e) => Err(e),
        },
        EdnValue::List(l) => parse_list_as_where_clause(l),
        other => Err(with_debug(
            "Rule body clause must be a vector (pattern) or list (rule invocation / not), got ",
            other,
        )),
    }
}

fn push_head_vars(out: &mut Vec<String>, head: &Vec<EdnValue>)
    requires
        head@.len() >= 1,
    ensures
        name_seq(final(out)@) == name_seq(old(out)@) + var_names(edn_seq_view(head@).drop_first()),
{
    let ghost before = name_seq(out@);
    let ghost hv = edn_seq_view(head@).drop_first();
    let mut i: usize = 1;
    assert(hv.subrange(0, 0) =~= Seq::<EdnV>::empty());
    assert(name_seq(out@) =~= before + var_names(hv.subrange(0, 0)));
    while i < head.len()
        invariant
            1 <= i <= head@.len(),
            hv == edn_seq_view(head@).drop_first(),
            name_seq(out@) == before + var_names(hv.subrange(0, i - 1)),
        decreases head.len() - i,
    {
        assert(hv.subrange(0, i as int).drop_last() =~= hv.subrange(0, i - 1));
        assert(hv[i - 1] == head@[i as int]@);
        let ghost b2 = name_seq(out@);
        match head[i].as_variable() {
            Some(name) => {
                out.push(to_owned_string(name));
                assert(name_seq(out@) =~= b2.push(name@));
            },
            None => {},
        }
        i = i + 1;
        assert(name_seq(out@) =~= before + var_names(hv.subrange(0, i - 1)));
    }
    assert(hv.subrange(0, head.len() - 1) =~= hv);
}

fn parse_rule(els: &Vec<EdnValue>) -> (r: Result<DatalogCommand, String>)
    requires
        els@.len() >= 1,
    ensures
        (match r {
            Ok(c) => Ok(c@),
            Err(e) => Err(e@),
        }) == spec_rule_cmd(edn_seq_view(els@).drop_first()),
{
    let ghost ev = edn_seq_view(els@).drop_first();
    if els.len() < 2 {
        return Err(to_owned_string("Rule must have a body"));
    }
    assert(ev[0] == els@[1]@);
    let bv = match &els[1] {
        EdnValue::Vector(bv) => bv,
        _ => {
            return Err(to_owned_string("Rule body must be a vector"));
        },
    };
    let ghost bvv = edn_seq_view(bv@);
    if bv.len() == 0 {
        return Err(to_owned_string("Rule body cannot be empty"));
    }
    assert(bvv[0] == bv@[0]@);
    let head = match &bv[0] {
        EdnValue::List(h) => h,
        _ => {
            return Err(to_owned_string("Rule head must be a list: (predicate ?args)"));
        },
    };
    if head.len() == 0 {
        return Err(to_owned_string("Rule head cannot be empty"));
    }
    assert(edn_seq_view(head@)[0] == head@[0]@);
    match &head[0] {
        EdnValue::Symbol(_) => {},
        _ => {
            return Err(to_owned_string("Rule head must start with a symbol (predicate name)"));
        },
    }
    let mut body: Vec<WhereClause> = Vec::new();
    assert(clause_seq_view(body@) =~= Seq::<ClauseV>::empty());
    let mut i: usize = 1;
    while i < bv.len()
        invariant
            1 <= i <= bv@.len(),
            bvv == edn_seq_view(bv@),
            ev == edn_seq_view(els@).drop_first(),
            ev.len() >= 1,
            ev[0] == EdnV::Vector(bvv),
            bvv[0] == EdnV::List(edn_seq_view(head@)),
            head@.len() >= 1,
            edn_seq_view(head@)[0] is Symbol,
            body_scan(bvv, 1, seq![]) == body_scan(bvv, i as int, clause_seq_view(body@)),
        decreases bv.len() - i,
    {
        assert(bvv[i as int] == bv@[i as int]@);
        match body_item_exec(&bv[i]) {
            Ok(c) => {
                push_clause(&mut body, c);
            },
            Err(e) => {
                return Err(e);
            },
        }
        i = i + 1;
    }
    if body.len() == 0 {
        return Err(to_owned_string("Rule must have at least one pattern or rule invocation in body"));
    }
    let mut bound: Vec<String> = Vec::new();
    assert(name_seq(bound@) =~= Seq::<Seq<char>>::empty());
    push_head_vars(&mut bound, head);
    push_all_outer(&mut bound, &body);
    match check_not_safety(&body, &bound) {
        Err(e) => Err(e),
        Ok(_) => {
            let h = clone_edn_values(head);
            Ok(DatalogCommand::Rule(Rule { head: h, body }))
        },
    }
}

fn command_exec(e: &EdnValue) -> (r: Result<DatalogCommand, String>)
    ensures
        (match r {
            Ok(c) => Ok(c@),
            Err(e) => Err(e@),
        }) == spec_command(e@),
{
    let els = match e {
        EdnValue::List(els) => els,
        _ => {
            return Err(to_owned_string("Expected a list starting with a command symbol"));
        },
    };
    if els.len() == 0 {
        return Err(to_owned_string("Expected a list starting with a command symbol"));
    }
    assert(edn_seq_view(els@)[0] == els@[0]@);
    let c: &String = match &els[0] {
        EdnValue::Symbol(s) => s,
        EdnValue::Keyword(k) => k,
        _ => {
            return Err(to_owned_string("Expected command symbol"));
        },
    };
    if crate::text::str_is(c.as_str(), "query") {
        parse_query(els)
    } else if crate::text::str_is(c.as_str(), "transact") {
        parse_transact(els)
    } else if crate::text::str_is(c.as_str(), "retract") {
        parse_retract(els)
    } else if crate::text::str_is(c.as_str(), "rule") {
        parse_rule(els)
    } else {
        Err(concat2("Unknown command: ", c.as_str()))
    }
}

/// The model of a command parse result.
pub open spec fn command_result(r: Result<DatalogCommand, String>) -> Result<DatalogCommandV, Seq<char>> {
    match r {
        Ok(c) => Ok(c@),
        Err(e) => Err(e@),
    }
}

/// Parses a Datalog command: `(query [...])`, `(transact ...)`,
/// `(retract [...])` or `(rule [...])`. Number literals must convert.
pub fn parse_datalog_command(input: &str) -> (r: Result<DatalogCommand, String>)
    requires
        !(spec_tokenize(input@) is Panic),
    ensures
        command_result(r) == spec_parse_datalog_command(input@),
{
    let edn = parse_edn(input)?;
    command_exec(&edn)
}

/// Parses a Datalog command; `None` when a number literal does not convert
/// (on which parsing panics).
pub fn parse_datalog_command_checked(input: &str) -> (r: Option<Result<DatalogCommand, String>>)
    ensures
        r is None <==> spec_tokenize(input@) is Panic,
        r matches Some(x) ==> command_result(x) == spec_parse_datalog_command(input@),
{
    match scan_tokens(input) {
        Err(None) => None,
        _ => Some(parse_datalog_command(input)),
    }
}

} // verus!

verus! {

/// Whether a character stands for itself in a string literal: it neither
/// closes the literal nor starts an escape.
pub open spec fn plain_char(c: char) -> bool {
    c != '"' && c != '\\'
}

/// A run of plain characters is read as itself.
proof fn lemma_plain_body(s: Seq<char>, i: int, t: Seq<char>)
    requires
        0 <= i,
        i + t.len() <= s.len(),
        s.subrange(i, i + t.len()) == t,
        forall|k: int| 0 <= k < t.len() ==> plain_char(#[trigger] t[k]),
    ensures
        string_body(s, i) == (t + string_body(s, i + t.len()).0, string_body(s, i + t.len()).1),
    decreases t.len(),
{
    if t.len() == 0 {
        assert(t + string_body(s, i).0 =~= string_body(s, i).0);
    } else {
        assert(s[i] == t[0]);
        assert(plain_char(t[0]));
        let t1 = t.drop_first();
        assert(s.subrange(i + 1, i + 1 + t1.len()) =~= t1);
        assert forall|k: int| 0 <= k < t1.len() implies plain_char(#[trigger] t1[k]) by {
            assert(t1[k] == t[k + 1]);
        }
        lemma_plain_body(s, i + 1, t1);
        assert(seq![t[0]] + (t1 + string_body(s, i + t.len()).0) =~= t + string_body(s, i + t.len()).0);
    }
}

/// A string literal `"pre\cpost"` whose text is plain apart from one escape
/// `\c` is tokenized as one string token in which the escape stands for the
/// character it denotes: `\n` a newline, `\t` a tab, `\r` a carriage return,
/// and `\\`, `\"` (or any other character) the character itself.
pub proof fn lemma_string_escape(pre: Seq<char>, c: char, post: Seq<char>)
    requires
        forall|k: int| 0 <= k < pre.len() ==> plain_char(#[trigger] pre[k]),
        forall|k: int| 0 <= k < post.len() ==> plain_char(#[trigger] post[k]),
    ensures
        spec_tokenize(seq!['"'] + pre + seq!['\\', c] + post + seq!['"']) == TokOutcome::Tokens(seq![
            TokenV::String(
                pre + seq![
                    if c == 'n' {
                        '\n'
                    } else if c == 't' {
                        '\t'
                    } else if c == 'r' {
                        '\r'
                    } else {
                        c
                    },
                ] + post,
            ),
        ]),
{
    let s = seq!['"'] + pre + seq!['\\', c] + post + seq!['"'];
    let a: int = 1 + pre.len() as int;
    let e: int = a + 2;
    let end: int = e + post.len();
    assert(s.subrange(1, a) =~= pre);
    assert(s.subrange(e, end) =~= post);
    assert(s[a] == '\\');
    assert(s[a + 1] == c);
    assert(s[end] == '"');
    assert(s.len() == end + 1);
    lemma_plain_body(s, e, post);
    assert(string_body(s, end) == (Seq::<char>::empty(), end + 1));
    assert(string_body(s, e) == (post + Seq::<char>::empty(), end + 1));
    assert(string_body(s, a) == (seq![unescape(c)] + (post + Seq::<char>::empty()), end + 1));
    lemma_plain_body(s, 1, pre);
    assert(s[0] == '"');
    assert(tokenize_from(s, end + 1) == TokOutcome::Tokens(Seq::<TokenV>::empty()));
    let body = pre + (seq![unescape(c)] + (post + Seq::<char>::empty()));
    assert(body =~= pre + seq![unescape(c)] + post);
    assert(seq![TokenV::String(body)] + Seq::<TokenV>::empty() =~= seq![TokenV::String(body)]);
}

/// A string literal of plain characters is tokenized as one string token
/// holding exactly those characters.
pub proof fn lemma_plain_string(t: Seq<char>)
    requires
        forall|k: int| 0 <= k < t.len() ==> plain_char(#[trigger] t[k]),
    ensures
        spec_tokenize(seq!['"'] + t + seq!['"']) == TokOutcome::Tokens(seq![TokenV::String(t)]),
{
    let s = seq!['"'] + t + seq!['"'];
    let end: int = 1 + t.len() as int;
    assert(s.subrange(1, end) =~= t);
    assert(s[end] == '"');
    assert(s[0] == '"');
    lemma_plain_body(s, 1, t);
    assert(string_body(s, end) == (Seq::<char>::empty(), end + 1));
    assert(t + Seq::<char>::empty() =~= t);
    assert(tokenize_from(s, end + 1) == TokOutcome::Tokens(Seq::<TokenV>::empty()));
    assert(seq![TokenV::String(t)] + Seq::<TokenV>::empty() =~= seq![TokenV::String(t)]);
}

} // verus!
