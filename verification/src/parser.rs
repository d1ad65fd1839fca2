//! Turning source text into tokens, and tokens into a syntax tree.
use vstd::prelude::*;
use crate::text::{chars_of, string_of, usize_text, nat_text, is_digit, parse_i64, parse_i64_text, same_text};
use crate::host::{Outcome, Fault, Request, Reply, Res, SFault, SRequest, Transcript, reply_at};
use crate::value::{SVal, Value, views, lemma_list_views};

verus! {

/// The kinds of token.
#[derive(Debug, Clone, Copy, PartialEq, Eq, Structural)]
pub enum TokenType {
    Int,
    Float,
    Str,
    Atom,
    LPar,
    RPar,
}

/// A token: its text, its kind, and the line and column where it starts.
#[derive(Debug, Clone, PartialEq)]
pub struct Token {
    token_expr: String,
    token_type: TokenType,
    line: usize,
    column: usize,
}

/// The model of a [`Token`].
pub struct TokenV {
    pub expr: Seq<char>,
    pub kind: TokenType,
    pub line: nat,
    pub column: nat,
}

impl View for Token {
    type V = TokenV;

    closed spec fn view(&self) -> TokenV {
        TokenV { expr: self.token_expr@, kind: self.token_type, line: self.line as nat, column: self.column as nat }
    }
}

pub open spec fn token_views(ts: Seq<Token>) -> Seq<TokenV> {
    Seq::new(ts.len(), |i: int| ts[i]@)
}

pub open spec fn tok(expr: Seq<char>, kind: TokenType, line: nat, column: nat) -> TokenV {
    TokenV { expr, kind, line, column }
}

/// Characters that make up a word (an atom that is not punctuation).
pub open spec fn is_word_char(c: char) -> bool {
    ('a' <= c && c <= 'z') || ('A' <= c && c <= 'Z') || c == '+' || c == '*' || c == '/' || c == '>'
        || c == '<' || c == '=' || c == '_'
}

/// Characters that form an atom on their own.
pub open spec fn is_punct_char(c: char) -> bool {
    c == '\'' || c == '`' || c == ',' || c == '@' || c == '.'
}

/// What a backslash followed by `d` stands for inside a string literal.
pub open spec fn escaped(d: char) -> Seq<char> {
    if d == 't' {
        seq!['\t']
    } else if d == 'n' {
        seq!['\n']
    } else if d == 'r' {
        seq!['\r']
    } else {
        seq!['\\', d]
    }
}

/// The message for a character that starts no token.
pub open spec fn unrecognised_message(c: char, line: nat, column: nat) -> Seq<char> {
    "could not recognise character '"@ + seq![c] + "' at line "@ + nat_text(line) + ", column "@
        + nat_text(column)
}

/// What the tokeniser is in the middle of.
pub enum LexMode {
    /// Between tokens.
    Normal,
    /// Inside a string literal: text so far, line and column of the opening quote.
    Quoted(Seq<char>, nat, nat),
    /// Inside a word: text so far, column of its first character.
    Word(Seq<char>, nat),
    /// Inside a number: text so far, whether a `.` was seen, column of its first character.
    Number(Seq<char>, bool, nat),
}

pub open spec fn mode_rank(m: LexMode) -> nat {
    match m {
        LexMode::Normal => 0,
        _ => 1,
    }
}

/// Tokenising from position `i`, at `line` and `column`, with the tokens `acc`
/// found so far, in `mode`.
pub open spec fn lex(cs: Seq<char>, i: nat, line: nat, column: nat, acc: Seq<TokenV>, mode: LexMode) -> Result<
    Seq<TokenV>,
    Seq<char>,
>
    decreases cs.len() - i, mode_rank(mode),
{
    match mode {
        LexMode::Normal => {
            if i >= cs.len() {
                Ok(acc)
            } else {
                let c = cs[i as int];
                if c == '(' {
                    lex(cs, i + 1, line, column + 1, acc.push(tok(seq!['('], TokenType::LPar, line, column)), LexMode::Normal)
                } else if c == ')' {
                    lex(cs, i + 1, line, column + 1, acc.push(tok(seq![')'], TokenType::RPar, line, column)), LexMode::Normal)
                } else if c == '"' {
                    lex(cs, i + 1, line, column + 1, acc, LexMode::Quoted(Seq::empty(), line, column))
                } else if is_word_char(c) {
                    lex(cs, i + 1, line, column + 1, acc, LexMode::Word(seq![c], column))
                } else if c == '-' {
                    lex(cs, i + 1, line, column + 1, acc.push(tok(seq!['-'], TokenType::Atom, line, column)), LexMode::Normal)
                } else if is_digit(c) {
                    lex(cs, i + 1, line, column + 1, acc, LexMode::Number(seq![c], false, column))
                } else if is_punct_char(c) {
                    lex(cs, i + 1, line, column + 1, acc.push(tok(seq![c], TokenType::Atom, line, column)), LexMode::Normal)
                } else if c == ' ' || c == '\t' {
                    lex(cs, i + 1, line, column + 1, acc, LexMode::Normal)
                } else if c == '\n' {
                    lex(cs, i + 1, line + 1, 1, acc, LexMode::Normal)
                } else if c == '\r' {
                    lex(cs, i + 1, line, column, acc, LexMode::Normal)
                } else {
                    Err(unrecognised_message(c, line, column))
                }
            }
        },
        LexMode::Word(text, start) => {
            if i < cs.len() && is_word_char(cs[i as int]) {
                lex(cs, i + 1, line, column + 1, acc, LexMode::Word(text.push(cs[i as int]), start))
            } else {
                lex(cs, i, line, column, acc.push(tok(text, TokenType::Atom, line, start)), LexMode::Normal)
            }
        },
        LexMode::Number(text, float, start) => {
            if i < cs.len() && (is_digit(cs[i as int]) || cs[i as int] == '.') {
                lex(cs, i + 1, line, column + 1, acc, LexMode::Number(text.push(cs[i as int]), float || cs[i as int] == '.', start))
            } else {
                let kind = if float { TokenType::Float } else { TokenType::Int };
                lex(cs, i, line, column, acc.push(tok(text, kind, line, start)), LexMode::Normal)
            }
        },
        LexMode::Quoted(text, sl, sc) => {
            if i >= cs.len() {
                lex(cs, i, line, column, acc.push(tok(text, TokenType::Str, sl, sc)), LexMode::Normal)
            } else {
                let c = cs[i as int];
                if c == '\\' {
                    if i + 1 < cs.len() {
                        lex(cs, i + 2, line, column + 2, acc, LexMode::Quoted(text + escaped(cs[i + 1 as int]), sl, sc))
                    } else {
                        lex(cs, i + 1, line, column + 2, acc, LexMode::Quoted(text.push('\\'), sl, sc))
                    }
                } else if c == '"' {
                    lex(cs, i + 1, line, column + 1, acc.push(tok(text, TokenType::Str, sl, sc)), LexMode::Normal)
                } else if c == '\n' {
                    lex(cs, i + 1, line + 1, 1, acc, LexMode::Quoted(text.push(c), sl, sc))
                } else {
                    lex(cs, i + 1, line, column + 1, acc, LexMode::Quoted(text.push(c), sl, sc))
                }
            }
        },
    }
}

/// The tokens of `s`, or the message for its first unrecognised character.
pub open spec fn tokenise_spec(s: Seq<char>) -> Result<Seq<TokenV>, Seq<char>> {
    lex(s, 0, 1, 1, Seq::empty(), LexMode::Normal)
}

fn is_word_char_exec(c: char) -> (r: bool)
    ensures
        r == is_word_char(c),
{
    ('a' <= c && c <= 'z') || ('A' <= c && c <= 'Z') || c == '+' || c == '*' || c == '/' || c == '>'
        || c == '<' || c == '=' || c == '_'
}

fn continues_token(word: bool, d: char) -> (r: bool)
    ensures
        r == (if word { is_word_char(d) } else { is_digit(d) || d == '.' }),
{
    if word {
        is_word_char_exec(d)
    } else {
        ('0' <= d && d <= '9') || d == '.'
    }
}

fn make_token(text: &Vec<char>, kind: TokenType, line: usize, column: usize) -> (t: Token)
    ensures
        t@ == tok(text@, kind, line as nat, column as nat),
{
    Token { token_expr: string_of(text.as_slice()), token_type: kind, line, column }
}

fn single_token(c: char, kind: TokenType, line: usize, column: usize) -> (t: Token)
    ensures
        t@ == tok(seq![c], kind, line as nat, column as nat),
{
    let mut v: Vec<char> = Vec::new();
    v.push(c);
    proof {
        assert(v@ =~= seq![c]);
    }
    make_token(&v, kind, line, column)
}

fn unrecognised(c: char, line: usize, column: usize) -> (m: String)
    ensures
        m@ == unrecognised_message(c, line as nat, column as nat),
{
    let mut v = chars_of("could not recognise character '");
    v.push(c);
    let mut a = chars_of("' at line ");
    v.append(&mut a);
    let mut b = usize_text(line);
    v.append(&mut b);
    let mut d = chars_of(", column ");
    v.append(&mut d);
    let mut e = usize_text(column);
    v.append(&mut e);
    proof {
        assert(v@ =~= unrecognised_message(c, line as nat, column as nat));
    }
    string_of(v.as_slice())
}

/// Splits `input` into tokens. Fails with a message naming the first
/// character that starts no token, and its line and column.
pub fn tokenise(input: &str) -> (r: Result<Vec<Token>, String>)
    ensures
        match r {
            Ok(ts) => tokenise_spec(input@) == Ok::<Seq<TokenV>, Seq<char>>(token_views(ts@))
                && ts@.len() <= input@.len() && input@.len() <= isize::MAX,
            Err(m) => tokenise_spec(input@) == Err::<Seq<TokenV>, Seq<char>>(m@),
        },
{
    let cs = chars_of(input);
    let n = cs.len();
    let mut toks: Vec<Token> = Vec::new();
    let mut i: usize = 0;
    let mut line: usize = 1;
    let mut column: usize = 1;
    proof {
        assert(token_views(toks@) =~= Seq::<TokenV>::empty());
    }
    while i < n
        invariant
            n == cs@.len(),
            cs@ == input@,
            n <= isize::MAX,
            i <= n,
            1 <= line <= i + 1,
            column <= i + 2 || (i == n && column <= n + 3),
            toks@.len() <= i,
            tokenise_spec(input@) == lex(cs@, i as nat, line as nat, column as nat, token_views(toks@), LexMode::Normal),
        decreases n - i,
    {
        let ghost acc = token_views(toks@);
        let ghost i0 = i;
        let c = cs[i];
        if c == '(' || c == ')' {
            let kind = if c == '(' { TokenType::LPar } else { TokenType::RPar };
            let t = single_token(c, kind, line, column);
            toks.push(t);
            proof {
                assert(token_views(toks@) =~= acc.push(t@));
            }
            i += 1;
            column += 1;
        } else if c == '"' {
            let sl = line;
            let sc = column;
            let mut text: Vec<char> = Vec::new();
            i += 1;
            column += 1;
            let mut done = false;
            while i < n && !done
                invariant
                    n == cs@.len(),
                    cs@ == input@,
                    n <= isize::MAX,
                    i <= n,
                    1 <= line <= i + 1,
                    column <= i + 2 || (i == n && column <= n + 3),
                    toks@.len() + 1 <= i,
                    i0 < i,
                    !done ==> tokenise_spec(input@) == lex(cs@, i as nat, line as nat, column as nat, token_views(toks@), LexMode::Quoted(text@, sl as nat, sc as nat)),
                    done ==> tokenise_spec(input@) == lex(cs@, i as nat, line as nat, column as nat, token_views(toks@), LexMode::Normal),
                    done ==> toks@.len() <= i,
                decreases n - i, (if done { 0int } else { 1int }),
            {
                let d = cs[i];
                if d == '\\' {
                    if i + 1 < n {
                        let e = cs[i + 1];
                        let ghost before = text@;
                        if e == 't' {
                            text.push('\t');
                        } else if e == 'n' {
                            text.push('\n');
                        } else if e == 'r' {
                            text.push('\r');
                        } else {
                            text.push('\\');
                            text.push(e);
                        }
                        proof {
                            assert(text@ =~= before + escaped(e));
                        }
                        i += 2;
                        column += 2;
                    } else {
                        text.push('\\');
                        i += 1;
                        column += 2;
                    }
                } else if d == '"' {
                    let ghost acc2 = token_views(toks@);
                    let t = make_token(&text, TokenType::Str, sl, sc);
                    toks.push(t);
                    proof {
                        assert(token_views(toks@) =~= acc2.push(t@));
                    }
                    i += 1;
                    column += 1;
                    done = true;
                } else if d == '\n' {
                    text.push(d);
                    i += 1;
                    line += 1;
                    column = 1;
                } else {
                    text.push(d);
                    i += 1;
                    column += 1;
                }
            }
            if !done {
                let ghost acc2 = token_views(toks@);
                let t = make_token(&text, TokenType::Str, sl, sc);
                toks.push(t);
                proof {
                    assert(token_views(toks@) =~= acc2.push(t@));
                }
            }
        } else if is_word_char_exec(c) || ('0' <= c && c <= '9') {
            let word = is_word_char_exec(c);
            let sc = column;
            let mut text: Vec<char> = Vec::new();
            text.push(c);
            let mut float = false;
            i += 1;
            column += 1;
            proof {
                assert(text@ =~= seq![c]);
            }
            while i < n && continues_token(word, cs[i])
                invariant
                    n == cs@.len(),
                    cs@ == input@,
                    n <= isize::MAX,
                    1 <= i <= n,
                    1 <= line <= i + 1,
                    column <= i + 2,
                    toks@.len() + 1 <= i,
                    i0 < i,
                    word ==> !float,
                    tokenise_spec(input@) == lex(cs@, i as nat, line as nat, column as nat, token_views(toks@),
                        if word { LexMode::Word(text@, sc as nat) } else { LexMode::Number(text@, float, sc as nat) }),
                decreases n - i,
            {
                let d = cs[i];
                text.push(d);
                if d == '.' {
                    float = true;
                }
                i += 1;
                column += 1;
            }
            let kind = if word { TokenType::Atom } else if float { TokenType::Float } else { TokenType::Int };
            let ghost acc2 = token_views(toks@);
            let t = make_token(&text, kind, line, sc);
            toks.push(t);
            proof {
                assert(token_views(toks@) =~= acc2.push(t@));
            }
        } else if c == '-' || c == '\'' || c == '`' || c == ',' || c == '@' || c == '.' {
            let t = single_token(c, TokenType::Atom, line, column);
            toks.push(t);
            proof {
                assert(token_views(toks@) =~= acc.push(t@));
            }
            i += 1;
            column += 1;
        } else if c == ' ' || c == '\t' {
            i += 1;
            column += 1;
        } else if c == '\n' {
            i += 1;
            line += 1;
            column = 1;
        } else if c == '\r' {
            i += 1;
        } else {
            return Err(unrecognised(c, line, column));
        }
    }
    Ok(toks)
}

/// The state of the parser between tokens: the expressions parsed so far at
/// this level, and the pending prefixes.
pub struct PState {
    pub out: Seq<SVal>,
    pub quote: bool,
    pub backquote: bool,
    pub comma: bool,
    pub lambda: bool,
}

pub open spec fn init_state(quote: bool, backquote: bool) -> PState {
    PState { out: Seq::empty(), quote, backquote, comma: false, lambda: false }
}

pub open spec fn with_out(st: PState, v: SVal) -> PState {
    PState { out: st.out.push(v), quote: st.quote, backquote: st.backquote, comma: st.comma, lambda: st.lambda }
}

/// A parenthesised expression under a quote becomes a list.
pub open spec fn as_list(v: SVal) -> SVal {
    match v {
        SVal::Eval(inner) => SVal::List(inner),
        _ => v,
    }
}

/// A parenthesised expression after `.` becomes a lambda.
pub open spec fn as_lambda(v: SVal) -> SVal {
    match v {
        SVal::Eval(inner) => SVal::Lambda(inner),
        _ => v,
    }
}

/// The message for an expression whose `(` is never closed.
pub open spec fn missing_paren_message(line: nat, column: nat) -> Seq<char> {
    "missing closing ')' for expression starting at line "@ + nat_text(line) + ", column "@ + nat_text(column)
}

/// The result of parsing: an expression and the number of tokens it took,
/// or a message.
pub type ParseResult = Result<(SVal, nat), Seq<char>>;

/// Parsing the tokens `toks` from position `i`, at nesting `depth`, in state
/// `st`, where `start` is the `(` that opened this level; floating-point
/// literals are converted by the replies `rs` from position `pos`. Yields the
/// result and the position of the next unread reply.
pub open spec fn parse_spec(
    toks: Seq<TokenV>,
    i: nat,
    depth: nat,
    st: PState,
    start: Option<TokenV>,
    rs: Seq<Reply>,
    pos: nat,
) -> (Res<ParseResult>, nat)
    decreases toks.len() - i,
{
    if i >= toks.len() {
        if depth > 0 {
            match start {
                Some(t) => (Res::Done(Err(missing_paren_message(t.line, t.column))), pos),
                None => (Res::Fail(SFault::UnwrapNone), pos),
            }
        } else {
            (Res::Done(Ok((SVal::Eval(st.out), i))), pos)
        }
    } else {
        let t = toks[i as int];
        match t.kind {
            TokenType::LPar => {
                let bq = st.backquote && !st.comma;
                let (sub, pos1) = parse_spec(
                    toks.subrange(i + 1 as int, toks.len() as int),
                    0,
                    depth + 1,
                    init_state(st.quote, bq),
                    Some(t),
                    rs,
                    pos,
                );
                match sub {
                    Res::Done(Ok((parsed, consumed))) => {
                        let st2 = if st.quote || bq {
                            PState { out: st.out.push(as_list(parsed)), quote: false, backquote: false, comma: false, lambda: st.lambda }
                        } else if st.lambda {
                            PState { out: st.out.push(as_lambda(parsed)), quote: st.quote, backquote: bq, comma: st.comma, lambda: false }
                        } else {
                            PState { out: st.out.push(parsed), quote: st.quote, backquote: bq, comma: st.comma, lambda: st.lambda }
                        };
                        let next = i + consumed + 1;
                        parse_spec(toks, if next > toks.len() { toks.len() } else { next }, depth, st2, start, rs, pos1)
                    },
                    Res::Done(Err(m)) => (Res::Done(Err(m)), pos1),
                    Res::Fail(e) => (Res::Fail(e), pos1),
                    Res::Need(r) => (Res::Need(r), pos1),
                }
            },
            TokenType::RPar => (Res::Done(Ok((SVal::Eval(st.out), i + 1))), pos),
            TokenType::Int => match parse_i64_text(t.expr) {
                Some(v) => parse_spec(toks, i + 1, depth, with_out(st, SVal::Int(v)), start, rs, pos),
                None => (Res::Fail(SFault::IntLiteral(t.expr)), pos),
            },
            TokenType::Float => match reply_at(rs, pos) {
                None => (Res::Need(SRequest::ParseFloat(t.expr)), pos),
                Some(Reply::Bits(b)) => parse_spec(toks, i + 1, depth, with_out(st, SVal::Float(b)), start, rs, pos + 1),
                Some(Reply::Missing) => (Res::Fail(SFault::FloatLiteral(t.expr)), pos + 1),
                Some(_) => (Res::Fail(SFault::UnexpectedReply), pos + 1),
            },
            TokenType::Str => parse_spec(toks, i + 1, depth, with_out(st, SVal::Str(t.expr)), start, rs, pos),
            TokenType::Atom => {
                if t.expr == "true"@ {
                    parse_spec(toks, i + 1, depth, with_out(st, SVal::Bool(true)), start, rs, pos)
                } else if t.expr == "false"@ {
                    parse_spec(toks, i + 1, depth, with_out(st, SVal::Bool(false)), start, rs, pos)
                } else if t.expr == "'"@ {
                    parse_spec(toks, i + 1, depth, PState { quote: true, ..st }, start, rs, pos)
                } else if t.expr == "`"@ {
                    parse_spec(toks, i + 1, depth, PState { backquote: true, ..st }, start, rs, pos)
                } else if t.expr == ","@ {
                    if st.backquote {
                        parse_spec(toks, i + 1, depth, PState { comma: true, ..st }, start, rs, pos)
                    } else if st.quote {
                        parse_spec(toks, i + 1, depth, with_out(st, SVal::Atom(","@)), start, rs, pos)
                    } else {
                        parse_spec(toks, i + 1, depth, st, start, rs, pos)
                    }
                } else if t.expr == "."@ {
                    parse_spec(toks, i + 1, depth, PState { lambda: true, ..st }, start, rs, pos)
                } else {
                    parse_spec(toks, i + 1, depth, with_out(PState { comma: false, ..st }, SVal::Atom(t.expr)), start, rs, pos)
                }
            },
        }
    }
}

/// The model of the parser's outcome.
pub open spec fn parse_res(o: Outcome<Result<(Value, usize), String>>) -> Res<ParseResult> {
    match o {
        Outcome::Done(Ok((v, n))) => Res::Done(Ok((v@, n as nat))),
        Outcome::Done(Err(m)) => Res::Done(Err(m@)),
        Outcome::Fail(e) => Res::Fail(e@),
        Outcome::Need(r) => Res::Need(r@),
    }
}

pub open spec fn opt_token(t: Option<&Token>) -> Option<TokenV> {
    match t {
        Some(t) => Some(t@),
        None => None,
    }
}

fn missing_paren(line: usize, column: usize) -> (m: String)
    ensures
        m@ == missing_paren_message(line as nat, column as nat),
{
    let mut v = chars_of("missing closing ')' for expression starting at line ");
    let mut b = usize_text(line);
    v.append(&mut b);
    let mut d = chars_of(", column ");
    v.append(&mut d);
    let mut e = usize_text(column);
    v.append(&mut e);
    proof {
        assert(v@ =~= missing_paren_message(line as nat, column as nat));
    }
    string_of(v.as_slice())
}

/// Parses `tokens` into an expression: a parenthesised group becomes an
/// `Eval`, a group after a quote a `List`, a group after `.` a `Lambda`.
/// Stops at a `)` that closes this level and says how many tokens it took.
/// Floating-point literals are converted by the host through `t`.
pub fn parse_tokens_to_ast(
    tokens: &[Token],
    depth: usize,
    orig_quote: bool,
    orig_backquote: bool,
    start_token: Option<&Token>,
    index_offset: usize,
    t: &mut Transcript,
) -> (r: Outcome<Result<(Value, usize), String>>)
    requires
        depth + tokens@.len() < usize::MAX,
        index_offset + tokens@.len() <= usize::MAX,
    ensures
        (parse_res(r), final(t).position()) == parse_spec(
            token_views(tokens@),
            0,
            depth as nat,
            init_state(orig_quote, orig_backquote),
            opt_token(start_token),
            old(t).answers(),
            old(t).position(),
        ),
        final(t).answers() == old(t).answers(),
        r matches Outcome::Done(Ok((_, n))) ==> n <= tokens@.len(),
    decreases tokens@.len(),
{
    let ghost tv = token_views(tokens@);
    let mut out_list: Vec<Value> = Vec::new();
    let mut i: usize = 0;
    let mut quote = orig_quote;
    let mut backquote = orig_backquote;
    let mut comma = false;
    let mut lambda = false;
    proof {
        assert(views(out_list@) =~= Seq::<SVal>::empty());
    }
    while i < tokens.len()
        invariant
            i <= tokens@.len(),
            tv == token_views(tokens@),
            depth + tokens@.len() < usize::MAX,
            index_offset + tokens@.len() <= usize::MAX,
            t.answers() == old(t).answers(),
            parse_spec(tv, 0, depth as nat, init_state(orig_quote, orig_backquote), opt_token(start_token),
                old(t).answers(), old(t).position())
                == parse_spec(tv, i as nat, depth as nat,
                    PState { out: views(out_list@), quote, backquote, comma, lambda },
                    opt_token(start_token), t.answers(), t.position()),
        decreases tokens@.len() - i,
    {
        let tok = &tokens[i];
        let ghost st = PState { out: views(out_list@), quote, backquote, comma, lambda };
        assert(tv[i as int] == tok@);
        match tok.token_type {
            TokenType::LPar => {
                backquote = backquote && !comma;
                let sub = vstd::slice::slice_subrange(tokens, i + 1, tokens.len());
                assert(token_views(sub@) =~= tv.subrange(i + 1, tv.len() as int));
                let r = parse_tokens_to_ast(sub, depth + 1, quote, backquote, Some(tok), index_offset + i + 1, t);
                match r {
                    Outcome::Done(Ok((parsed, consumed))) => {
                        let ghost pv = parsed@;
                        if quote || backquote {
                            match parsed {
                                Value::Eval(inner) => {
                                    proof {
                                        lemma_list_views(inner);
                                    }
                                    out_list.push(Value::List(inner));
                                },
                                other => {
                                    out_list.push(other);
                                },
                            }
                            proof {
                                assert(views(out_list@) =~= st.out.push(as_list(pv)));
                            }
                            quote = false;
                            backquote = false;
                            comma = false;
                        } else if lambda {
                            match parsed {
                                Value::Eval(inner) => {
                                    proof {
                                        lemma_list_views(inner);
                                    }
                                    out_list.push(Value::Lambda(inner));
                                },
                                other => {
                                    out_list.push(other);
                                },
                            }
                            proof {
                                assert(views(out_list@) =~= st.out.push(as_lambda(pv)));
                            }
                            lambda = false;
                        } else {
                            out_list.push(parsed);
                            proof {
                                assert(views(out_list@) =~= st.out.push(pv));
                            }
                        }
                        i += consumed + 1;
                    },
                    Outcome::Done(Err(m)) => {
                        return Outcome::Done(Err(m));
                    },
                    Outcome::Fail(e) => {
                        return Outcome::Fail(e);
                    },
                    Outcome::Need(q) => {
                        return Outcome::Need(q);
                    },
                }
            },
            TokenType::RPar => {
                let v = Value::Eval(out_list);
                proof {
                    lemma_list_views(out_list);
                }
                return Outcome::Done(Ok((v, i + 1)));
            },
            TokenType::Int => {
                let cs = chars_of(tok.token_expr.as_str());
                match parse_i64(&cs) {
                    Some(v) => {
                        out_list.push(Value::Int(v));
                        proof {
                            assert(views(out_list@) =~= st.out.push(SVal::Int(v)));
                        }
                        i += 1;
                    },
                    None => {
                        return Outcome::Fail(Fault::IntLiteral(tok.token_expr.clone()));
                    },
                }
            },
            TokenType::Float => {
                match t.next_reply() {
                    None => {
                        return Outcome::Need(Request::ParseFloat(tok.token_expr.clone()));
                    },
                    Some(Reply::Bits(b)) => {
                        out_list.push(Value::Float(b));
                        proof {
                            assert(views(out_list@) =~= st.out.push(SVal::Float(b)));
                        }
                        i += 1;
                    },
                    Some(Reply::Missing) => {
                        return Outcome::Fail(Fault::FloatLiteral(tok.token_expr.clone()));
                    },
                    Some(_) => {
                        return Outcome::Fail(Fault::UnexpectedReply);
                    },
                }
            },
            TokenType::Str => {
                out_list.push(Value::Str(tok.token_expr.clone()));
                proof {
                    assert(views(out_list@) =~= st.out.push(SVal::Str(tok@.expr)));
                }
                i += 1;
            },
            TokenType::Atom => {
                let e = tok.token_expr.as_str();
                if same_text(e, "true") {
                    out_list.push(Value::Bool(true));
                    proof {
                        assert(views(out_list@) =~= st.out.push(SVal::Bool(true)));
                    }
                } else if same_text(e, "false") {
                    out_list.push(Value::Bool(false));
                    proof {
                        assert(views(out_list@) =~= st.out.push(SVal::Bool(false)));
                    }
                } else if same_text(e, "'") {
                    quote = true;
                } else if same_text(e, "`") {
                    backquote = true;
                } else if same_text(e, ",") {
                    if backquote {
                        comma = true;
                    } else if quote {
                        let a = String::from_str(",");
                        out_list.push(Value::Atom(a));
                        proof {
                            assert(views(out_list@) =~= st.out.push(SVal::Atom(","@)));
                        }
                    }
                } else if same_text(e, ".") {
                    lambda = true;
                } else {
                    comma = false;
                    out_list.push(Value::Atom(tok.token_expr.clone()));
                    proof {
                        assert(views(out_list@) =~= st.out.push(SVal::Atom(tok@.expr)));
                    }
                }
                i += 1;
            },
        }
    }
    if depth > 0 {
        match start_token {
            Some(st) => {
                return Outcome::Done(Err(missing_paren(st.line, st.column)));
            },
            None => {
                return Outcome::Fail(Fault::UnwrapNone);
            },
        }
    }
    proof {
        lemma_list_views(out_list);
    }
    Outcome::Done(Ok((Value::Eval(out_list), i)))
}

} // verus!
