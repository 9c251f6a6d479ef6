//! Tokens, the lexer that produces them, and the cursor that the parser
//! consumes them with.
//!
//! The lexer hands the tokens out as a stack: the next token to be consumed
//! is the last element of the vector, the end marker is the first, and the
//! end marker is never removed. [`pending`] reads such a stack in source
//! order.

use crate::error::{LexError, ParseError};
use crate::text::{
    char_to_string, decimal, is_digit, is_letter, is_numeral, is_space, lemma_decimal_of_value,
    push_char, spec_is_letter, spec_is_space, spec_to_digit, to_digit, value_of,
};
use vstd::prelude::*;

verus! {

/// The class of a token.
#[derive(Debug, Clone, Copy, PartialEq, Eq, Structural)]
pub enum TokenKind {
    /// An operator or a punctuation mark.
    TkReserved,
    /// An integer literal.
    TkNum,
    /// A variable name.
    TkIdent,
    /// The end of the input.
    TkEOF,
}

/// A token as a mathematical value.
pub enum Tok {
    /// An operator or a punctuation mark, by its text.
    Reserved(Seq<char>),
    /// An integer literal, by its value.
    Num(u32),
    /// A variable name.
    Ident(Seq<char>),
    /// The end of the input.
    Eof,
}

impl Tok {
    /// The text that the token stands for. A number is written in decimal,
    /// and the end marker stands for nothing.
    pub open spec fn text(self) -> Seq<char> {
        match self {
            Tok::Reserved(op) => op,
            Tok::Num(val) => decimal(val as nat),
            Tok::Ident(name) => name,
            Tok::Eof => Seq::empty(),
        }
    }

    /// The class of the token.
    pub open spec fn kind(self) -> TokenKind {
        match self {
            Tok::Reserved(_) => TokenKind::TkReserved,
            Tok::Num(_) => TokenKind::TkNum,
            Tok::Ident(_) => TokenKind::TkIdent,
            Tok::Eof => TokenKind::TkEOF,
        }
    }
}

/// A token: its class and the one payload that the class calls for.
#[derive(Debug)]
pub struct Token {
    kind: TokenKind,
    val: Option<u32>,
    op: Option<String>,
}

impl View for Token {
    type V = Tok;

    closed spec fn view(&self) -> Tok {
        match self.kind {
            TokenKind::TkReserved => Tok::Reserved(self.op.unwrap()@),
            TokenKind::TkNum => Tok::Num(self.val.unwrap()),
            TokenKind::TkIdent => Tok::Ident(self.op.unwrap()@),
            TokenKind::TkEOF => Tok::Eof,
        }
    }
}

impl Clone for Token {
    fn clone(&self) -> (res: Self)
        ensures
            res@ == self@,
    {
        proof {
            use_type_invariant(self);
        }
        Token {
            kind: self.kind,
            val: self.val,
            op: match &self.op {
                Some(s) => Some(s.clone()),
                None => None,
            },
        }
    }
}

/// Whether a token of class `kind` may carry `val` and `op`: a number
/// carries a value, an operator its text, a name one ASCII letter, and
/// nothing carries more than that.
pub open spec fn payload_fits(kind: TokenKind, val: Option<u32>, op: Option<Seq<char>>) -> bool {
    match kind {
        TokenKind::TkReserved => val is None && op is Some,
        TokenKind::TkNum => val is Some && op is None,
        TokenKind::TkIdent => val is None && op is Some && op.unwrap().len() == 1 && is_letter(
            op.unwrap()[0],
        ),
        TokenKind::TkEOF => val is None && op is None,
    }
}

/// The view of an optional string.
pub open spec fn text_of(op: Option<String>) -> Option<Seq<char>> {
    match op {
        Some(s) => Some(s@),
        None => None,
    }
}

impl Token {
    #[verifier::type_invariant]
    spec fn inv(self) -> bool {
        payload_fits(self.kind, self.val, text_of(self.op))
    }

    /// Appends the token made of `kind`, `val` and `op` to `vec`.
    fn push(kind: TokenKind, val: Option<u32>, op: Option<String>, vec: &mut Vec<Token>)
        requires
            payload_fits(kind, val, text_of(op)),
        ensures
            final(vec)@ == old(vec)@.push(Token { kind, val, op }),
    {
        let token = Token { kind, val, op };
        vec.push(token);
    }

    /// The class of the token.
    pub fn kind(&self) -> (kind: TokenKind)
        ensures
            kind == self@.kind(),
    {
        self.kind
    }

    /// The value of the token, if it is a number.
    pub fn val(&self) -> (val: Option<u32>)
        ensures
            val == (match self@ {
                Tok::Num(n) => Some(n),
                _ => None,
            }),
    {
        proof {
            use_type_invariant(self);
        }
        self.val
    }

    /// The text of the token, if it is an operator, a punctuation mark or
    /// a name.
    pub fn op(&self) -> (op: Option<String>)
        ensures
            text_of(op) == (match self@ {
                Tok::Reserved(text) => Some(text),
                Tok::Ident(name) => Some(name),
                _ => None,
            }),
    {
        proof {
            use_type_invariant(self);
        }
        match &self.op {
            Some(text) => Some(text.clone()),
            None => None,
        }
    }

    /// Splits `pos` into tokens.
    ///
    /// The result is the stack of the tokens that [`scan`] finds, the end
    /// marker included, with the first token of the text on top. It fails
    /// with the first error that `scan` meets.
    pub fn tokenize(pos: Vec<char>) -> (r: Result<Vec<Token>, LexError>)
        ensures
            tokenized(pos@, r),
    {
        let mut cur: Vec<Token> = Vec::new();
        let mut i: usize = 0;
        proof {
            lemma_prepend_nothing(scan(pos@, 0));
        }
        while i < pos.len()
            invariant
                i <= pos.len(),
                scan(pos@, 0) == prepend(views(cur@), scan(pos@, i as int)),
            decreases pos.len() - i,
        {
            let c = pos[i];
            let ghost before = cur@;
            if is_space(c) {
                i += 1;
            } else if is_letter(c) {
                Token::push(TokenKind::TkIdent, None, Some(char_to_string(c)), &mut cur);
                i += 1;
                proof {
                    lemma_prepend_push(before, cur@.last(), scan(pos@, i as int));
                }
            } else if c == '+' || c == '-' || c == '*' || c == '/' || c == '(' || c == ')' || c
                == ';' {
                Token::push(TokenKind::TkReserved, None, Some(char_to_string(c)), &mut cur);
                i += 1;
                proof {
                    lemma_prepend_push(before, cur@.last(), scan(pos@, i as int));
                }
            } else if c == '=' || c == '!' || c == '<' || c == '>' {
                let mut op = char_to_string(c);
                i += 1;
                if i < pos.len() && pos[i] == '=' {
                    i += 1;
                    push_char(&mut op, '=');
                    assert(op@ =~= seq![c, '=']);
                }
                Token::push(TokenKind::TkReserved, None, Some(op), &mut cur);
                proof {
                    lemma_prepend_push(before, cur@.last(), scan(pos@, i as int));
                }
            } else if '0' <= c && c <= '9' {
                let (val, end) = strtou32(&pos, i, 10);
                proof {
                    lemma_run_end_bounds(pos@, i as int, 10);
                }
                match val {
                    Some(v) => {
                        Token::push(TokenKind::TkNum, Some(v), None, &mut cur);
                        i = end;
                        proof {
                            lemma_prepend_push(before, cur@.last(), scan(pos@, i as int));
                        }
                    },
                    None => {
                        return Err(LexError::NumberTooLarge);
                    },
                }
            } else {
                return Err(LexError::UnknownCharacter);
            }
        }
        let ghost before = cur@;
        Token::push(TokenKind::TkEOF, None, None, &mut cur);
        proof {
            assert(views(cur@) =~= views(before) + seq![Tok::Eof]);
        }
        let ghost all = cur@;
        let mut out: Vec<Token> = Vec::new();
        while cur.len() > 0
            invariant
                cur@ == all.take(cur@.len() as int),
                cur@.len() + out@.len() == all.len(),
                forall|k: int| 0 <= k < out@.len() ==> out@[k] == all[all.len() - 1 - k],
            decreases cur.len(),
        {
            let token = cur.pop().unwrap();
            out.push(token);
            assert(cur@ =~= all.take(cur@.len() as int));
        }
        assert(pending(out@) =~= views(all));
        Ok(out)
    }
}

/// Whether `r` is what the lexer hands back for `text`: a well-formed stack
/// of the tokens that [`scan`] finds, or the error that it meets.
pub open spec fn tokenized(text: Seq<char>, r: Result<Vec<Token>, LexError>) -> bool {
    match scan(text, 0) {
        Ok(toks) => r is Ok && stream_wf(r.unwrap()@) && pending(r.unwrap()@) == toks,
        Err(e) => r == Err::<Vec<Token>, LexError>(e),
    }
}

/// The views of `tokens`, in the same order.
pub open spec fn views(tokens: Seq<Token>) -> Seq<Tok> {
    tokens.map_values(|t: Token| t@)
}

/// The tokens of a stack in the order in which they will be consumed: the
/// top of the stack, which is its last element, comes first.
pub open spec fn pending(tokens: Seq<Token>) -> Seq<Tok> {
    Seq::new(tokens.len(), |i: int| tokens[tokens.len() - 1 - i]@)
}

/// A token stack is well formed when the end marker lies at its bottom.
pub open spec fn stream_wf(tokens: Seq<Token>) -> bool {
    tokens.len() > 0 && tokens[0]@ == Tok::Eof
}

/// The next token of `toks`; past the end there is only the end marker.
pub open spec fn peek(toks: Seq<Tok>) -> Tok {
    if toks.len() > 0 {
        toks[0]
    } else {
        Tok::Eof
    }
}

/// What is left of `toks` after `n` tokens.
pub open spec fn advance(toks: Seq<Tok>, n: nat) -> Seq<Tok> {
    if n <= toks.len() {
        toks.skip(n as int)
    } else {
        Seq::empty()
    }
}

/// Whether the stack `after` is the stack `before` with its next `n`
/// tokens taken off.
pub open spec fn consumed(before: Seq<Token>, after: Seq<Token>, n: nat) -> bool {
    &&& after.len() + n == before.len()
    &&& pending(after) == advance(pending(before), n)
}

/// Taking `n` tokens off and then `m` more is taking `n + m` off.
pub proof fn lemma_consumed_twice(a: Seq<Token>, b: Seq<Token>, c: Seq<Token>, n: nat, m: nat)
    requires
        consumed(a, b, n),
        consumed(b, c, m),
    ensures
        consumed(a, c, n + m),
        advance(advance(pending(a), n), m) == advance(pending(a), n + m),
{
    assert(pending(a).skip(n as int).skip(m as int) =~= pending(a).skip((n + m) as int));
}

/// `r` with `head` in front of its tokens.
pub open spec fn prepend(head: Seq<Tok>, r: Result<Seq<Tok>, LexError>) -> Result<
    Seq<Tok>,
    LexError,
> {
    match r {
        Ok(rest) => Ok(head + rest),
        Err(e) => Err(e),
    }
}

/// The marks that are a token by themselves.
pub open spec fn is_punctuation(c: char) -> bool {
    c == '+' || c == '-' || c == '*' || c == '/' || c == '(' || c == ')' || c == ';'
}

/// The marks that are a token with a following `=`, and by themselves
/// otherwise.
pub open spec fn is_comparator(c: char) -> bool {
    c == '=' || c == '!' || c == '<' || c == '>'
}

/// Where the longest run of base-`radix` digits that starts at `i` ends.
pub open spec fn run_end(text: Seq<char>, i: int, radix: u32) -> int
    decreases text.len() - i,
{
    if 0 <= i < text.len() && to_digit(text[i], radix) is Some {
        run_end(text, i + 1, radix)
    } else {
        i
    }
}

/// A run ends at or after its start, and within the text.
pub proof fn lemma_run_end_bounds(text: Seq<char>, i: int, radix: u32)
    requires
        0 <= i <= text.len(),
    ensures
        i <= run_end(text, i, radix) <= text.len(),
        to_digit(text[i], radix) is Some && i < text.len() ==> i < run_end(text, i, radix),
    decreases text.len() - i,
{
    if i < text.len() && to_digit(text[i], radix) is Some {
        lemma_run_end_bounds(text, i + 1, radix);
    }
}

/// The tokens of `text` from position `i` on, in source order and with the
/// end marker after the last of them.
///
/// Whitespace separates tokens and is dropped. A letter is a name by
/// itself. A longest run of digits is one number. `=`, `!`, `<` and `>`
/// take a directly following `=` with them. Any other character is an
/// error, and so is a number that does not fit in 32 bits.
pub open spec fn scan(text: Seq<char>, i: int) -> Result<Seq<Tok>, LexError>
    decreases text.len() - i,
{
    if !(0 <= i < text.len()) {
        Ok(seq![Tok::Eof])
    } else {
        let c = text[i];
        if is_space(c) {
            scan(text, i + 1)
        } else if is_letter(c) {
            prepend(seq![Tok::Ident(seq![c])], scan(text, i + 1))
        } else if is_punctuation(c) {
            prepend(seq![Tok::Reserved(seq![c])], scan(text, i + 1))
        } else if is_comparator(c) {
            if i + 1 < text.len() && text[i + 1] == '=' {
                prepend(seq![Tok::Reserved(seq![c, '='])], scan(text, i + 2))
            } else {
                prepend(seq![Tok::Reserved(seq![c])], scan(text, i + 1))
            }
        } else if is_digit(c) {
            let end = run_end(text, i, 10);
            let value = value_of(text.subrange(i, end), 10);
            proof {
                lemma_run_end_bounds(text, i, 10);
            }
            if value > u32::MAX {
                Err(LexError::NumberTooLarge)
            } else {
                prepend(seq![Tok::Num(value as u32)], scan(text, end))
            }
        } else {
            Err(LexError::UnknownCharacter)
        }
    }
}

/// With nothing put in front, a result stays what it is.
proof fn lemma_prepend_nothing(r: Result<Seq<Tok>, LexError>)
    ensures
        prepend(views(Seq::empty()), r) == r,
{
    match r {
        Ok(rest) => {
            assert(views(Seq::empty()) + rest =~= rest);
        },
        Err(_) => {},
    }
}

/// Pushing `last` puts its view behind what has been scanned so far.
proof fn lemma_prepend_push(before: Seq<Token>, last: Token, r: Result<Seq<Tok>, LexError>)
    ensures
        prepend(views(before), prepend(seq![last@], r)) == prepend(views(before.push(last)), r),
{
    match r {
        Ok(rest) => {
            assert(views(before) + (seq![last@] + rest) =~= views(before.push(last)) + rest);
        },
        Err(_) => {},
    }
}

/// Reads the longest run of base-`dig` digits of `text` that starts at
/// `start`. Returns the number that the run spells, or `None` where it does
/// not fit in 32 bits, and the position after the run.
fn strtou32(text: &Vec<char>, start: usize, dig: u32) -> (r: (Option<u32>, usize))
    requires
        start <= text.len(),
        2 <= dig <= 36,
    ensures
        r.1 == run_end(text@, start as int, dig),
        r.0 == (if value_of(text@.subrange(start as int, r.1 as int), dig) <= u32::MAX {
            Some(value_of(text@.subrange(start as int, r.1 as int), dig) as u32)
        } else {
            None
        }),
{
    let mut val: u32 = 0;
    let mut fits = true;
    let mut i: usize = start;
    loop
        invariant
            start <= i <= text.len(),
            2 <= dig <= 36,
            run_end(text@, start as int, dig) == run_end(text@, i as int, dig),
            fits ==> val == value_of(text@.subrange(start as int, i as int), dig),
            !fits ==> value_of(text@.subrange(start as int, i as int), dig) > u32::MAX,
        ensures
            i == run_end(text@, start as int, dig),
        decreases text.len() - i,
    {
        if i >= text.len() {
            break ;
        }
        match to_digit(text[i], dig) {
            Some(num) => {
                proof {
                    let s = text@.subrange(start as int, i + 1);
                    assert(s.drop_last() =~= text@.subrange(start as int, i as int));
                    assert(s.last() == text@[i as int]);
                    let v = value_of(s.drop_last(), dig);
                    assert(value_of(s, dig) == v * (dig as nat) + num);
                    assert(v * (dig as nat) + num >= v) by (nonlinear_arith)
                        requires
                            dig >= 1,
                    ;
                }
                if fits {
                    match val.checked_mul(dig) {
                        Some(scaled) => match scaled.checked_add(num) {
                            Some(v) => {
                                val = v;
                            },
                            None => {
                                fits = false;
                            },
                        },
                        None => {
                            fits = false;
                        },
                    }
                }
                i += 1;
            },
            None => {
                break ;
            },
        }
    }
    if fits {
        (Some(val), i)
    } else {
        (None, i)
    }
}

/// Takes the next token off `tokens` if it is a name, and returns the name.
///
/// Any other token stays where it is, and the result is `(false, None)`.
pub fn consume_ident(tokens: &mut Vec<Token>) -> (r: (bool, Option<String>))
    requires
        stream_wf(old(tokens)@),
    ensures
        stream_wf(final(tokens)@),
        match peek(pending(old(tokens)@)) {
            Tok::Ident(name) => {
                &&& r.0
                &&& r.1 is Some
                &&& r.1.unwrap()@ == name
                &&& name.len() == 1
                &&& is_letter(name[0])
                &&& consumed(old(tokens)@, final(tokens)@, 1)
            },
            _ => !r.0 && r.1 is None && final(tokens)@ == old(tokens)@,
        },
{
    let n = tokens.len();
    match tokens[n - 1].kind {
        TokenKind::TkIdent => {},
        _ => {
            return (false, None);
        },
    }
    let token = tokens.pop().unwrap();
    proof {
        use_type_invariant(&token);
        assert(pending(tokens@) =~= advance(pending(old(tokens)@), 1));
    }
    (true, token.op)
}

/// Takes the next token off `tokens` if it is the operator or punctuation
/// mark `op`, and says whether it did.
pub fn consume(tokens: &mut Vec<Token>, op: &str) -> (b: bool)
    requires
        stream_wf(old(tokens)@),
    ensures
        stream_wf(final(tokens)@),
        b == (peek(pending(old(tokens)@)) == Tok::Reserved(op@)),
        b ==> consumed(old(tokens)@, final(tokens)@, 1),
        !b ==> final(tokens)@ == old(tokens)@,
{
    let top = &tokens[tokens.len() - 1];
    proof {
        use_type_invariant(top);
    }
    let matches = match top.kind {
        TokenKind::TkReserved => match &top.op {
            Some(text) => *text == String::from_str(op),
            None => false,
        },
        _ => false,
    };
    if !matches {
        return false;
    }
    tokens.pop();
    proof {
        assert(pending(tokens@) =~= advance(pending(old(tokens)@), 1));
    }
    true
}

/// Takes the next token off `tokens` and returns its value; fails, and
/// leaves the token where it is, if it is not a number.
pub fn expect_number(tokens: &mut Vec<Token>) -> (r: Result<u32, ParseError>)
    requires
        stream_wf(old(tokens)@),
    ensures
        stream_wf(final(tokens)@),
        match peek(pending(old(tokens)@)) {
            Tok::Num(val) => r == Ok::<u32, ParseError>(val) && consumed(
                old(tokens)@,
                final(tokens)@,
                1,
            ),
            _ => r == Err::<u32, ParseError>(ParseError::ExpectedNumber) && final(tokens)@ == old(
                tokens,
            )@,
        },
{
    let n = tokens.len();
    match tokens[n - 1].kind {
        TokenKind::TkNum => {},
        _ => {
            return Err(ParseError::ExpectedNumber);
        },
    }
    let token = tokens.pop().unwrap();
    proof {
        use_type_invariant(&token);
        assert(pending(tokens@) =~= advance(pending(old(tokens)@), 1));
    }
    match token.val {
        Some(val) => Ok(val),
        None => Err(ParseError::ExpectedNumber),
    }
}

/// Takes the next token off `tokens`; fails, and leaves the token where it
/// is, if it is not the operator or punctuation mark `op`.
pub fn expect(tokens: &mut Vec<Token>, op: &str) -> (r: Result<(), ParseError>)
    requires
        stream_wf(old(tokens)@),
    ensures
        stream_wf(final(tokens)@),
        r is Ok <==> peek(pending(old(tokens)@)) == Tok::Reserved(op@),
        r is Ok ==> consumed(old(tokens)@, final(tokens)@, 1),
        r is Err ==> r == Err::<(), ParseError>(ParseError::ExpectedSymbol) && final(tokens)@
            == old(tokens)@,
{
    if consume(tokens, op) {
        Ok(())
    } else {
        Err(ParseError::ExpectedSymbol)
    }
}

/// Whether the next token of `tokens` is the end marker.
pub fn at_eof(tokens: &Vec<Token>) -> (b: bool)
    requires
        stream_wf(tokens@),
    ensures
        b == (peek(pending(tokens@)) == Tok::Eof),
{
    match tokens[tokens.len() - 1].kind {
        TokenKind::TkEOF => true,
        _ => false,
    }
}

/// `text` without its whitespace.
pub open spec fn without_spaces(text: Seq<char>) -> Seq<char> {
    text.filter(|c: char| !is_space(c))
}

/// The texts of `toks`, one after the other.
pub open spec fn spelled(toks: Seq<Tok>) -> Seq<char>
    decreases toks.len(),
{
    if toks.len() == 0 {
        Seq::empty()
    } else {
        toks[0].text() + spelled(toks.skip(1))
    }
}

/// Whether the digit at position `i` of `text` is a zero that begins a
/// number of more than one digit.
pub open spec fn leading_zero(text: Seq<char>, i: int) -> bool {
    &&& 0 <= i < text.len() - 1
    &&& text[i] == '0'
    &&& is_digit(text[i + 1])
    &&& (i == 0 || !is_digit(text[i - 1]))
}

/// Whether every number in `text` is written as [`decimal`] writes it,
/// without zeros in front.
pub open spec fn plain_numbers(text: Seq<char>) -> bool {
    forall|i: int| !#[trigger] leading_zero(text, i)
}

/// Lexing is a function of the text: whatever two runs of the lexer hand
/// back for the same text, they fail with the same error or hold the same
/// tokens in the same order.
pub proof fn lemma_tokenize_deterministic(
    text: Seq<char>,
    first: Result<Vec<Token>, LexError>,
    second: Result<Vec<Token>, LexError>,
)
    requires
        tokenized(text, first),
        tokenized(text, second),
    ensures
        first is Ok <==> second is Ok,
        first is Ok ==> pending(first.unwrap()@) == pending(second.unwrap()@),
        first is Err ==> first.unwrap_err() == second.unwrap_err(),
{
}

/// The tokens spell the text: where lexing succeeds and every number is
/// written without zeros in front, the texts of the tokens, one after the
/// other, are the text without its whitespace.
pub proof fn lemma_tokens_spell_text(text: Seq<char>)
    requires
        scan(text, 0) is Ok,
        plain_numbers(text),
    ensures
        spelled(scan(text, 0).unwrap()) == without_spaces(text),
{
    lemma_spelled_from(text, 0);
    assert(text.skip(0) =~= text);
}

/// Every position of a run holds a digit, and the position behind the run
/// does not.
proof fn lemma_run_digits(text: Seq<char>, i: int, radix: u32)
    requires
        0 <= i <= text.len(),
    ensures
        forall|j: int|
            i <= j < run_end(text, i, radix) ==> to_digit(#[trigger] text[j], radix) is Some,
        run_end(text, i, radix) < text.len() ==> to_digit(
            text[run_end(text, i, radix)],
            radix,
        ) is None,
    decreases text.len() - i,
{
    if i < text.len() && to_digit(text[i], radix) is Some {
        lemma_run_digits(text, i + 1, radix);
    }
}

/// Text without whitespace in it stays as it is.
proof fn lemma_nothing_to_drop(text: Seq<char>)
    requires
        forall|i: int| 0 <= i < text.len() ==> !is_space(#[trigger] text[i]),
    ensures
        without_spaces(text) == text,
    decreases text.len(),
{
    reveal(Seq::filter);
    if text.len() > 0 {
        lemma_nothing_to_drop(text.drop_last());
        assert(text.drop_last().push(text.last()) =~= text);
    }
}

/// Dropping the whitespace of two texts in a row is dropping it in each.
proof fn lemma_without_spaces_add(a: Seq<char>, b: Seq<char>)
    ensures
        without_spaces(a + b) == without_spaces(a) + without_spaces(b),
{
    Seq::filter_distributes_over_add(a, b, |c: char| !is_space(c));
}

/// A token in front adds its text in front: if `tok` spells the `n`
/// characters of `text` from position `i` on, none of them whitespace, and
/// `rest` spells what follows them, then `tok` and `rest` together spell
/// the text from `i` on.
proof fn lemma_spelled_token(text: Seq<char>, i: int, n: int, tok: Tok, rest: Seq<Tok>)
    requires
        0 <= i,
        0 < n,
        i + n <= text.len(),
        tok.text() == text.subrange(i, i + n),
        forall|j: int| i <= j < i + n ==> !is_space(#[trigger] text[j]),
        spelled(rest) == without_spaces(text.skip(i + n)),
    ensures
        spelled(seq![tok] + rest) == without_spaces(text.skip(i)),
{
    let word = text.subrange(i, i + n);
    let all = seq![tok] + rest;
    assert(all.skip(1) =~= rest);
    assert(text.skip(i) =~= word + text.skip(i + n));
    lemma_without_spaces_add(word, text.skip(i + n));
    lemma_nothing_to_drop(word);
}

/// Whitespace in front adds nothing.
proof fn lemma_spelled_space(text: Seq<char>, i: int)
    requires
        0 <= i < text.len(),
        is_space(text[i]),
    ensures
        without_spaces(text.skip(i)) == without_spaces(text.skip(i + 1)),
{
    let here = seq![text[i]];
    assert(text.skip(i) =~= here + text.skip(i + 1));
    lemma_without_spaces_add(here, text.skip(i + 1));
    reveal_with_fuel(Seq::filter, 2);
    assert(here.drop_last().len() == 0);
    assert(without_spaces(here) =~= Seq::<char>::empty());
    assert(without_spaces(here) + without_spaces(text.skip(i + 1)) =~= without_spaces(
        text.skip(i + 1),
    ));
}

/// The number that begins at position `i`, where no number is written
/// with zeros in front and `i` does not lie inside one, is spelled as it
/// stands in the text.
proof fn lemma_spelled_number(text: Seq<char>, i: int)
    requires
        0 <= i < text.len(),
        is_digit(text[i]),
        plain_numbers(text),
        i == 0 || !is_digit(text[i - 1]),
    ensures
        i < run_end(text, i, 10) <= text.len(),
        decimal(value_of(text.subrange(i, run_end(text, i, 10)), 10)) == text.subrange(
            i,
            run_end(text, i, 10),
        ),
        forall|j: int| i <= j < run_end(text, i, 10) ==> !is_space(#[trigger] text[j]),
        run_end(text, i, 10) < text.len() ==> !is_digit(text[run_end(text, i, 10)]),
        is_digit(text[run_end(text, i, 10) - 1]),
{
    let end = run_end(text, i, 10);
    let digits = text.subrange(i, end);
    lemma_run_end_bounds(text, i, 10);
    lemma_run_digits(text, i, 10);
    assert forall|j: int| 0 <= j < digits.len() implies is_digit(#[trigger] digits[j]) by {
        assert(to_digit(text[i + j], 10) is Some);
    }
    assert forall|j: int| i <= j < end implies !is_space(#[trigger] text[j]) by {
        assert(to_digit(text[j], 10) is Some);
    }
    assert(!leading_zero(text, i));
    assert(is_numeral(digits));
    lemma_decimal_of_value(digits);
    assert(to_digit(text[end - 1], 10) is Some);
}

/// [`lemma_tokens_spell_text`] for the text from position `i` on, where
/// `i` does not lie inside a number.
proof fn lemma_spelled_from(text: Seq<char>, i: int)
    requires
        0 <= i <= text.len(),
        scan(text, i) is Ok,
        plain_numbers(text),
        i == 0 || i == text.len() || !is_digit(text[i - 1]) || !is_digit(text[i]),
    ensures
        spelled(scan(text, i).unwrap()) == without_spaces(text.skip(i)),
    decreases text.len() - i,
{
    if i == text.len() {
        reveal(Seq::filter);
        let toks = seq![Tok::Eof];
        assert(toks.skip(1).len() == 0);
        assert(spelled(toks.skip(1)) =~= Seq::<char>::empty());
        assert(toks[0].text() =~= Seq::<char>::empty());
        assert(spelled(toks) =~= Seq::<char>::empty());
    } else {
        let c = text[i];
        if is_space(c) {
            lemma_spelled_from(text, i + 1);
            lemma_spelled_space(text, i);
        } else if is_letter(c) {
            lemma_spelled_from(text, i + 1);
            assert(text.subrange(i, i + 1) =~= seq![c]);
            lemma_spelled_token(text, i, 1, Tok::Ident(seq![c]), scan(text, i + 1).unwrap());
        } else if is_punctuation(c) {
            lemma_spelled_from(text, i + 1);
            assert(text.subrange(i, i + 1) =~= seq![c]);
            lemma_spelled_token(text, i, 1, Tok::Reserved(seq![c]), scan(text, i + 1).unwrap());
        } else if is_comparator(c) {
            if i + 1 < text.len() && text[i + 1] == '=' {
                lemma_spelled_from(text, i + 2);
                assert(text.subrange(i, i + 2) =~= seq![c, '=']);
                lemma_spelled_token(
                    text,
                    i,
                    2,
                    Tok::Reserved(seq![c, '=']),
                    scan(text, i + 2).unwrap(),
                );
            } else {
                lemma_spelled_from(text, i + 1);
                assert(text.subrange(i, i + 1) =~= seq![c]);
                lemma_spelled_token(
                    text,
                    i,
                    1,
                    Tok::Reserved(seq![c]),
                    scan(text, i + 1).unwrap(),
                );
            }
        } else {
            let end = run_end(text, i, 10);
            lemma_spelled_number(text, i);
            lemma_spelled_from(text, end);
            lemma_spelled_token(
                text,
                i,
                end - i,
                Tok::Num(value_of(text.subrange(i, end), 10) as u32),
                scan(text, end).unwrap(),
            );
        }
    }
}

/// Whether `c` is a character that the lexer knows.
pub open spec fn is_supported(c: char) -> bool {
    is_space(c) || is_letter(c) || is_punctuation(c) || is_comparator(c) || is_digit(c)
}

/// Whether a number begins at position `i` of `text`.
pub open spec fn number_starts(text: Seq<char>, i: int) -> bool {
    0 <= i < text.len() && is_digit(text[i]) && (i == 0 || !is_digit(text[i - 1]))
}

/// The value of the longest run of digits that begins at position `i`.
pub open spec fn number_at(text: Seq<char>, i: int) -> nat {
    value_of(text.subrange(i, run_end(text, i, 10)), 10)
}

/// Whether `text`, from position `from` on, holds only characters that the
/// lexer knows and only numbers that fit in 32 bits.
pub open spec fn lexable_from(text: Seq<char>, from: int) -> bool {
    &&& forall|j: int| from <= j < text.len() ==> is_supported(#[trigger] text[j])
    &&& forall|j: int| from <= j && #[trigger] number_starts(text, j) ==> number_at(text, j) <= u32::MAX
}

/// When lexing succeeds: exactly on the texts that hold only whitespace,
/// digits, ASCII letters and the marks of the operators, and in which every
/// number fits in 32 bits.
pub proof fn lemma_scan_succeeds(text: Seq<char>)
    ensures
        scan(text, 0) is Ok <==> lexable_from(text, 0),
{
    lemma_scan_succeeds_from(text, 0);
}

/// [`lemma_scan_succeeds`] for the text from position `i` on, where `i`
/// does not lie inside a number.
proof fn lemma_scan_succeeds_from(text: Seq<char>, i: int)
    requires
        0 <= i <= text.len(),
        i == 0 || i == text.len() || !is_digit(text[i - 1]) || !is_digit(text[i]),
    ensures
        scan(text, i) is Ok <==> lexable_from(text, i),
    decreases text.len() - i,
{
    if i < text.len() {
        let c = text[i];
        if is_digit(c) {
            let end = run_end(text, i, 10);
            lemma_run_end_bounds(text, i, 10);
            lemma_run_digits(text, i, 10);
            lemma_scan_succeeds_from(text, end);
            assert(number_starts(text, i));
            assert forall|j: int| i <= j < end implies is_supported(#[trigger] text[j])
                && is_digit(text[j]) by {
                assert(to_digit(text[j], 10) is Some);
            }
            if lexable_from(text, i) {
                assert(number_at(text, i) <= u32::MAX);
                assert(lexable_from(text, end));
            }
            if scan(text, i) is Ok {
                assert forall|j: int| i <= j && #[trigger] number_starts(text, j) implies number_at(
                    text,
                    j,
                ) <= u32::MAX by {
                    if i < j < end {
                        assert(is_digit(text[j - 1]));
                    }
                }
            }
        } else if is_comparator(c) && !is_space(c) && !is_letter(c) && !is_punctuation(c) && i + 1
            < text.len() && text[i + 1] == '=' {
            lemma_scan_succeeds_from(text, i + 2);
            assert(is_supported(text[i + 1]));
            if lexable_from(text, i + 2) {
                assert forall|j: int| i <= j && #[trigger] number_starts(text, j) implies number_at(
                    text,
                    j,
                ) <= u32::MAX by {}
            }
        } else {
            lemma_scan_succeeds_from(text, i + 1);
            if is_supported(c) && lexable_from(text, i + 1) {
                assert forall|j: int| i <= j && #[trigger] number_starts(text, j) implies number_at(
                    text,
                    j,
                ) <= u32::MAX by {}
            }
        }
    }
}

} // verus!
