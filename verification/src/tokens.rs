//! Tokens, and the splitting of text into them.

use crate::arith::{follows, total, Operation, Request, Table};
use crate::error::Error;
use std::collections::VecDeque;
use vstd::prelude::*;
use vstd::string::StringExecFns;
use vstd::string::StrSliceExecFns;

verus! {

/// One lexical unit of the input over numbers of type `N`.
#[derive(Debug, PartialEq)]
pub enum Token<N> {
    Number(N),
    Plus,
    Minus,
    Times,
    Divide,
    Modulus,
    Exponent,
    LeftParen,
    RightParen,
    /// The name of a built-in function together with the `(` that follows it.
    FunctionCall(String),
    Comma,
    Help,
    /// The word `graph` together with the `(` that follows it.
    Graph,
    Variable(String),
    Equal,
}

/// The mathematical value of a [`Token`].
pub enum Lexeme<N> {
    Number(N),
    Plus,
    Minus,
    Times,
    Divide,
    Modulus,
    Exponent,
    LeftParen,
    RightParen,
    FunctionCall(Seq<char>),
    Comma,
    Help,
    Graph,
    Variable(Seq<char>),
    Equal,
}

impl<N> View for Token<N> {
    type V = Lexeme<N>;

    open spec fn view(&self) -> Lexeme<N> {
        match self {
            Token::Number(v) => Lexeme::Number(*v),
            Token::Plus => Lexeme::Plus,
            Token::Minus => Lexeme::Minus,
            Token::Times => Lexeme::Times,
            Token::Divide => Lexeme::Divide,
            Token::Modulus => Lexeme::Modulus,
            Token::Exponent => Lexeme::Exponent,
            Token::LeftParen => Lexeme::LeftParen,
            Token::RightParen => Lexeme::RightParen,
            Token::FunctionCall(name) => Lexeme::FunctionCall(name@),
            Token::Comma => Lexeme::Comma,
            Token::Help => Lexeme::Help,
            Token::Graph => Lexeme::Graph,
            Token::Variable(name) => Lexeme::Variable(name@),
            Token::Equal => Lexeme::Equal,
        }
    }
}

impl<N: Copy> Clone for Token<N> {
    fn clone(&self) -> (r: Self)
        ensures
            r@ == self@,
    {
        match self {
            Token::Number(v) => Token::Number(*v),
            Token::Plus => Token::Plus,
            Token::Minus => Token::Minus,
            Token::Times => Token::Times,
            Token::Divide => Token::Divide,
            Token::Modulus => Token::Modulus,
            Token::Exponent => Token::Exponent,
            Token::LeftParen => Token::LeftParen,
            Token::RightParen => Token::RightParen,
            Token::FunctionCall(name) => Token::FunctionCall(name.clone()),
            Token::Comma => Token::Comma,
            Token::Help => Token::Help,
            Token::Graph => Token::Graph,
            Token::Variable(name) => Token::Variable(name.clone()),
            Token::Equal => Token::Equal,
        }
    }
}

/// The values of the tokens of a sequence, in order.
pub open spec fn lexemes_of<N>(tokens: Seq<Token<N>>) -> Seq<Lexeme<N>> {
    Seq::new(tokens.len(), |i: int| tokens[i]@)
}

/// The characters that separate tokens: those that Unicode calls white space.
pub open spec fn is_space(c: char) -> bool {
    ||| '\u{9}' <= c <= '\u{d}'
    ||| c == ' '
    ||| c == '\u{85}'
    ||| c == '\u{a0}'
    ||| c == '\u{1680}'
    ||| '\u{2000}' <= c <= '\u{200a}'
    ||| c == '\u{2028}'
    ||| c == '\u{2029}'
    ||| c == '\u{202f}'
    ||| c == '\u{205f}'
    ||| c == '\u{3000}'
}

/// A letter of a name: `a` to `z`.
pub open spec fn is_lower(c: char) -> bool {
    'a' <= c <= 'z'
}

/// A digit of a number: `0` to `9`.
pub open spec fn is_digit(c: char) -> bool {
    '0' <= c <= '9'
}

fn space(c: char) -> (r: bool)
    ensures
        r == is_space(c),
{
    ('\u{9}' <= c && c <= '\u{d}') || c == ' ' || c == '\u{85}' || c == '\u{a0}' || c == '\u{1680}' || (
    '\u{2000}' <= c && c <= '\u{200a}') || c == '\u{2028}' || c == '\u{2029}' || c == '\u{202f}' || c
        == '\u{205f}' || c == '\u{3000}'
}

fn lower(c: char) -> (r: bool)
    ensures
        r == is_lower(c),
{
    'a' <= c && c <= 'z'
}

fn digit(c: char) -> (r: bool)
    ensures
        r == is_digit(c),
{
    '0' <= c && c <= '9'
}

/// The characters of a text, one by one.
fn characters(text: &str) -> (r: Vec<char>)
    ensures
        r@ == text@,
{
    let mut out: Vec<char> = Vec::new();
    for c in it: text.chars()
        invariant
            out@ == it.history(),
            it.seq() == text@,
    {
        out.push(c);
    }
    out
}

/// The number of letters that stand in `s` from place `i` on without a gap.
pub open spec fn letters(s: Seq<char>, i: int) -> int
    decreases s.len() - i,
{
    if 0 <= i < s.len() && is_lower(s[i]) {
        1 + letters(s, i + 1)
    } else {
        0
    }
}

/// The number of digits that stand in `s` from place `i` on without a gap.
pub open spec fn digits(s: Seq<char>, i: int) -> int
    decreases s.len() - i,
{
    if 0 <= i < s.len() && is_digit(s[i]) {
        1 + digits(s, i + 1)
    } else {
        0
    }
}

/// The length of the numeric literal at place `i` of `s`: one digit or more,
/// and a point with the digits after it where at least one digit follows the
/// point. It is 0 where no digit stands at place `i`.
pub open spec fn number_length(s: Seq<char>, i: int) -> int {
    let whole = digits(s, i);
    if whole > 0 && i + whole < s.len() && s[i + whole] == '.' && digits(s, i + whole + 1) > 0 {
        whole + 1 + digits(s, i + whole + 1)
    } else {
        whole
    }
}

/// The names that the tokenizer takes for functions when a `(` follows them.
pub open spec fn is_function_name(name: Seq<char>) -> bool {
    ||| name == "sum"@
    ||| name == "average"@
    ||| name == "sin"@
    ||| name == "cos"@
    ||| name == "tan"@
    ||| name == "asin"@
    ||| name == "acos"@
    ||| name == "atan"@
    ||| name == "sec"@
    ||| name == "csc"@
    ||| name == "cot"@
    ||| name == "ln"@
    ||| name == "factorial"@
    ||| name == "mean"@
    ||| name == "median"@
    ||| name == "mode"@
    ||| name == "avg"@
    ||| name == "abs"@
    ||| name == "max"@
    ||| name == "min"@
    ||| name == "std"@
}

/// The characters of the word `help`.
pub open spec fn help_word() -> Seq<char> {
    seq!['h', 'e', 'l', 'p']
}

/// The characters of the word `graph` with the `(` after it.
pub open spec fn graph_word() -> Seq<char> {
    seq!['g', 'r', 'a', 'p', 'h', '(']
}

/// The characters of `word` stand in `s` from place `i` on.
pub open spec fn spells(s: Seq<char>, i: int, word: Seq<char>) -> bool {
    i + word.len() <= s.len() && s.subrange(i, i + word.len()) == word
}

/// The token other than a number that begins at place `i` of `s`, with the
/// number of characters it takes. The patterns are tried in this order: one of
/// `+ - * / % ^ ( )`; the name of a function with the `(` after it; `,`; the
/// word `help`; the word `graph` with the `(` after it; `=`; a run of
/// letters, which is a variable.
pub open spec fn word_at<N>(s: Seq<char>, i: int) -> Option<(Lexeme<N>, int)> {
    let c = s[i];
    let run = letters(s, i);
    if c == '+' {
        Some((Lexeme::Plus, 1))
    } else if c == '-' {
        Some((Lexeme::Minus, 1))
    } else if c == '*' {
        Some((Lexeme::Times, 1))
    } else if c == '/' {
        Some((Lexeme::Divide, 1))
    } else if c == '%' {
        Some((Lexeme::Modulus, 1))
    } else if c == '^' {
        Some((Lexeme::Exponent, 1))
    } else if c == '(' {
        Some((Lexeme::LeftParen, 1))
    } else if c == ')' {
        Some((Lexeme::RightParen, 1))
    } else if run > 0 && i + run < s.len() && s[i + run] == '(' && is_function_name(
        s.subrange(i, i + run),
    ) {
        Some((Lexeme::FunctionCall(s.subrange(i, i + run)), run + 1))
    } else if c == ',' {
        Some((Lexeme::Comma, 1))
    } else if spells(s, i, help_word()) {
        Some((Lexeme::Help, 4))
    } else if spells(s, i, graph_word()) {
        Some((Lexeme::Graph, 6))
    } else if c == '=' {
        Some((Lexeme::Equal, 1))
    } else if run > 0 {
        Some((Lexeme::Variable(s.subrange(i, i + run)), run))
    } else {
        None
    }
}

/// `first` followed by what `rest` holds, or the error of `rest`.
pub open spec fn before<N>(first: Seq<Lexeme<N>>, rest: Result<Seq<Lexeme<N>>, Error>) -> Result<
    Seq<Lexeme<N>>,
    Error,
> {
    match rest {
        Ok(more) => Ok(first + more),
        Err(e) => Err(e),
    }
}

/// The tokens of `s` from place `i` on. White space is passed over. At any
/// other character a token must begin: one that [`word_at`] finds, or else a
/// numeric literal, whose number is the one that `table` reads from it. Where
/// none begins, or the literal has no number, the text is not recognized from
/// that place on.
pub open spec fn lex_from<N>(s: Seq<char>, i: int, table: Table<N>) -> Result<Seq<Lexeme<N>>, Error>
    decreases s.len() - i,
    via lex_from_ends::<N>
{
    if i < 0 || i >= s.len() {
        Ok(Seq::empty())
    } else if is_space(s[i]) {
        lex_from(s, i + 1, table)
    } else {
        match word_at::<N>(s, i) {
            Some((token, n)) => before(seq![token], lex_from(s, i + n, table)),
            None => if digits(s, i) > 0 {
                match table(Request::Literal(s.subrange(i, i + number_length(s, i)))) {
                    Some(v) => before(
                        seq![Lexeme::Number(v)],
                        lex_from(s, i + number_length(s, i), table),
                    ),
                    None => Err(Error::Unrecognized { at: i as usize }),
                }
            } else {
                Err(Error::Unrecognized { at: i as usize })
            },
        }
    }
}

#[via_fn]
proof fn lex_from_ends<N>(s: Seq<char>, i: int, table: Table<N>) {
    if 0 <= i < s.len() {
        lemma_runs_end(s, i);
    }
}

/// The text holds nothing but white space.
pub open spec fn blank(s: Seq<char>) -> bool {
    forall|k: int| 0 <= k < s.len() ==> is_space(#[trigger] s[k])
}

/// The tokens of a text: an error for a blank text, and else the tokens from
/// its first character on.
pub open spec fn lex<N>(s: Seq<char>, table: Table<N>) -> Result<Seq<Lexeme<N>>, Error> {
    if blank(s) {
        Err(Error::EmptyInput)
    } else {
        lex_from(s, 0, table)
    }
}

/// A run of letters or digits ends within the text.
pub proof fn lemma_runs_end(s: Seq<char>, i: int)
    requires
        0 <= i <= s.len(),
    ensures
        0 <= letters(s, i) <= s.len() - i,
        0 <= digits(s, i) <= s.len() - i,
        0 <= number_length(s, i) <= s.len() - i,
        digits(s, i) > 0 ==> number_length(s, i) > 0,
    decreases s.len() - i,
{
    if i < s.len() {
        lemma_runs_end(s, i + 1);
    }
    let whole = digits(s, i);
    if i + whole < s.len() {
        lemma_digits_end(s, i + whole + 1);
    }
}

proof fn lemma_digits_end(s: Seq<char>, i: int)
    requires
        0 <= i <= s.len(),
    ensures
        0 <= digits(s, i) <= s.len() - i,
    decreases s.len() - i,
{
    if i < s.len() {
        lemma_digits_end(s, i + 1);
    }
}

/// Counts the letters that stand in `chars` from place `i` on.
fn count_letters(chars: &Vec<char>, i: usize) -> (n: usize)
    requires
        i <= chars@.len(),
    ensures
        n == letters(chars@, i as int),
        i + n <= chars@.len(),
{
    let mut j: usize = i;
    while j < chars.len() && lower(chars[j])
        invariant
            i <= j <= chars@.len(),
            letters(chars@, i as int) == (j - i) + letters(chars@, j as int),
        decreases chars@.len() - j,
    {
        j += 1;
    }
    j - i
}

/// Counts the digits that stand in `chars` from place `i` on.
fn count_digits(chars: &Vec<char>, i: usize) -> (n: usize)
    requires
        i <= chars@.len(),
    ensures
        n == digits(chars@, i as int),
        i + n <= chars@.len(),
{
    let mut j: usize = i;
    while j < chars.len() && digit(chars[j])
        invariant
            i <= j <= chars@.len(),
            digits(chars@, i as int) == (j - i) + digits(chars@, j as int),
        decreases chars@.len() - j,
    {
        j += 1;
    }
    j - i
}

/// Measures the numeric literal at place `i` of `chars`.
fn measure_number(chars: &Vec<char>, i: usize) -> (n: usize)
    requires
        i <= chars@.len(),
    ensures
        n == number_length(chars@, i as int),
        i + n <= chars@.len(),
{
    let n = chars.len();
    let whole = count_digits(chars, i);
    if whole > 0 && i + whole < n && chars[i + whole] == '.' {
        let fraction = count_digits(chars, i + whole + 1);
        if fraction > 0 {
            return whole + 1 + fraction;
        }
    }
    whole
}

/// Whether the tokenizer takes `name` for a function when a `(` follows it.
pub fn is_function(name: &String) -> (r: bool)
    ensures
        r == is_function_name(name@),
{
    crate::eval::is_word(name, "sum") || crate::eval::is_word(name, "average")
        || crate::eval::is_word(name, "sin") || crate::eval::is_word(name, "cos")
        || crate::eval::is_word(name, "tan") || crate::eval::is_word(name, "asin")
        || crate::eval::is_word(name, "acos") || crate::eval::is_word(name, "atan")
        || crate::eval::is_word(name, "sec") || crate::eval::is_word(name, "csc")
        || crate::eval::is_word(name, "cot") || crate::eval::is_word(name, "ln")
        || crate::eval::is_word(name, "factorial") || crate::eval::is_word(name, "mean")
        || crate::eval::is_word(name, "median") || crate::eval::is_word(name, "mode")
        || crate::eval::is_word(name, "avg") || crate::eval::is_word(name, "abs")
        || crate::eval::is_word(name, "max") || crate::eval::is_word(name, "min")
        || crate::eval::is_word(name, "std")
}

fn spells_help(chars: &Vec<char>, i: usize) -> (r: bool)
    requires
        i < chars@.len(),
    ensures
        r == spells(chars@, i as int, help_word()),
{
    let n = chars.len();
    if n - i >= 4 && chars[i] == 'h' && chars[i + 1] == 'e' && chars[i + 2] == 'l' && chars[i + 3]
        == 'p' {
        assert(chars@.subrange(i as int, i + 4) =~= help_word());
        true
    } else {
        if n - i >= 4 {
            let ghost part = chars@.subrange(i as int, i + 4);
            assert(part[0] == chars@[i as int] && part[1] == chars@[i + 1] && part[2] == chars@[i
                + 2] && part[3] == chars@[i + 3]);
        }
        false
    }
}

fn spells_graph(chars: &Vec<char>, i: usize) -> (r: bool)
    requires
        i < chars@.len(),
    ensures
        r == spells(chars@, i as int, graph_word()),
{
    let n = chars.len();
    if n - i >= 6 && chars[i] == 'g' && chars[i + 1] == 'r' && chars[i + 2] == 'a' && chars[i + 3]
        == 'p' && chars[i + 4] == 'h' && chars[i + 5] == '(' {
        assert(chars@.subrange(i as int, i + 6) =~= graph_word());
        true
    } else {
        if n - i >= 6 {
            let ghost part = chars@.subrange(i as int, i + 6);
            assert(part[0] == chars@[i as int] && part[1] == chars@[i + 1] && part[2] == chars@[i
                + 2] && part[3] == chars@[i + 3] && part[4] == chars@[i + 4] && part[5] == chars@[i
                + 5]);
        }
        false
    }
}

/// The characters `from` to `to` of `text` as a string of their own.
fn slice(text: &str, from: usize, to: usize) -> (r: String)
    requires
        from <= to <= text@.len(),
    ensures
        r@ == text@.subrange(from as int, to as int),
{
    String::from_str(text.substring_char(from, to))
}

/// Finds the token other than a number at place `i`; see [`word_at`].
fn read_word<N>(chars: &Vec<char>, text: &str, i: usize) -> (r: Option<(Token<N>, usize)>)
    requires
        chars@ == text@,
        i < chars@.len(),
    ensures
        match r {
            Some((token, n)) => word_at::<N>(chars@, i as int) == Some((token@, n as int)) && 0 < n
                <= chars@.len() - i,
            None => word_at::<N>(chars@, i as int) is None,
        },
{
    let c = chars[i];
    if c == '+' {
        return Some((Token::Plus, 1));
    } else if c == '-' {
        return Some((Token::Minus, 1));
    } else if c == '*' {
        return Some((Token::Times, 1));
    } else if c == '/' {
        return Some((Token::Divide, 1));
    } else if c == '%' {
        return Some((Token::Modulus, 1));
    } else if c == '^' {
        return Some((Token::Exponent, 1));
    } else if c == '(' {
        return Some((Token::LeftParen, 1));
    } else if c == ')' {
        return Some((Token::RightParen, 1));
    }
    let n = chars.len();
    let run = count_letters(chars, i);
    if run > 0 && i + run < n && chars[i + run] == '(' {
        let name = slice(text, i, i + run);
        if is_function(&name) {
            return Some((Token::FunctionCall(name), run + 1));
        }
    }
    if c == ',' {
        Some((Token::Comma, 1))
    } else if spells_help(chars, i) {
        Some((Token::Help, 4))
    } else if spells_graph(chars, i) {
        Some((Token::Graph, 6))
    } else if c == '=' {
        Some((Token::Equal, 1))
    } else if run > 0 {
        Some((Token::Variable(slice(text, i, i + run)), run))
    } else {
        None
    }
}

/// What `r` says of a tokenization that was to give `expected`.
pub open spec fn tokens_result<N>(r: Result<VecDeque<Token<N>>, Error>, expected: Result<
    Seq<Lexeme<N>>,
    Error,
>) -> bool {
    match r {
        Ok(tokens) => expected == Ok::<Seq<Lexeme<N>>, Error>(lexemes_of(tokens@)),
        Err(e) => expected == Err::<Seq<Lexeme<N>>, Error>(e),
    }
}

/// Splits a text into its tokens. The arithmetic `ops` reads the number of
/// each numeric literal. A blank text is refused as empty input; any other
/// text that is refused is not recognized from a place on where a character
/// stands that is no white space.
pub fn tokenize<N, F: Fn(Operation<N>) -> Option<N>>(input: String, ops: &F) -> (r: Result<
    VecDeque<Token<N>>,
    Error,
>)
    requires
        total(ops),
    ensures
        forall|table: Table<N>|
            follows(ops, table) ==> tokens_result(r, #[trigger] lex(input@, table)),
        blank(input@) <==> r == Err::<VecDeque<Token<N>>, Error>(Error::EmptyInput),
        r matches Err(e) ==> e == Error::EmptyInput || (e matches Error::Unrecognized { at } && at
            < input@.len() && !is_space(input@[at as int])),
{
    let text = input.as_str();
    let chars = characters(text);
    let ghost s = input@;
    let n = chars.len();
    let mut first: usize = 0;
    while first < n && space(chars[first])
        invariant
            first <= n,
            n == chars@.len(),
            forall|k: int| 0 <= k < first ==> is_space(#[trigger] chars@[k]),
        decreases n - first,
    {
        first += 1;
    }
    if first == n {
        return Err(Error::EmptyInput);
    }
    assert(!blank(s)) by {
        assert(!is_space(s[first as int]));
    }
    let mut tokens: VecDeque<Token<N>> = VecDeque::new();
    let mut i: usize = 0;
    assert(lexemes_of(tokens@) =~= Seq::empty());
    while i < n
        invariant
            total(ops),
            i <= n,
            n == chars@.len(),
            chars@ == s,
            text@ == s,
            input@ == s,
            !blank(s),
            forall|table: Table<N>|
                follows(ops, table) ==> #[trigger] lex_from(s, 0, table) == before(
                    lexemes_of(tokens@),
                    lex_from(s, i as int, table),
                ),
        decreases n - i,
    {
        let ghost found = lexemes_of(tokens@);
        if space(chars[i]) {
            i += 1;
            continue ;
        }
        match read_word::<N>(&chars, text, i) {
            Some((token, length)) => {
                proof {
                    assert forall|table: Table<N>| follows(ops, table) implies #[trigger] lex_from(
                        s,
                        0,
                        table,
                    ) == before(found.push(token@), lex_from(s, i + length, table)) by {
                        let rest = lex_from(s, i + length, table);
                        if let Ok(more) = rest {
                            assert(found + (seq![token@] + more) =~= found.push(token@) + more);
                        }
                    }
                }
                tokens.push_back(token);
                assert(lexemes_of(tokens@) =~= found.push(token@));
                i += length;
            },
            None => {
                let length = measure_number(&chars, i);
                if length == 0 {
                    proof {
                        lemma_runs_end(s, i as int);
                    }
                    return Err(Error::Unrecognized { at: i });
                }
                let literal = slice(text, i, i + length);
                let request = Operation::Literal(literal);
                match ops(request) {
                    Some(v) => {
                        proof {
                            assert forall|table: Table<N>|
                                follows(ops, table) implies #[trigger] lex_from(s, 0, table)
                                == before(
                                found.push(Lexeme::Number(v)),
                                lex_from(s, i + length, table),
                            ) by {
                                assert(table(request@) == Some(v));
                                let rest = lex_from(s, i + length, table);
                                if let Ok(more) = rest {
                                    assert(found + (seq![Lexeme::Number(v)] + more) =~= found.push(
                                        Lexeme::Number(v),
                                    ) + more);
                                }
                            }
                        }
                        let token = Token::Number(v);
                        tokens.push_back(token);
                        assert(lexemes_of(tokens@) =~= found.push(token@));
                        i += length;
                    },
                    None => {
                        proof {
                            assert forall|table: Table<N>| follows(ops, table) implies tokens_result(
                                Err::<VecDeque<Token<N>>, Error>(Error::Unrecognized { at: i }),
                                #[trigger] lex(s, table),
                            ) by {
                                assert(table(request@) == None::<N>);
                            }
                        }
                        return Err(Error::Unrecognized { at: i });
                    },
                }
            },
        }
    }
    proof {
        assert forall|table: Table<N>| follows(ops, table) implies tokens_result(
            Ok::<VecDeque<Token<N>>, Error>(tokens),
            #[trigger] lex(s, table),
        ) by {
            assert(lexemes_of(tokens@) + Seq::<Lexeme<N>>::empty() =~= lexemes_of(tokens@));
        }
    }
    Ok(tokens)
}

/// The length of `s` without the white space at its end.
pub open spec fn trimmed_length(s: Seq<char>) -> int
    decreases s.len(),
{
    if s.len() > 0 && is_space(s.last()) {
        trimmed_length(s.drop_last())
    } else {
        s.len() as int
    }
}

/// What is left of `s` from place `at` on, without the white space at its
/// end.
pub open spec fn remainder(s: Seq<char>, at: int) -> Seq<char> {
    if at < trimmed_length(s) {
        s.subrange(at, trimmed_length(s))
    } else {
        Seq::empty()
    }
}

/// The text that was not recognized, for an error that names the place `at`
/// of `input`: the rest of the input from that place on, without the white
/// space at its end.
pub fn remaining_text(input: &str, at: usize) -> (r: String)
    ensures
        r@ == remainder(input@, at as int),
{
    let chars = characters(input);
    let ghost s = input@;
    let mut end: usize = chars.len();
    assert(s.take(end as int) =~= s);
    while end > 0 && space(chars[end - 1])
        invariant
            end <= chars@.len(),
            chars@ == s,
            input@ == s,
            trimmed_length(s) == trimmed_length(s.take(end as int)),
        decreases end,
    {
        assert(s.take(end as int).drop_last() =~= s.take(end - 1));
        end -= 1;
    }
    assert(trimmed_length(s.take(end as int)) == end);
    if at < end {
        slice(input, at, end)
    } else {
        String::new()
    }
}

} // verus!
