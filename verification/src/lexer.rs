//! The tokenizer: turns a formula string and a designated variable name
//! into a flat token stream.
//!
//! The scan is deliberately permissive: characters that belong to no token
//! (whitespace, unknown symbols) are consumed and dropped without an error,
//! and an identifier that is neither the designated variable nor a known
//! keyword becomes an opaque named constant.

use vstd::prelude::*;

verus! {

/// One lexical unit of a formula.
///
/// A numeric literal keeps the run of digits and decimal points it was
/// scanned from, verbatim; the caller interprets that text as a number.
#[derive(Debug, PartialEq)]
pub enum Token {
    Number(String),
    Add,
    Sub,
    Mul,
    Div,
    LParen,
    RParen,
    Sin,
    Cos,
    Tan,
    Arcsin,
    Arccos,
    Arctan,
    Ln,
    Log,
    Pow,
    Sqrt,
    Constant(String),
    Variable(String),
    EConstant,
}

impl Clone for Token {
    /// A clone is equal to the original, member by member.
    fn clone(&self) -> (r: Token)
        ensures
            r == *self,
    {
        match self {
            Token::Number(s) => Token::Number(s.clone()),
            Token::Add => Token::Add,
            Token::Sub => Token::Sub,
            Token::Mul => Token::Mul,
            Token::Div => Token::Div,
            Token::LParen => Token::LParen,
            Token::RParen => Token::RParen,
            Token::Sin => Token::Sin,
            Token::Cos => Token::Cos,
            Token::Tan => Token::Tan,
            Token::Arcsin => Token::Arcsin,
            Token::Arccos => Token::Arccos,
            Token::Arctan => Token::Arctan,
            Token::Ln => Token::Ln,
            Token::Log => Token::Log,
            Token::Pow => Token::Pow,
            Token::Sqrt => Token::Sqrt,
            Token::Constant(s) => Token::Constant(s.clone()),
            Token::Variable(s) => Token::Variable(s.clone()),
            Token::EConstant => Token::EConstant,
        }
    }
}

/// The mathematical model of a token: the same variants as `Token`, with
/// each piece of text abstracted to its character sequence.
pub enum TokenView {
    Number(Seq<char>),
    Add,
    Sub,
    Mul,
    Div,
    LParen,
    RParen,
    Sin,
    Cos,
    Tan,
    Arcsin,
    Arccos,
    Arctan,
    Ln,
    Log,
    Pow,
    Sqrt,
    Constant(Seq<char>),
    Variable(Seq<char>),
    EConstant,
}

impl View for Token {
    type V = TokenView;

    open spec fn view(&self) -> TokenView {
        match *self {
            Token::Number(s) => TokenView::Number(s@),
            Token::Add => TokenView::Add,
            Token::Sub => TokenView::Sub,
            Token::Mul => TokenView::Mul,
            Token::Div => TokenView::Div,
            Token::LParen => TokenView::LParen,
            Token::RParen => TokenView::RParen,
            Token::Sin => TokenView::Sin,
            Token::Cos => TokenView::Cos,
            Token::Tan => TokenView::Tan,
            Token::Arcsin => TokenView::Arcsin,
            Token::Arccos => TokenView::Arccos,
            Token::Arctan => TokenView::Arctan,
            Token::Ln => TokenView::Ln,
            Token::Log => TokenView::Log,
            Token::Pow => TokenView::Pow,
            Token::Sqrt => TokenView::Sqrt,
            Token::Constant(s) => TokenView::Constant(s@),
            Token::Variable(s) => TokenView::Variable(s@),
            Token::EConstant => TokenView::EConstant,
        }
    }
}

/// The views of a whole token stream.
pub open spec fn token_views(tokens: Seq<Token>) -> Seq<TokenView> {
    tokens.map_values(|t: Token| t@)
}

/// A decimal digit.
pub open spec fn is_digit(c: char) -> bool {
    48 <= c as u32 && c as u32 <= 57
}

/// An ASCII letter.
pub open spec fn is_alpha(c: char) -> bool {
    (65 <= c as u32 && c as u32 <= 90) || (97 <= c as u32 && c as u32 <= 122)
}

/// A character that may continue a numeric literal.
pub open spec fn is_num_char(c: char) -> bool {
    is_digit(c) || c == '.'
}

/// Length of the longest prefix of digits and decimal points.
pub open spec fn num_run_len(s: Seq<char>) -> nat
    decreases s.len(),
{
    if s.len() == 0 || !is_num_char(s[0]) {
        0
    } else {
        1 + num_run_len(s.skip(1))
    }
}

/// Length of the longest prefix of letters.
pub open spec fn ident_run_len(s: Seq<char>) -> nat
    decreases s.len(),
{
    if s.len() == 0 || !is_alpha(s[0]) {
        0
    } else {
        1 + ident_run_len(s.skip(1))
    }
}

pub proof fn lemma_num_run_len_le(s: Seq<char>)
    ensures
        num_run_len(s) <= s.len(),
    decreases s.len(),
{
    if s.len() > 0 && is_num_char(s[0]) {
        lemma_num_run_len_le(s.skip(1));
    }
}

pub proof fn lemma_ident_run_len_le(s: Seq<char>)
    ensures
        ident_run_len(s) <= s.len(),
    decreases s.len(),
{
    if s.len() > 0 && is_alpha(s[0]) {
        lemma_ident_run_len_le(s.skip(1));
    }
}

/// The token an identifier run becomes: the designated variable name wins,
/// then the fixed keyword table, case-sensitively; anything else is an
/// opaque named constant.
pub open spec fn ident_token(name: Seq<char>, var: Seq<char>) -> TokenView {
    if name == var {
        TokenView::Variable(name)
    } else if name == "sin"@ {
        TokenView::Sin
    } else if name == "cos"@ {
        TokenView::Cos
    } else if name == "tan"@ {
        TokenView::Tan
    } else if name == "arcsin"@ {
        TokenView::Arcsin
    } else if name == "arccos"@ {
        TokenView::Arccos
    } else if name == "arctan"@ {
        TokenView::Arctan
    } else if name == "ln"@ {
        TokenView::Ln
    } else if name == "log"@ {
        TokenView::Log
    } else if name == "e"@ {
        TokenView::EConstant
    } else {
        TokenView::Constant(name)
    }
}

/// The token stream of an input text: a single left-to-right scan.
/// Digit runs and identifier runs are consumed greedily; each operator or
/// parenthesis is one token; every other character is dropped.
pub open spec fn lex(s: Seq<char>, var: Seq<char>) -> Seq<TokenView>
    decreases s.len(),
{
    if s.len() == 0 {
        Seq::empty()
    } else if is_digit(s[0]) {
        proof {
            lemma_num_run_len_le(s);
        }
        let n = num_run_len(s) as int;
        seq![TokenView::Number(s.take(n))] + lex(s.skip(n), var)
    } else if is_alpha(s[0]) {
        proof {
            lemma_ident_run_len_le(s);
        }
        let n = ident_run_len(s) as int;
        seq![ident_token(s.take(n), var)] + lex(s.skip(n), var)
    } else if s[0] == '+' {
        seq![TokenView::Add] + lex(s.skip(1), var)
    } else if s[0] == '-' {
        seq![TokenView::Sub] + lex(s.skip(1), var)
    } else if s[0] == '*' {
        seq![TokenView::Mul] + lex(s.skip(1), var)
    } else if s[0] == '/' {
        seq![TokenView::Div] + lex(s.skip(1), var)
    } else if s[0] == '(' {
        seq![TokenView::LParen] + lex(s.skip(1), var)
    } else if s[0] == ')' {
        seq![TokenView::RParen] + lex(s.skip(1), var)
    } else if s[0] == '^' {
        seq![TokenView::Pow] + lex(s.skip(1), var)
    } else {
        lex(s.skip(1), var)
    }
}

/// How many decimal points a character sequence holds.
pub open spec fn dot_count(s: Seq<char>) -> nat
    decreases s.len(),
{
    if s.len() == 0 {
        0
    } else {
        (if s[0] == '.' {
            1nat
        } else {
            0nat
        }) + dot_count(s.skip(1))
    }
}

/// Every numeric literal run in the text has at most one decimal point.
/// A run with more would not read as a number; scanning such a text is a
/// fatal lexical condition, so `tokenize` leaves those inputs out.
pub open spec fn nums_ok(s: Seq<char>) -> bool
    decreases s.len(),
{
    if s.len() == 0 {
        true
    } else if is_digit(s[0]) {
        proof {
            lemma_num_run_len_le(s);
        }
        let n = num_run_len(s) as int;
        dot_count(s.take(n)) <= 1 && nums_ok(s.skip(n))
    } else if is_alpha(s[0]) {
        proof {
            lemma_ident_run_len_le(s);
        }
        nums_ok(s.skip(ident_run_len(s) as int))
    } else {
        nums_ok(s.skip(1))
    }
}

/// Whether the parenthesis characters of a text, entered at nesting level
/// `depth`, keep the level nonnegative throughout and end it at zero.
pub open spec fn char_balanced_at(s: Seq<char>, depth: int) -> bool
    decreases s.len(),
{
    if s.len() == 0 {
        depth == 0
    } else if s[0] == '(' {
        char_balanced_at(s.skip(1), depth + 1)
    } else if s[0] == ')' {
        depth >= 1 && char_balanced_at(s.skip(1), depth - 1)
    } else {
        char_balanced_at(s.skip(1), depth)
    }
}

/// Whether the parenthesis characters of a text balance.
pub open spec fn char_balanced(s: Seq<char>) -> bool {
    char_balanced_at(s, 0)
}

/// How many opening parenthesis characters a text holds.
pub open spec fn open_count(s: Seq<char>) -> nat
    decreases s.len(),
{
    if s.len() == 0 {
        0
    } else {
        (if s[0] == '(' {
            1nat
        } else {
            0nat
        }) + open_count(s.skip(1))
    }
}

/// How many closing parenthesis characters a text holds.
pub open spec fn close_count(s: Seq<char>) -> nat
    decreases s.len(),
{
    if s.len() == 0 {
        0
    } else {
        (if s[0] == ')' {
            1nat
        } else {
            0nat
        }) + close_count(s.skip(1))
    }
}

pub(crate) proof fn lemma_open_count_append(a: Seq<char>, b: Seq<char>)
    ensures
        open_count(a + b) == open_count(a) + open_count(b),
    decreases a.len(),
{
    if a.len() == 0 {
        assert(a + b =~= b);
    } else {
        assert((a + b)[0] == a[0]);
        assert((a + b).skip(1) =~= a.skip(1) + b);
        lemma_open_count_append(a.skip(1), b);
    }
}

pub(crate) proof fn lemma_close_count_append(a: Seq<char>, b: Seq<char>)
    ensures
        close_count(a + b) == close_count(a) + close_count(b),
    decreases a.len(),
{
    if a.len() == 0 {
        assert(a + b =~= b);
    } else {
        assert((a + b)[0] == a[0]);
        assert((a + b).skip(1) =~= a.skip(1) + b);
        lemma_close_count_append(a.skip(1), b);
    }
}

pub(crate) proof fn lemma_balanced_counts(s: Seq<char>, depth: int)
    requires
        char_balanced_at(s, depth),
    ensures
        close_count(s) == depth + open_count(s),
    decreases s.len(),
{
    if s.len() > 0 {
        if s[0] == '(' {
            lemma_balanced_counts(s.skip(1), depth + 1);
        } else if s[0] == ')' {
            lemma_balanced_counts(s.skip(1), depth - 1);
        } else {
            lemma_balanced_counts(s.skip(1), depth);
        }
    }
}

/// Inserting a single parenthesis character anywhere into a text whose
/// parentheses balance leaves a text whose parentheses cannot balance.
pub proof fn lemma_inserted_paren_unbalances(a: Seq<char>, b: Seq<char>, c: char)
    requires
        c == '(' || c == ')',
        char_balanced(a + b),
    ensures
        !char_balanced(a + seq![c] + b),
{
    lemma_open_count_append(a, b);
    lemma_close_count_append(a, b);
    lemma_balanced_counts(a + b, 0);
    if char_balanced(a + seq![c] + b) {
        lemma_open_count_append(a + seq![c], b);
        lemma_open_count_append(a, seq![c]);
        lemma_close_count_append(a + seq![c], b);
        lemma_close_count_append(a, seq![c]);
        lemma_balanced_counts(a + seq![c] + b, 0);
        assert(seq![c].skip(1) =~= Seq::<char>::empty());
        assert(seq![c][0] == c);
        assert(open_count(seq![c].skip(1)) == 0);
        assert(close_count(seq![c].skip(1)) == 0);
        assert(open_count(seq![c]) == (if c == '(' {
            1nat
        } else {
            0nat
        }));
        assert(close_count(seq![c]) == (if c == ')' {
            1nat
        } else {
            0nat
        }));
        assert(false);
    }
}

pub(crate) proof fn lemma_num_run_chars(s: Seq<char>)
    ensures
        forall|k: int| 0 <= k < num_run_len(s) ==> is_num_char(s[k]),
    decreases s.len(),
{
    if s.len() > 0 && is_num_char(s[0]) {
        lemma_num_run_len_le(s);
        lemma_num_run_len_le(s.skip(1));
        lemma_num_run_chars(s.skip(1));
        assert forall|k: int| 0 <= k < num_run_len(s) implies is_num_char(s[k]) by {
            if k > 0 {
                assert(s.skip(1)[k - 1] == s[k]);
            }
        }
    }
}

pub(crate) proof fn lemma_ident_run_chars(s: Seq<char>)
    ensures
        forall|k: int| 0 <= k < ident_run_len(s) ==> is_alpha(s[k]),
    decreases s.len(),
{
    if s.len() > 0 && is_alpha(s[0]) {
        lemma_ident_run_len_le(s);
        lemma_ident_run_len_le(s.skip(1));
        lemma_ident_run_chars(s.skip(1));
        assert forall|k: int| 0 <= k < ident_run_len(s) implies is_alpha(s[k]) by {
            if k > 0 {
                assert(s.skip(1)[k - 1] == s[k]);
            }
        }
    }
}

pub(crate) proof fn lemma_nonparen_run_balance(s: Seq<char>, n: int, d: int)
    requires
        0 <= n <= s.len(),
        forall|k: int| 0 <= k < n ==> (s[k] != '(' && s[k] != ')'),
    ensures
        char_balanced_at(s, d) == char_balanced_at(s.skip(n), d),
    decreases n,
{
    if n == 0 {
        assert(s.skip(0) =~= s);
    } else {
        assert forall|k: int| 0 <= k < n - 1 implies (s.skip(1)[k] != '(' && s.skip(1)[k]
            != ')') by {
            assert(s.skip(1)[k] == s[k + 1]);
        }
        lemma_nonparen_run_balance(s.skip(1), n - 1, d);
        assert(s.skip(1).skip(n - 1) =~= s.skip(n));
    }
}

fn num_char(c: char) -> (r: bool)
    ensures
        r == is_num_char(c),
{
    let u = c as u32;
    (48 <= u && u <= 57) || c == '.'
}

fn alpha_char(c: char) -> (r: bool)
    ensures
        r == is_alpha(c),
{
    let u = c as u32;
    (65 <= u && u <= 90) || (97 <= u && u <= 122)
}

proof fn lemma_num_run_len_is(s: Seq<char>, m: nat)
    requires
        m <= s.len(),
        forall|k: int| 0 <= k < m ==> is_num_char(s[k]),
        m == s.len() || !is_num_char(s[m as int]),
    ensures
        num_run_len(s) == m,
    decreases m,
{
    if m == 0 {
    } else {
        assert forall|k: int| 0 <= k < m - 1 implies is_num_char(s.skip(1)[k]) by {
            assert(s.skip(1)[k] == s[k + 1]);
        }
        if m < s.len() {
            assert(s.skip(1)[m - 1] == s[m as int]);
        }
        lemma_num_run_len_is(s.skip(1), (m - 1) as nat);
    }
}

proof fn lemma_ident_run_len_is(s: Seq<char>, m: nat)
    requires
        m <= s.len(),
        forall|k: int| 0 <= k < m ==> is_alpha(s[k]),
        m == s.len() || !is_alpha(s[m as int]),
    ensures
        ident_run_len(s) == m,
    decreases m,
{
    if m == 0 {
    } else {
        assert forall|k: int| 0 <= k < m - 1 implies is_alpha(s.skip(1)[k]) by {
            assert(s.skip(1)[k] == s[k + 1]);
        }
        if m < s.len() {
            assert(s.skip(1)[m - 1] == s[m as int]);
        }
        lemma_ident_run_len_is(s.skip(1), (m - 1) as nat);
    }
}

fn scan_num_run(s: &str, n: usize, i: usize) -> (j: usize)
    requires
        n == s@.len(),
        i < n,
        is_num_char(s@[i as int]),
    ensures
        i < j <= n,
        forall|k: int| i <= k < j ==> is_num_char(s@[k]),
        j == n || !is_num_char(s@[j as int]),
{
    let mut j: usize = i + 1;
    while j < n && num_char(s.get_char(j))
        invariant
            i < j <= n,
            n == s@.len(),
            forall|k: int| i <= k < j ==> is_num_char(s@[k]),
        decreases n - j,
    {
        j = j + 1;
    }
    j
}

fn scan_ident_run(s: &str, n: usize, i: usize) -> (j: usize)
    requires
        n == s@.len(),
        i < n,
        is_alpha(s@[i as int]),
    ensures
        i < j <= n,
        forall|k: int| i <= k < j ==> is_alpha(s@[k]),
        j == n || !is_alpha(s@[j as int]),
{
    let mut j: usize = i + 1;
    while j < n && alpha_char(s.get_char(j))
        invariant
            i < j <= n,
            n == s@.len(),
            forall|k: int| i <= k < j ==> is_alpha(s@[k]),
        decreases n - j,
    {
        j = j + 1;
    }
    j
}

fn str_eq(a: &str, b: &str) -> (r: bool)
    ensures
        r == (a@ == b@),
{
    let n = a.unicode_len();
    let m = b.unicode_len();
    if n != m {
        return false;
    }
    let mut i: usize = 0;
    while i < n
        invariant
            i <= n,
            n == a@.len(),
            n == b@.len(),
            forall|k: int| 0 <= k < i ==> a@[k] == b@[k],
        decreases n - i,
    {
        if a.get_char(i) != b.get_char(i) {
            return false;
        }
        i = i + 1;
    }
    proof {
        assert(a@ =~= b@);
    }
    true
}

proof fn lemma_lex_step_push(
    prev: Seq<Token>,
    cur: Seq<Token>,
    t: Token,
    sv: Seq<char>,
    var: Seq<char>,
    i: int,
    j: int,
)
    requires
        0 <= i <= j <= sv.len(),
        cur == prev.push(t),
        lex(sv, var) == token_views(prev) + lex(sv.skip(i), var),
        lex(sv.skip(i), var) == seq![t@] + lex(sv.skip(j), var),
    ensures
        lex(sv, var) == token_views(cur) + lex(sv.skip(j), var),
{
    assert(token_views(cur) =~= token_views(prev) + seq![t@]);
    assert((token_views(prev) + seq![t@]) + lex(sv.skip(j), var) =~= token_views(prev) + (seq![
        t@,
    ] + lex(sv.skip(j), var)));
}

/// Scans the input once, left to right, and returns its token stream.
///
/// A run of digits and decimal points becomes one numeric literal carrying
/// the run's text; a run of letters becomes the designated variable, a
/// keyword token, or a named constant; each of `+ - * / ( ) ^` becomes its
/// own token; every other character is consumed and dropped. A numeric run
/// with more than one decimal point does not read as a number, so such
/// inputs are left out (`nums_ok`); `numeric_literals_ok` tests for them.
pub fn tokenize(input: String, variable: String) -> (r: Vec<Token>)
    requires
        nums_ok(input@),
    ensures
        token_views(r@) == lex(input@, variable@),
{
    let s: &str = input.as_str();
    let n: usize = s.unicode_len();
    let mut tokens: Vec<Token> = Vec::new();
    let mut i: usize = 0;
    proof {
        assert(input@.skip(0) =~= input@);
        assert(token_views(tokens@) + lex(input@, variable@) =~= lex(input@, variable@));
    }
    while i < n
        invariant
            i <= n,
            n == s@.len(),
            s@ == input@,
            lex(input@, variable@) == token_views(tokens@) + lex(
                input@.skip(i as int),
                variable@,
            ),
        decreases n - i,
    {
        let ghost sv = input@;
        let ghost suf = input@.skip(i as int);
        let ghost prev = tokens@;
        proof {
            assert(suf[0] == sv[i as int]);
        }
        let c = s.get_char(i);
        let u = c as u32;
        if 48 <= u && u <= 57 {
            let j = scan_num_run(s, n, i);
            proof {
                assert forall|k: int| 0 <= k < j - i implies is_num_char(suf[k]) by {
                    assert(suf[k] == sv[k + i]);
                }
                assert(j == n || !is_num_char(suf[j - i])) by {
                    if j < n {
                        assert(suf[j - i] == sv[j as int]);
                    }
                }
                lemma_num_run_len_is(suf, (j - i) as nat);
            }
            let text = s.substring_char(i, j).to_owned();
            let tok = Token::Number(text);
            proof {
                assert(tok@->Number_0 =~= suf.take(j - i));
                assert(suf.skip(j - i) =~= sv.skip(j as int));
            }
            tokens.push(tok);
            proof {
                lemma_lex_step_push(prev, tokens@, tok, sv, variable@, i as int, j as int);
            }
            i = j;
        } else if alpha_char(c) {
            let j = scan_ident_run(s, n, i);
            proof {
                assert forall|k: int| 0 <= k < j - i implies is_alpha(suf[k]) by {
                    assert(suf[k] == sv[k + i]);
                }
                assert(j == n || !is_alpha(suf[j - i])) by {
                    if j < n {
                        assert(suf[j - i] == sv[j as int]);
                    }
                }
                lemma_ident_run_len_is(suf, (j - i) as nat);
            }
            let name = s.substring_char(i, j).to_owned();
            proof {
                assert(name@ =~= suf.take(j - i));
                assert(suf.skip(j - i) =~= sv.skip(j as int));
            }
            let tok: Token = if str_eq(name.as_str(), variable.as_str()) {
                Token::Variable(name)
            } else if str_eq(name.as_str(), "sin") {
                Token::Sin
            } else if str_eq(name.as_str(), "cos") {
                Token::Cos
            } else if str_eq(name.as_str(), "tan") {
                Token::Tan
            } else if str_eq(name.as_str(), "arcsin") {
                Token::Arcsin
            } else if str_eq(name.as_str(), "arccos") {
                Token::Arccos
            } else if str_eq(name.as_str(), "arctan") {
                Token::Arctan
            } else if str_eq(name.as_str(), "ln") {
                Token::Ln
            } else if str_eq(name.as_str(), "log") {
                Token::Log
            } else if str_eq(name.as_str(), "e") {
                Token::EConstant
            } else {
                Token::Constant(name)
            };
            proof {
                assert(tok@ == ident_token(suf.take(j - i), variable@));
            }
            tokens.push(tok);
            proof {
                lemma_lex_step_push(prev, tokens@, tok, sv, variable@, i as int, j as int);
            }
            i = j;
        } else {
            let tok: Option<Token> = if c == '+' {
                Some(Token::Add)
            } else if c == '-' {
                Some(Token::Sub)
            } else if c == '*' {
                Some(Token::Mul)
            } else if c == '/' {
                Some(Token::Div)
            } else if c == '(' {
                Some(Token::LParen)
            } else if c == ')' {
                Some(Token::RParen)
            } else if c == '^' {
                Some(Token::Pow)
            } else {
                None
            };
            proof {
                assert(suf.skip(1) =~= sv.skip(i as int + 1));
            }
            match tok {
                Some(t) => {
                    proof {
                        assert(lex(suf, variable@) == seq![t@] + lex(suf.skip(1), variable@));
                    }
                    tokens.push(t);
                    proof {
                        lemma_lex_step_push(
                            prev,
                            tokens@,
                            t,
                            sv,
                            variable@,
                            i as int,
                            i as int + 1,
                        );
                    }
                },
                None => {
                    proof {
                        assert(lex(suf, variable@) == lex(suf.skip(1), variable@));
                    }
                },
            }
            i = i + 1;
        }
    }
    proof {
        assert(input@.skip(n as int).len() == 0);
        assert(token_views(tokens@) + lex(input@.skip(n as int), variable@) =~= token_views(
            tokens@,
        ));
    }
    tokens
}

/// Tests whether every numeric literal run in the text has at most one
/// decimal point, so that the text is acceptable to `tokenize`.
pub fn numeric_literals_ok(text: &str) -> (r: bool)
    ensures
        r == nums_ok(text@),
{
    let n = text.unicode_len();
    let mut i: usize = 0;
    proof {
        assert(text@.skip(0) =~= text@);
    }
    while i < n
        invariant
            i <= n,
            n == text@.len(),
            nums_ok(text@) == nums_ok(text@.skip(i as int)),
        decreases n - i,
    {
        let ghost sv = text@;
        let ghost suf = text@.skip(i as int);
        proof {
            assert(suf[0] == sv[i as int]);
        }
        let c = text.get_char(i);
        let u = c as u32;
        if 48 <= u && u <= 57 {
            let j = scan_num_run(text, n, i);
            proof {
                assert forall|k: int| 0 <= k < j - i implies is_num_char(suf[k]) by {
                    assert(suf[k] == sv[k + i]);
                }
                assert(j == n || !is_num_char(suf[j - i])) by {
                    if j < n {
                        assert(suf[j - i] == sv[j as int]);
                    }
                }
                lemma_num_run_len_is(suf, (j - i) as nat);
            }
            let mut dots: usize = 0;
            let mut k: usize = i;
            while k < j
                invariant
                    i <= k <= j,
                    j <= n,
                    n == sv.len(),
                    sv == text@,
                    dots <= k - i,
                    dot_count(sv.subrange(i as int, j as int)) == dots + dot_count(
                        sv.subrange(k as int, j as int),
                    ),
                decreases j - k,
            {
                proof {
                    let cur = sv.subrange(k as int, j as int);
                    assert(cur[0] == sv[k as int]);
                    assert(cur.skip(1) =~= sv.subrange(k as int + 1, j as int));
                }
                if text.get_char(k) == '.' {
                    dots = dots + 1;
                }
                k = k + 1;
            }
            proof {
                assert(sv.subrange(j as int, j as int) =~= Seq::<char>::empty());
                assert(dot_count(sv.subrange(i as int, j as int)) == dots);
                assert(suf.take(j - i) =~= sv.subrange(i as int, j as int));
                assert(suf.skip(j - i) =~= sv.skip(j as int));
            }
            if dots > 1 {
                return false;
            }
            i = j;
        } else if alpha_char(c) {
            let j = scan_ident_run(text, n, i);
            proof {
                assert forall|k: int| 0 <= k < j - i implies is_alpha(suf[k]) by {
                    assert(suf[k] == sv[k + i]);
                }
                assert(j == n || !is_alpha(suf[j - i])) by {
                    if j < n {
                        assert(suf[j - i] == sv[j as int]);
                    }
                }
                lemma_ident_run_len_is(suf, (j - i) as nat);
                assert(suf.skip(j - i) =~= sv.skip(j as int));
            }
            i = j;
        } else {
            proof {
                assert(suf.skip(1) =~= sv.skip(i as int + 1));
            }
            i = i + 1;
        }
    }
    proof {
        assert(text@.skip(n as int).len() == 0);
    }
    true
}

} // verus!
