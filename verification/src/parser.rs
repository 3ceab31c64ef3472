//! The tokenizer and reader: source text becomes tokens under a
//! longest-match rule, and tokens become data trees with quotation
//! tracking; a quoted list is data and gets the empty-list terminator.

use vstd::prelude::*;
use crate::data::Data;
use crate::data::DataType;
use crate::data::DV;
use crate::data::dv;
use crate::data::leaf_dv;
use crate::data::null_dv;
use crate::data::null_sym;
use crate::data::dv_seq;
use crate::data::lemma_dv_seq;
use crate::data::ql_next;
use crate::digits::is_digit;

verus! {

#[derive(Debug, PartialEq)]
pub enum Token {
    Int(String),
    Real(String),
    Identifier(String),
    Str(String),
    OpenBracket,
    CloseBracket,
    Quote,
    Skip,
    Error,
}

/// The ghost shape of a token.
pub enum TV {
    IntTok(Seq<char>),
    RealTok(Seq<char>),
    IdentTok(Seq<char>),
    StrTok(Seq<char>),
    OpenTok,
    CloseTok,
    QuoteTok,
    SkipTok,
    ErrorTok,
}

impl View for Token {
    type V = TV;

    open spec fn view(&self) -> TV {
        match self {
            Token::Int(s) => TV::IntTok(s@),
            Token::Real(s) => TV::RealTok(s@),
            Token::Identifier(s) => TV::IdentTok(s@),
            Token::Str(s) => TV::StrTok(s@),
            Token::OpenBracket => TV::OpenTok,
            Token::CloseBracket => TV::CloseTok,
            Token::Quote => TV::QuoteTok,
            Token::Skip => TV::SkipTok,
            Token::Error => TV::ErrorTok,
        }
    }
}

/// The symbol characters an identifier may carry besides letters and
/// digits.
pub open spec fn is_schar(c: char) -> bool {
    ||| c == '*'
    ||| c == '<'
    ||| c == '='
    ||| c == '>'
    ||| c == '!'
    ||| c == '?'
    ||| c == ':'
    ||| c == '$'
    ||| c == '%'
    ||| c == '_'
    ||| c == '&'
    ||| c == '~'
    ||| c == '^'
    ||| c == '+'
    ||| c == '-'
    ||| c == '.'
    ||| c == '/'
}

pub open spec fn is_letter(c: char) -> bool {
    (97 <= c as u32 <= 122) || (65 <= c as u32 <= 90)
}

pub open spec fn is_sd(c: char) -> bool {
    is_schar(c) || is_letter(c) || is_digit(c)
}

/// The white space the tokenizer discards.
pub open spec fn is_skip_char(c: char) -> bool {
    c == ' ' || c == '\t' || c == '\r' || c == '\n' || c == '\u{c}'
}

/// The length of the run of characters satisfying `p` from position `i`.
pub open spec fn char_run(t: Seq<char>, i: int, p: spec_fn(char) -> bool) -> int
    decreases t.len() - i,
{
    if 0 <= i < t.len() && p(t[i]) {
        1 + char_run(t, i + 1, p)
    } else {
        0
    }
}

/// How far an integer literal reaches from position `i` (zero: none does).
pub open spec fn len_int(t: Seq<char>, i: int) -> int {
    let j = if 0 <= i < t.len() && (t[i] == '+' || t[i] == '-') {
        i + 1
    } else {
        i
    };
    let d = char_run(t, j, |c: char| is_digit(c));
    if d > 0 {
        (j - i) + d
    } else {
        0
    }
}

/// How far a real literal reaches from position `i` (zero: none does).
pub open spec fn len_real(t: Seq<char>, i: int) -> int {
    let j = if 0 <= i < t.len() && (t[i] == '+' || t[i] == '-') {
        i + 1
    } else {
        i
    };
    let a = char_run(t, j, |c: char| is_digit(c));
    let k = j + a;
    if 0 <= k < t.len() && t[k] == '.' {
        let b = char_run(t, k + 1, |c: char| is_digit(c));
        if a > 0 || b > 0 {
            (j - i) + a + 1 + b
        } else {
            0
        }
    } else {
        0
    }
}

/// The longest identifier prefix from `i` that starts with a digit: all
/// symbol-or-digit characters, ending on a symbol or letter.
pub open spec fn len_ident_digit(t: Seq<char>, i: int) -> int
    decreases t.len() - i,
{
    if !(0 <= i < t.len() && is_sd(t[i])) {
        0
    } else {
        let rest = len_ident_digit(t, i + 1);
        if rest > 0 {
            1 + rest
        } else if is_schar(t[i]) || is_letter(t[i]) {
            1
        } else {
            0
        }
    }
}

/// How far an identifier reaches from position `i`: a run led by a symbol
/// or letter, a digit-led run ending on one, or a hash form.
pub open spec fn len_ident(t: Seq<char>, i: int) -> int {
    let a = if 0 <= i < t.len() && (is_schar(t[i]) || is_letter(t[i])) {
        char_run(t, i, |c: char| is_sd(c))
    } else {
        0
    };
    let b = if 0 <= i < t.len() && is_digit(t[i]) {
        len_ident_digit(t, i)
    } else {
        0
    };
    let c = if 0 <= i < t.len() && t[i] == '#' {
        let q = char_run(t, i + 1, |ch: char| ch == '\'');
        1 + q + char_run(t, i + 1 + q, |ch: char| is_letter(ch))
    } else {
        0
    };
    let ab = if a >= b {
        a
    } else {
        b
    };
    if ab >= c {
        ab
    } else {
        c
    }
}

/// Where the closing quote of a string literal opened before `j` sits,
/// or minus one.
pub open spec fn close_quote(t: Seq<char>, j: int) -> int
    decreases t.len() - j,
{
    if j < 0 || j >= t.len() {
        -1
    } else if t[j] == '"' {
        j
    } else {
        close_quote(t, j + 1)
    }
}

/// How far a string literal reaches from position `i` (zero: none does).
pub open spec fn len_string(t: Seq<char>, i: int) -> int {
    if 0 <= i < t.len() && t[i] == '"' {
        let c = close_quote(t, i + 1);
        if c >= 0 {
            c - i + 1
        } else {
            0
        }
    } else {
        0
    }
}

/// The tokens of the text from position `i` on: at each step the longest
/// match wins, ties go to the earlier kind in the order integer, real,
/// identifier, string, brackets, quote mark, white space (discarded); a
/// character no rule accepts yields one error token.
pub open spec fn spec_lex(t: Seq<char>, i: int) -> Seq<TV>
    decreases t.len() - i,
{
    if i < 0 || i >= t.len() {
        Seq::empty()
    } else {
        let li = len_int(t, i);
        let lr = len_real(t, i);
        let lid = len_ident(t, i);
        let ls = len_string(t, i);
        let lo: int = if t[i] == '(' {
            1
        } else {
            0
        };
        let lc: int = if t[i] == ')' {
            1
        } else {
            0
        };
        let lq: int = if t[i] == '\'' {
            1
        } else {
            0
        };
        let lsk = char_run(t, i, |c: char| is_skip_char(c));
        let m = max9(li, lr, lid, ls, lo, lc, lq, lsk);
        let j: int = if i + m > t.len() {
            t.len() as int
        } else if m <= 0 {
            i + 1
        } else {
            i + m
        };
        if m <= 0 {
            seq![TV::ErrorTok] + spec_lex(t, i + 1)
        } else if li == m {
            seq![TV::IntTok(t.subrange(i, j))] + spec_lex(t, j)
        } else if lr == m {
            seq![TV::RealTok(t.subrange(i, j))] + spec_lex(t, j)
        } else if lid == m {
            seq![TV::IdentTok(t.subrange(i, j))] + spec_lex(t, j)
        } else if ls == m {
            seq![TV::StrTok(t.subrange(i, j))] + spec_lex(t, j)
        } else if lo == m {
            seq![TV::OpenTok] + spec_lex(t, i + 1)
        } else if lc == m {
            seq![TV::CloseTok] + spec_lex(t, i + 1)
        } else if lq == m {
            seq![TV::QuoteTok] + spec_lex(t, i + 1)
        } else {
            spec_lex(t, j)
        }
    }
}

pub open spec fn max9(a: int, b: int, c: int, d: int, e: int, f: int, g: int, h: int) -> int {
    let x1 = if a >= b {
        a
    } else {
        b
    };
    let x2 = if x1 >= c {
        x1
    } else {
        c
    };
    let x3 = if x2 >= d {
        x2
    } else {
        d
    };
    let x4 = if x3 >= e {
        x3
    } else {
        e
    };
    let x5 = if x4 >= f {
        x4
    } else {
        f
    };
    let x6 = if x5 >= g {
        x5
    } else {
        g
    };
    if x6 >= h {
        x6
    } else {
        h
    }
}

fn is_schar_c(c: char) -> (r: bool)
    ensures
        r == is_schar(c),
{
    c == '*' || c == '<' || c == '=' || c == '>' || c == '!' || c == '?' || c == ':' || c
        == '$' || c == '%' || c == '_' || c == '&' || c == '~' || c == '^' || c == '+' || c
        == '-' || c == '.' || c == '/'
}

fn is_letter_c(c: char) -> (r: bool)
    ensures
        r == is_letter(c),
{
    let u = c as u32;
    (97 <= u && u <= 122) || (65 <= u && u <= 90)
}

fn is_digit_c(c: char) -> (r: bool)
    ensures
        r == is_digit(c),
{
    let u = c as u32;
    48 <= u && u <= 57
}

fn is_sd_c(c: char) -> (r: bool)
    ensures
        r == is_sd(c),
{
    is_schar_c(c) || is_letter_c(c) || is_digit_c(c)
}

fn is_skip_c(c: char) -> (r: bool)
    ensures
        r == is_skip_char(c),
{
    c == ' ' || c == '\t' || c == '\r' || c == '\n' || c == '\u{c}'
}

/// A run length under a class whose spec closure is handed in by the
/// call sites through the ensured equation.
pub proof fn lemma_char_run(t: Seq<char>, i: int, j: int, p: spec_fn(char) -> bool)
    requires
        0 <= i <= j <= t.len(),
        forall|k: int| i <= k < j ==> p(#[trigger] t[k]),
        j == t.len() || !p(t[j]),
    ensures
        char_run(t, i, p) == j - i,
    decreases j - i,
{
    if i < j {
        lemma_char_run(t, i + 1, j, p);
    }
}

/// Every character within the run satisfies the class.
proof fn lemma_char_run_members(t: Seq<char>, i: int, p: spec_fn(char) -> bool)
    requires
        0 <= i,
    ensures
        forall|k: int| i <= k < i + char_run(t, i, p) ==> p(#[trigger] t[k]),
    decreases t.len() - i,
{
    if 0 <= i < t.len() && p(t[i]) {
        lemma_char_run_members(t, i + 1, p);
    }
}

fn digit_run(s: &str, i: usize) -> (r: usize)
    requires
        i <= s@.len(),
    ensures
        r == char_run(s@, i as int, |c: char| is_digit(c)),
        i + r <= s@.len(),
    decreases s@.len() - i,
{
    let n = s.unicode_len();
    let mut j = i;
    while j < n && is_digit_c(s.get_char(j))
        invariant
            i <= j <= n,
            n == s@.len(),
            forall|k: int| i <= k < j ==> is_digit(#[trigger] s@[k]),
        decreases n - j,
    {
        j += 1;
    }
    proof {
        lemma_char_run(s@, i as int, j as int, |c: char| is_digit(c));
    }
    j - i
}

fn sd_run(s: &str, i: usize) -> (r: usize)
    requires
        i <= s@.len(),
    ensures
        r == char_run(s@, i as int, |c: char| is_sd(c)),
        i + r <= s@.len(),
        i + r == s@.len() || !is_sd(s@[i + r]),
    decreases s@.len() - i,
{
    let n = s.unicode_len();
    let mut j = i;
    while j < n && is_sd_c(s.get_char(j))
        invariant
            i <= j <= n,
            n == s@.len(),
            forall|k: int| i <= k < j ==> is_sd(#[trigger] s@[k]),
        decreases n - j,
    {
        j += 1;
    }
    proof {
        lemma_char_run(s@, i as int, j as int, |c: char| is_sd(c));
    }
    j - i
}

fn letter_run(s: &str, i: usize) -> (r: usize)
    requires
        i <= s@.len(),
    ensures
        r == char_run(s@, i as int, |c: char| is_letter(c)),
        i + r <= s@.len(),
{
    let n = s.unicode_len();
    let mut j = i;
    while j < n && is_letter_c(s.get_char(j))
        invariant
            i <= j <= n,
            n == s@.len(),
            forall|k: int| i <= k < j ==> is_letter(#[trigger] s@[k]),
        decreases n - j,
    {
        j += 1;
    }
    proof {
        lemma_char_run(s@, i as int, j as int, |c: char| is_letter(c));
    }
    j - i
}

fn quote_run(s: &str, i: usize) -> (r: usize)
    requires
        i <= s@.len(),
    ensures
        r == char_run(s@, i as int, |c: char| c == '\u{27}'),
        i + r <= s@.len(),
{
    let n = s.unicode_len();
    let mut j = i;
    while j < n && s.get_char(j) == '\''
        invariant
            i <= j <= n,
            n == s@.len(),
            forall|k: int| i <= k < j ==> #[trigger] s@[k] == '\u{27}',
        decreases n - j,
    {
        j += 1;
    }
    proof {
        lemma_char_run(s@, i as int, j as int, |c: char| c == '\u{27}');
    }
    j - i
}

fn skip_run(s: &str, i: usize) -> (r: usize)
    requires
        i <= s@.len(),
    ensures
        r == char_run(s@, i as int, |c: char| is_skip_char(c)),
        i + r <= s@.len(),
{
    let n = s.unicode_len();
    let mut j = i;
    while j < n && is_skip_c(s.get_char(j))
        invariant
            i <= j <= n,
            n == s@.len(),
            forall|k: int| i <= k < j ==> is_skip_char(#[trigger] s@[k]),
        decreases n - j,
    {
        j += 1;
    }
    proof {
        lemma_char_run(s@, i as int, j as int, |c: char| is_skip_char(c));
    }
    j - i
}

fn exec_len_int(s: &str, i: usize) -> (r: usize)
    requires
        i <= s@.len(),
    ensures
        r == len_int(s@, i as int),
        i + r <= s@.len(),
{
    let n = s.unicode_len();
    if i >= n {
        proof {
            assert(char_run(s@, i as int, |c: char| is_digit(c)) == 0);
        }
        return 0;
    }
    let c = s.get_char(i);
    let j: usize = if c == '+' || c == '-' {
        i + 1
    } else {
        i
    };
    let d = digit_run(s, j);
    if d > 0 {
        (j - i) + d
    } else {
        0
    }
}

fn exec_len_real(s: &str, i: usize) -> (r: usize)
    requires
        i <= s@.len(),
    ensures
        r == len_real(s@, i as int),
        i + r <= s@.len(),
{
    let n = s.unicode_len();
    if i >= n {
        return 0;
    }
    let c = s.get_char(i);
    let j: usize = if c == '+' || c == '-' {
        i + 1
    } else {
        i
    };
    let a = digit_run(s, j);
    let k = j + a;
    if k < n && s.get_char(k) == '.' {
        let b = digit_run(s, k + 1);
        if a > 0 || b > 0 {
            (j - i) + a + 1 + b
        } else {
            0
        }
    } else {
        0
    }
}

fn exec_len_ident_digit(s: &str, i: usize) -> (r: usize)
    requires
        i <= s@.len(),
    ensures
        r == len_ident_digit(s@, i as int),
        i + r <= s@.len(),
{
    let n = s.unicode_len();
    let run = sd_run(s, i);
    let end: usize = i + run;
    let mut k = end;
    let mut v: usize = 0;
    proof {
        lemma_char_run_members(s@, i as int, |c: char| is_sd(c));
        if end < s@.len() {
            assert(!is_sd(s@[end as int]));
        }
        assert(len_ident_digit(s@, end as int) == 0);
    }
    while k > i
        invariant
            i <= k <= end,
            end == i + run,
            end <= s@.len(),
            run == char_run(s@, i as int, |c: char| is_sd(c)),
            v == len_ident_digit(s@, k as int),
            v <= end - k,
        decreases k,
    {
        proof {
            lemma_char_run_members(s@, i as int, |c: char| is_sd(c));
            assert(is_sd(s@[k - 1]));
        }
        k -= 1;
        let c = s.get_char(k);
        if v > 0 {
            v += 1;
        } else if is_schar_c(c) || is_letter_c(c) {
            v = 1;
        } else {
            v = 0;
        }
    }
    v
}

fn exec_len_ident(s: &str, i: usize) -> (r: usize)
    requires
        i <= s@.len(),
    ensures
        r == len_ident(s@, i as int),
        i + r <= s@.len(),
{
    let n = s.unicode_len();
    if i >= n {
        return 0;
    }
    let ch = s.get_char(i);
    let a: usize = if is_schar_c(ch) || is_letter_c(ch) {
        sd_run(s, i)
    } else {
        0
    };
    let b: usize = if is_digit_c(ch) {
        exec_len_ident_digit(s, i)
    } else {
        0
    };
    let c: usize = if ch == '#' {
        let q = quote_run(s, i + 1);
        let l = letter_run(s, i + 1 + q);
        1 + q + l
    } else {
        0
    };
    let ab = if a >= b {
        a
    } else {
        b
    };
    if ab >= c {
        ab
    } else {
        c
    }
}

fn exec_len_string(s: &str, i: usize) -> (r: usize)
    requires
        i <= s@.len(),
    ensures
        r == len_string(s@, i as int),
        i + r <= s@.len(),
{
    let n = s.unicode_len();
    if i >= n || s.get_char(i) != '"' {
        return 0;
    }
    let mut j = i + 1;
    while j < n && s.get_char(j) != '"'
        invariant
            i + 1 <= j <= n,
            n == s@.len(),
            forall|k: int| i + 1 <= k < j ==> #[trigger] s@[k] != '"',
        decreases n - j,
    {
        j += 1;
    }
    proof {
        lemma_close_quote(s@, i + 1, j as int);
    }
    if j < n {
        j - i + 1
    } else {
        0
    }
}

proof fn lemma_close_quote(t: Seq<char>, i: int, j: int)
    requires
        0 <= i <= j <= t.len(),
        forall|k: int| i <= k < j ==> #[trigger] t[k] != '"',
    ensures
        close_quote(t, i) == if j < t.len() && t[j] == '"' {
            j
        } else if j == t.len() {
            -1
        } else {
            close_quote(t, j)
        },
    decreases j - i,
{
    if i < j {
        lemma_close_quote(t, i + 1, j);
    }
}

/// Turns the whole text into tokens, as the spec function says.
pub fn lex_text(s: &str) -> (toks: Vec<Token>)
    ensures
        toks.deep_view() == spec_lex(s@, 0),
{
    lex_from(s, 0)
}

impl DeepView for Token {
    type V = TV;

    open spec fn deep_view(&self) -> TV {
        self@
    }
}

fn lex_from(s: &str, i: usize) -> (toks: Vec<Token>)
    requires
        i <= s@.len(),
    ensures
        toks.deep_view() == spec_lex(s@, i as int),
    decreases s@.len() - i,
{
    let n = s.unicode_len();
    if i >= n {
        let out: Vec<Token> = Vec::new();
        proof {
            assert(out.deep_view() =~~= spec_lex(s@, i as int));
        }
        return out;
    }
    let li = exec_len_int(s, i);
    let lr = exec_len_real(s, i);
    let lid = exec_len_ident(s, i);
    let ls = exec_len_string(s, i);
    let ch = s.get_char(i);
    let lo: usize = if ch == '(' {
        1
    } else {
        0
    };
    let lc: usize = if ch == ')' {
        1
    } else {
        0
    };
    let lq: usize = if ch == '\'' {
        1
    } else {
        0
    };
    let lsk = skip_run(s, i);
    let mut m = li;
    if lr > m {
        m = lr;
    }
    if lid > m {
        m = lid;
    }
    if ls > m {
        m = ls;
    }
    if lo > m {
        m = lo;
    }
    if lc > m {
        m = lc;
    }
    if lq > m {
        m = lq;
    }
    if lsk > m {
        m = lsk;
    }
    proof {
        assert(m as int == max9(
            li as int,
            lr as int,
            lid as int,
            ls as int,
            lo as int,
            lc as int,
            lq as int,
            lsk as int,
        ));
    }
    if m == 0 {
        let mut rest = lex_from(s, i + 1);
        rest.insert(0, Token::Error);
        proof {
            assert(rest.deep_view() =~~= seq![TV::ErrorTok] + spec_lex(s@, i + 1));
        }
        rest
    } else if li == m {
        let piece = String::from_str(s.substring_char(i, i + m));
        let mut rest = lex_from(s, i + m);
        rest.insert(0, Token::Int(piece));
        proof {
            assert(rest.deep_view() =~~= seq![TV::IntTok(s@.subrange(i as int, i + m))]
                + spec_lex(s@, i + m));
        }
        rest
    } else if lr == m {
        let piece = String::from_str(s.substring_char(i, i + m));
        let mut rest = lex_from(s, i + m);
        rest.insert(0, Token::Real(piece));
        proof {
            assert(rest.deep_view() =~~= seq![TV::RealTok(s@.subrange(i as int, i + m))]
                + spec_lex(s@, i + m));
        }
        rest
    } else if lid == m {
        let piece = String::from_str(s.substring_char(i, i + m));
        let mut rest = lex_from(s, i + m);
        rest.insert(0, Token::Identifier(piece));
        proof {
            assert(rest.deep_view() =~~= seq![TV::IdentTok(s@.subrange(i as int, i + m))]
                + spec_lex(s@, i + m));
        }
        rest
    } else if ls == m {
        let piece = String::from_str(s.substring_char(i, i + m));
        let mut rest = lex_from(s, i + m);
        rest.insert(0, Token::Str(piece));
        proof {
            assert(rest.deep_view() =~~= seq![TV::StrTok(s@.subrange(i as int, i + m))]
                + spec_lex(s@, i + m));
        }
        rest
    } else if lo == m {
        let mut rest = lex_from(s, i + 1);
        rest.insert(0, Token::OpenBracket);
        proof {
            assert(rest.deep_view() =~~= seq![TV::OpenTok] + spec_lex(s@, i + 1));
        }
        rest
    } else if lc == m {
        let mut rest = lex_from(s, i + 1);
        rest.insert(0, Token::CloseBracket);
        proof {
            assert(rest.deep_view() =~~= seq![TV::CloseTok] + spec_lex(s@, i + 1));
        }
        rest
    } else if lq == m {
        let mut rest = lex_from(s, i + 1);
        rest.insert(0, Token::Quote);
        proof {
            assert(rest.deep_view() =~~= seq![TV::QuoteTok] + spec_lex(s@, i + 1));
        }
        rest
    } else {
        lex_from(s, i + m)
    }
}


/// The report written for a closing bracket with no open one.
pub open spec fn diag_unexpected_close() -> Seq<char> {
    "read-syntax: unexpected `)`\n"@
}

/// The report written when the tokens end before a bracket is closed.
pub open spec fn diag_unclosed() -> Seq<char> {
    "read-syntax: expected a `)` to close `(`\n"@
}

/// The report written for a lexeme no rule accepts.
pub open spec fn diag_unknown_lexeme() -> Seq<char> {
    "an unknown error occurred while parsing...\n"@
}

/// What reading one form from the tokens at `idx` gives back: the index
/// of the last token the form used, the datum — or nothing on a read
/// error (an unexpected or missing closing bracket, or an error token) —
/// and the diagnostic text written while reading (empty on success and at
/// a plain end of the tokens).
pub open spec fn spec_parse(toks: Seq<TV>, idx: int, ql: u16) -> (int, Option<DV>, Seq<char>)
    decreases toks.len() - idx, 0int,
{
    if idx < 0 || idx >= toks.len() {
        (idx, None::<DV>, Seq::empty())
    } else {
        match toks[idx] {
            TV::IntTok(s) => (idx, Some(leaf_dv(DataType::Integer, s, ql)), Seq::empty()),
            TV::RealTok(s) => (idx, Some(leaf_dv(DataType::Real, s, ql)), Seq::empty()),
            TV::IdentTok(s) => (
                idx,
                Some(
                    leaf_dv(
                        if ql == 0 {
                            DataType::Variable
                        } else {
                            DataType::Symbol
                        },
                        s,
                        ql,
                    ),
                ),
                Seq::empty(),
            ),
            TV::StrTok(s) => (idx, Some(leaf_dv(DataType::Symbol, s, ql)), Seq::empty()),
            TV::QuoteTok => spec_parse(toks, idx + 1, ql_next(ql)),
            TV::OpenTok => spec_parse_list(toks, idx + 1, ql, Seq::empty()),
            TV::CloseTok => (idx, None::<DV>, diag_unexpected_close()),
            TV::ErrorTok => (idx, None::<DV>, diag_unknown_lexeme()),
            TV::SkipTok => (idx, None::<DV>, Seq::empty()),
        }
    }
}

/// Reading the members of an open list: child forms at the same depth
/// until the closing bracket. A quoted list comes back as symbol-kind
/// data with the empty-list terminator appended; an empty quoted list at
/// depth one collapses to the empty-list value itself.
pub open spec fn spec_parse_list(toks: Seq<TV>, j: int, ql: u16, acc: Seq<DV>) -> (
    int,
    Option<DV>,
    Seq<char>,
)
    decreases toks.len() - j, 1int,
{
    if j < 0 || j >= toks.len() {
        (j, None::<DV>, diag_unclosed())
    } else if toks[j] is CloseTok {
        if ql == 1 && acc.len() == 0 {
            (j, Some(null_dv()), Seq::empty())
        } else {
            let items = if ql > 0 && acc.len() > 0 {
                acc.push(null_dv())
            } else {
                acc
            };
            (
                j,
                Some(
                    DV {
                        kind: if ql > 0 {
                            DataType::Symbol
                        } else {
                            DataType::List
                        },
                        text: Seq::empty(),
                        items,
                        native: None,
                        ql: if ql > 0 {
                            ql
                        } else {
                            0
                        },
                        scope: None,
                    },
                ),
                Seq::empty(),
            )
        }
    } else {
        let sub = spec_parse(toks, j, ql);
        match sub.1 {
            None => (sub.0, None::<DV>, sub.2),
            Some(d) => {
                if sub.0 >= toks.len() {
                    (sub.0, None::<DV>, sub.2)
                } else {
                    let j2 = if sub.0 + 1 > j + 1 {
                        sub.0 + 1
                    } else {
                        j + 1
                    };
                    let rest = spec_parse_list(toks, j2, ql, acc.push(d));
                    (rest.0, rest.1, sub.2 + rest.2)
                }
            },
        }
    }
}

/// Reading never moves the cursor backwards.
pub proof fn lemma_parse_monotone(toks: Seq<TV>, idx: int, ql: u16)
    ensures
        spec_parse(toks, idx, ql).0 >= idx,
    decreases toks.len() - idx, 0int,
{
    if 0 <= idx < toks.len() {
        match toks[idx] {
            TV::QuoteTok => lemma_parse_monotone(toks, idx + 1, ql_next(ql)),
            TV::OpenTok => lemma_parse_list_monotone(toks, idx + 1, ql, Seq::empty()),
            _ => {},
        }
    }
}

pub proof fn lemma_parse_list_monotone(toks: Seq<TV>, j: int, ql: u16, acc: Seq<DV>)
    ensures
        spec_parse_list(toks, j, ql, acc).0 >= j,
    decreases toks.len() - j, 1int,
{
    if 0 <= j < toks.len() && !(toks[j] is CloseTok) {
        lemma_parse_monotone(toks, j, ql);
        let sub = spec_parse(toks, j, ql);
        if sub.1 is Some && sub.0 < toks.len() {
            let j2 = if sub.0 + 1 > j + 1 {
                sub.0 + 1
            } else {
                j + 1
            };
            lemma_parse_list_monotone(toks, j2, ql, acc.push(sub.1.unwrap()));
        }
    }
}

/// A restartable reader over the tokens of the most recently loaded
/// text; read-syntax diagnostics collect in its output text until the
/// driver drains them.
pub struct Parser {
    tokens_arr: Vec<Token>,
    index: usize,
    output: String,
}

impl Parser {
    /// The loaded tokens.
    pub closed spec fn toks(&self) -> Seq<TV> {
        self.tokens_arr.deep_view()
    }

    /// The read position.
    pub closed spec fn pos(&self) -> int {
        self.index as int
    }

    /// The diagnostics written so far.
    pub closed spec fn outv(&self) -> Seq<char> {
        self.output@
    }

    pub fn new() -> (res: Parser)
        ensures
            res.toks() == Seq::<TV>::empty(),
            res.pos() == 0,
            res.outv() == Seq::<char>::empty(),
    {
        let res = Parser { tokens_arr: Vec::new(), index: 0, output: String::new() };
        proof {
            assert(res.toks() =~~= Seq::<TV>::empty());
        }
        res
    }

    /// Replaces the token sequence with the text's tokens, restarts, and
    /// clears the diagnostics.
    pub fn load(&mut self, input_str: &str)
        ensures
            final(self).toks() == spec_lex(input_str@, 0),
            final(self).pos() == 0,
            final(self).outv() == Seq::<char>::empty(),
    {
        self.tokens_arr = lex_text(input_str);
        self.index = 0;
        self.output = String::new();
    }

    /// Hands the written diagnostics over and clears them; the tokens and
    /// the read position stay.
    pub fn take_output(&mut self) -> (res: String)
        ensures
            res@ == old(self).outv(),
            final(self).toks() == old(self).toks(),
            final(self).pos() == old(self).pos(),
            final(self).outv() == Seq::<char>::empty(),
    {
        let mut out = String::new();
        out.append(self.output.as_str());
        self.output = String::new();
        out
    }

    /// Appends a diagnostic to the output.
    fn note(&mut self, text: &str)
        ensures
            final(self).outv() == old(self).outv() + text@,
            final(self).toks() == old(self).toks(),
            final(self).pos() == old(self).pos(),
    {
        self.output.append(text);
    }

    fn parse_next(&mut self, quote_level: u16) -> (res: Option<Data>)
        ensures
            final(self).toks() == old(self).toks(),
            final(self).pos() == spec_parse(old(self).toks(), old(self).pos(), quote_level).0,
            final(self).outv() == old(self).outv() + spec_parse(
                old(self).toks(),
                old(self).pos(),
                quote_level,
            ).2,
            match (res, spec_parse(old(self).toks(), old(self).pos(), quote_level).1) {
                (Some(d), Some(v)) => d@ == v,
                (None, None) => true,
                _ => false,
            },
        decreases old(self).toks().len() - old(self).pos(), 0int,
    {
        proof {
            assert(old(self).outv() + Seq::<char>::empty() =~= old(self).outv());
        }
        if self.index >= self.tokens_arr.len() {
            return None;
        }
        let tok_kind: usize;
        {
            let t = &self.tokens_arr[self.index];
            tok_kind = match t {
                Token::Int(_) => 0,
                Token::Real(_) => 1,
                Token::Identifier(_) => 2,
                Token::Str(_) => 3,
                Token::Quote => 4,
                Token::OpenBracket => 5,
                Token::CloseBracket => 6,
                Token::Error => 7,
                Token::Skip => 8,
            };
        }
        if tok_kind == 0 {
            let text = match &self.tokens_arr[self.index] {
                Token::Int(s) => s.clone(),
                _ => String::new(),
            };
            Some(Data::from_string_quoted(DataType::Integer, text, quote_level))
        } else if tok_kind == 1 {
            let text = match &self.tokens_arr[self.index] {
                Token::Real(s) => s.clone(),
                _ => String::new(),
            };
            Some(Data::from_string_quoted(DataType::Real, text, quote_level))
        } else if tok_kind == 2 {
            let text = match &self.tokens_arr[self.index] {
                Token::Identifier(s) => s.clone(),
                _ => String::new(),
            };
            let kind = if quote_level == 0 {
                DataType::Variable
            } else {
                DataType::Symbol
            };
            Some(Data::from_string_quoted(kind, text, quote_level))
        } else if tok_kind == 3 {
            let text = match &self.tokens_arr[self.index] {
                Token::Str(s) => s.clone(),
                _ => String::new(),
            };
            Some(Data::from_string_quoted(DataType::Symbol, text, quote_level))
        } else if tok_kind == 4 {
            self.index += 1;
            let deeper = if quote_level == 65535 {
                quote_level
            } else {
                quote_level + 1
            };
            self.parse_next(deeper)
        } else if tok_kind == 5 {
            self.index += 1;
            self.parse_list(quote_level, Vec::new())
        } else if tok_kind == 6 {
            self.note("read-syntax: unexpected `)`\n");
            None
        } else if tok_kind == 7 {
            self.note("an unknown error occurred while parsing...\n");
            None
        } else {
            None
        }
    }

    fn parse_list(&mut self, quote_level: u16, acc: Vec<Data>) -> (res: Option<Data>)
        ensures
            final(self).toks() == old(self).toks(),
            final(self).pos() == spec_parse_list(
                old(self).toks(),
                old(self).pos(),
                quote_level,
                dv_seq(acc@),
            ).0,
            final(self).outv() == old(self).outv() + spec_parse_list(
                old(self).toks(),
                old(self).pos(),
                quote_level,
                dv_seq(acc@),
            ).2,
            match (res, spec_parse_list(
                old(self).toks(),
                old(self).pos(),
                quote_level,
                dv_seq(acc@),
            ).1) {
                (Some(d), Some(v)) => d@ == v,
                (None, None) => true,
                _ => false,
            },
        decreases old(self).toks().len() - old(self).pos(), 1int,
    {
        proof {
            assert(old(self).outv() + Seq::<char>::empty() =~= old(self).outv());
        }
        let mut acc = acc;
        if self.index >= self.tokens_arr.len() {
            self.note("read-syntax: expected a `)` to close `(`\n");
            return None;
        }
        let is_close = match &self.tokens_arr[self.index] {
            Token::CloseBracket => true,
            _ => false,
        };
        if is_close {
            if quote_level == 1 && acc.len() == 0 {
                Some(null_sym())
            } else {
                if quote_level > 0 && acc.len() > 0 {
                    let ghost pre = acc@;
                    acc.push(null_sym());
                    proof {
                        lemma_dv_seq_push(pre, acc@);
                    }
                }
                let res = Data {
                    list: acc,
                    string: String::new(),
                    native: None,
                    data_type: if quote_level > 0 {
                        DataType::Symbol
                    } else {
                        DataType::List
                    },
                    quote_level: if quote_level > 0 {
                        quote_level
                    } else {
                        0
                    },
                    scope: None,
                };
                proof {
                    assert(res@.text =~= Seq::<char>::empty());
                }
                Some(res)
            }
        } else {
            let ghost pre_pos = self.pos();
            let sub = self.parse_next(quote_level);
            proof {
                lemma_parse_monotone(old(self).toks(), pre_pos, quote_level);
            }
            match sub {
                None => None,
                Some(d) => {
                    if self.index >= self.tokens_arr.len() {
                        None
                    } else {
                        self.index += 1;
                        let ghost pre = acc@;
                        acc.push(d);
                        proof {
                            lemma_dv_seq_push(pre, acc@);
                        }
                        self.parse_list(quote_level, acc)
                    }
                },
            }
        }
    }

    /// The next top-level form, or nothing at the end of the tokens or on
    /// a read error (then a read-syntax diagnostic is written); the cursor
    /// moves past what was consumed.
    pub fn next(&mut self) -> (res: Option<Data>)
        ensures
            final(self).toks() == old(self).toks(),
            ({
                let (i2, r, t) = spec_parse(old(self).toks(), old(self).pos(), 0);
                &&& final(self).pos() == (if i2 <= old(self).toks().len() && i2
                    < usize::MAX {
                    i2 + 1
                } else {
                    i2
                })
                &&& final(self).outv() == old(self).outv() + t
                &&& match (res, r) {
                    (Some(d), Some(v)) => d@ == v,
                    (None, None) => true,
                    _ => false,
                }
            }),
    {
        let res = self.parse_next(0);
        proof {
            lemma_parse_monotone(old(self).toks(), old(self).pos(), 0);
        }
        if self.index <= self.tokens_arr.len() && self.index < usize::MAX {
            self.index += 1;
        }
        res
    }
}

/// Pushing one datum mirrors as pushing its ghost shape.
pub proof fn lemma_dv_seq_push(pre: Seq<Data>, post: Seq<Data>)
    requires
        post == pre.push(post.last()),
        post.len() == pre.len() + 1,
    ensures
        dv_seq(post) == dv_seq(pre).push(dv(post.last())),
{
    lemma_dv_seq(pre);
    lemma_dv_seq(post);
    assert forall|k: int| 0 <= k < post.len() implies #[trigger] dv_seq(post)[k] == dv_seq(
        pre,
    ).push(dv(post.last()))[k] by {
        assert(dv_seq(post)[k] == dv(post[k]));
        if k < pre.len() {
            assert(post[k] == pre[k]);
            assert(dv_seq(pre).push(dv(post.last()))[k] == dv_seq(pre)[k]);
            assert(dv_seq(pre)[k] == dv(pre[k]));
        } else {
            assert(post[k] == post.last());
        }
    }
    assert(dv_seq(post) =~= dv_seq(pre).push(dv(post.last())));
}

} // verus!
