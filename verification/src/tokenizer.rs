use vstd::prelude::*;

verus! {

/// A lexical token of the language.
#[derive(PartialEq, Debug)]
pub enum Token {
    Name(String),
    /// A numeric literal, kept as the text it was written with: one or more
    /// digits, optionally followed by `e` or `E` and one or more digits.
    NumberLiteral(String),
    Type,
    Let,
    Match,
    Bar,
    SemiColon,
    Colon,
    Equals,
    Minus,
    RAngle,
    Comma,
    LParens,
    RParens,
    LBrace,
    RBrace,
}

/// The mathematical value of a token: names and literals as character sequences.
pub enum SpecToken {
    Name(Seq<char>),
    NumberLiteral(Seq<char>),
    Type,
    Let,
    Match,
    Bar,
    SemiColon,
    Colon,
    Equals,
    Minus,
    RAngle,
    Comma,
    LParens,
    RParens,
    LBrace,
    RBrace,
}

impl View for Token {
    type V = SpecToken;

    open spec fn view(&self) -> SpecToken {
        match self {
            Token::Name(s) => SpecToken::Name(s@),
            Token::NumberLiteral(s) => SpecToken::NumberLiteral(s@),
            Token::Type => SpecToken::Type,
            Token::Let => SpecToken::Let,
            Token::Match => SpecToken::Match,
            Token::Bar => SpecToken::Bar,
            Token::SemiColon => SpecToken::SemiColon,
            Token::Colon => SpecToken::Colon,
            Token::Equals => SpecToken::Equals,
            Token::Minus => SpecToken::Minus,
            Token::RAngle => SpecToken::RAngle,
            Token::Comma => SpecToken::Comma,
            Token::LParens => SpecToken::LParens,
            Token::RParens => SpecToken::RParens,
            Token::LBrace => SpecToken::LBrace,
            Token::RBrace => SpecToken::RBrace,
        }
    }
}

/// Why a text could not be split into tokens; the position is a character index.
#[derive(PartialEq, Eq, Structural, Debug, Clone, Copy)]
pub enum TokenizeError {
    /// A character that is neither part of a word, blank, nor punctuation.
    UnexpectedCharacter(usize),
    /// A word that starts with a digit but is not a valid number literal.
    InvalidNumber(usize),
}

pub open spec fn is_digit(c: char) -> bool {
    '0' <= c && c <= '9'
}

/// Characters that make up names, keywords and number literals.
pub open spec fn is_word_char(c: char) -> bool {
    is_digit(c) || ('a' <= c && c <= 'z') || ('A' <= c && c <= 'Z') || c == '_'
}

pub open spec fn is_blank(c: char) -> bool {
    c == ' ' || c == '\t' || c == '\n'
}

/// The token that a single punctuation character stands for.
pub open spec fn punctuation(c: char) -> Option<SpecToken> {
    if c == ';' {
        Some(SpecToken::SemiColon)
    } else if c == ':' {
        Some(SpecToken::Colon)
    } else if c == '|' {
        Some(SpecToken::Bar)
    } else if c == '=' {
        Some(SpecToken::Equals)
    } else if c == '-' {
        Some(SpecToken::Minus)
    } else if c == '>' {
        Some(SpecToken::RAngle)
    } else if c == ',' {
        Some(SpecToken::Comma)
    } else if c == '{' {
        Some(SpecToken::LBrace)
    } else if c == '}' {
        Some(SpecToken::RBrace)
    } else if c == '(' {
        Some(SpecToken::LParens)
    } else if c == ')' {
        Some(SpecToken::RParens)
    } else {
        None
    }
}

/// The first index at or after `i` that does not hold a word character.
pub open spec fn word_end(s: Seq<char>, i: int) -> int
    decreases s.len() - i,
{
    if 0 <= i < s.len() && is_word_char(s[i]) {
        word_end(s, i + 1)
    } else {
        i
    }
}

/// The first index at or after `i` that does not hold a digit.
pub open spec fn digits_end(s: Seq<char>, i: int) -> int
    decreases s.len() - i,
{
    if 0 <= i < s.len() && is_digit(s[i]) {
        digits_end(s, i + 1)
    } else {
        i
    }
}

/// `w` is one or more digits, optionally followed by `e` or `E` and one or more digits.
pub open spec fn is_number_literal(w: Seq<char>) -> bool {
    let d = digits_end(w, 0);
    &&& d >= 1
    &&& (d == w.len() || (d + 1 < w.len() && (w[d] == 'e' || w[d] == 'E') && digits_end(w, d + 1)
        == w.len()))
}

/// The token a maximal word stands for; `None` for a malformed number literal.
pub open spec fn word_token(w: Seq<char>) -> Option<SpecToken> {
    if w.len() > 0 && is_digit(w[0]) {
        if is_number_literal(w) {
            Some(SpecToken::NumberLiteral(w))
        } else {
            None
        }
    } else if w == seq!['T', 'y', 'p', 'e'] {
        Some(SpecToken::Type)
    } else if w == seq!['L', 'e', 't'] {
        Some(SpecToken::Let)
    } else if w == seq!['M', 'a', 't', 'c', 'h'] {
        Some(SpecToken::Match)
    } else {
        Some(SpecToken::Name(w))
    }
}

pub proof fn lemma_word_end_bounds(s: Seq<char>, i: int)
    requires
        0 <= i <= s.len(),
    ensures
        i <= word_end(s, i) <= s.len(),
        forall|k: int| i <= k < word_end(s, i) ==> is_word_char(#[trigger] s[k]),
        word_end(s, i) < s.len() ==> !is_word_char(s[word_end(s, i)]),
    decreases s.len() - i,
{
    if i < s.len() && is_word_char(s[i]) {
        lemma_word_end_bounds(s, i + 1);
    }
}

pub proof fn lemma_digits_end_bounds(s: Seq<char>, i: int)
    requires
        0 <= i <= s.len(),
    ensures
        i <= digits_end(s, i) <= s.len(),
        forall|k: int| i <= k < digits_end(s, i) ==> is_digit(#[trigger] s[k]),
        digits_end(s, i) < s.len() ==> !is_digit(s[digits_end(s, i)]),
    decreases s.len() - i,
{
    if i < s.len() && is_digit(s[i]) {
        lemma_digits_end_bounds(s, i + 1);
    }
}

/// The tokens of `s` from index `i` on: maximal runs of word characters become
/// words, blanks separate tokens, and each punctuation character is a token.
/// The first character or word (left to right) that cannot be a token gives the error.
pub open spec fn tokens_from(s: Seq<char>, i: int) -> Result<Seq<SpecToken>, TokenizeError>
    decreases s.len() - i,
{
    if i < 0 || i >= s.len() {
        Ok(seq![])
    } else if is_word_char(s[i]) {
        let j = word_end(s, i + 1);
        proof {
            lemma_word_end_bounds(s, i + 1);
        }
        match word_token(s.subrange(i, j)) {
            None => Err(TokenizeError::InvalidNumber(i as usize)),
            Some(t) => match tokens_from(s, j) {
                Ok(rest) => Ok(seq![t] + rest),
                Err(e) => Err(e),
            },
        }
    } else if is_blank(s[i]) {
        tokens_from(s, i + 1)
    } else {
        match punctuation(s[i]) {
            None => Err(TokenizeError::UnexpectedCharacter(i as usize)),
            Some(t) => match tokens_from(s, i + 1) {
                Ok(rest) => Ok(seq![t] + rest),
                Err(e) => Err(e),
            },
        }
    }
}

/// The tokens of a whole text.
pub open spec fn spec_tokenize(s: Seq<char>) -> Result<Seq<SpecToken>, TokenizeError> {
    tokens_from(s, 0)
}

pub open spec fn view_tokens(ts: Seq<Token>) -> Seq<SpecToken> {
    ts.map_values(|t: Token| t@)
}

pub open spec fn prepend_tokens(
    front: Seq<SpecToken>,
    r: Result<Seq<SpecToken>, TokenizeError>,
) -> Result<Seq<SpecToken>, TokenizeError> {
    match r {
        Ok(rest) => Ok(front + rest),
        Err(e) => Err(e),
    }
}

/// Appends one character to a string (`String::push`).
#[verifier::external_body]
fn push_char(s: &mut String, c: char)
    ensures
        final(s)@ == old(s)@.push(c),
{
    s.push(c);
}

fn collect_chars(file: &str) -> (res: Vec<char>)
    ensures
        res@ == file@,
{
    let mut out: Vec<char> = Vec::new();
    for c in it: file.chars()
        invariant
            out@ == it.seq().take(it.index()),
            it.seq() == file@,
    {
        out.push(c);
    }
    out
}

fn digit(c: char) -> (b: bool)
    ensures
        b == is_digit(c),
{
    '0' <= c && c <= '9'
}

fn word_char(c: char) -> (b: bool)
    ensures
        b == is_word_char(c),
{
    ('0' <= c && c <= '9') || ('a' <= c && c <= 'z') || ('A' <= c && c <= 'Z') || c == '_'
}

fn punctuation_token(c: char) -> (res: Option<Token>)
    ensures
        match res {
            Some(t) => punctuation(c) == Some(t@),
            None => punctuation(c) is None,
        },
{
    if c == ';' {
        Some(Token::SemiColon)
    } else if c == ':' {
        Some(Token::Colon)
    } else if c == '|' {
        Some(Token::Bar)
    } else if c == '=' {
        Some(Token::Equals)
    } else if c == '-' {
        Some(Token::Minus)
    } else if c == '>' {
        Some(Token::RAngle)
    } else if c == ',' {
        Some(Token::Comma)
    } else if c == '{' {
        Some(Token::LBrace)
    } else if c == '}' {
        Some(Token::RBrace)
    } else if c == '(' {
        Some(Token::LParens)
    } else if c == ')' {
        Some(Token::RParens)
    } else {
        None
    }
}

fn scan_word_end(chars: &Vec<char>, start: usize) -> (end: usize)
    requires
        start <= chars@.len(),
    ensures
        end == word_end(chars@, start as int),
{
    let mut k = start;
    while k < chars.len() && word_char(chars[k])
        invariant
            start <= k <= chars@.len(),
            word_end(chars@, start as int) == word_end(chars@, k as int),
        decreases chars@.len() - k,
    {
        k = k + 1;
    }
    k
}

fn scan_digits_end(chars: &Vec<char>, start: usize, stop: usize) -> (end: usize)
    requires
        start <= stop <= chars@.len(),
    ensures
        end == digits_end(chars@.subrange(0, stop as int), start as int),
{
    let ghost w = chars@.subrange(0, stop as int);
    let mut k = start;
    while k < stop && digit(chars[k])
        invariant
            start <= k <= stop,
            w == chars@.subrange(0, stop as int),
            stop <= chars@.len(),
            digits_end(w, start as int) == digits_end(w, k as int),
        decreases stop - k,
    {
        k = k + 1;
    }
    k
}

/// Whether `chars[start..stop]` equals `lit`.
fn chars_equal(chars: &Vec<char>, start: usize, stop: usize, lit: &Vec<char>) -> (b: bool)
    requires
        start <= stop <= chars@.len(),
    ensures
        b == (chars@.subrange(start as int, stop as int) == lit@),
{
    if stop - start != lit.len() {
        return false;
    }
    let mut k: usize = 0;
    while k < lit.len()
        invariant
            stop - start == lit@.len(),
            start <= stop <= chars@.len(),
            0 <= k <= lit@.len(),
            forall|m: int| 0 <= m < k ==> chars@[start + m] == lit@[m],
        decreases lit@.len() - k,
    {
        if chars[start + k] != lit[k] {
            assert(chars@.subrange(start as int, stop as int)[k as int] != lit@[k as int]);
            return false;
        }
        k = k + 1;
    }
    assert(chars@.subrange(start as int, stop as int) =~= lit@);
    true
}

/// The string made of `chars[start..stop]`.
fn substring(chars: &Vec<char>, start: usize, stop: usize) -> (s: String)
    requires
        start <= stop <= chars@.len(),
    ensures
        s@ == chars@.subrange(start as int, stop as int),
{
    let mut s = String::new();
    let mut k = start;
    while k < stop
        invariant
            start <= k <= stop <= chars@.len(),
            s@ == chars@.subrange(start as int, k as int),
        decreases stop - k,
    {
        push_char(&mut s, chars[k]);
        assert(chars@.subrange(start as int, k + 1) =~= chars@.subrange(start as int, k as int).push(
            chars@[k as int],
        ));
        k = k + 1;
    }
    s
}

/// Whether `chars[start..stop]` is a number literal.
fn number_literal(chars: &Vec<char>, start: usize, stop: usize) -> (b: bool)
    requires
        start <= stop <= chars@.len(),
    ensures
        b == is_number_literal(chars@.subrange(start as int, stop as int)),
{
    let ghost w = chars@.subrange(start as int, stop as int);
    let d = scan_digits_end(chars, start, stop);
    proof {
        lemma_digits_end_shift(chars@.subrange(0, stop as int), start as int, 0);
        assert(chars@.subrange(0, stop as int).subrange(start as int, stop as int) =~= w);
        lemma_digits_end_bounds(w, 0);
    }
    if d == start {
        return false;
    }
    if d == stop {
        return true;
    }
    if d + 1 < stop && (chars[d] == 'e' || chars[d] == 'E') {
        let d2 = scan_digits_end(chars, d + 1, stop);
        proof {
            lemma_digits_end_shift(chars@.subrange(0, stop as int), start as int, d - start + 1);
        }
        d2 == stop
    } else {
        false
    }
}

/// Digit runs in a window of a sequence are those of the window shifted.
proof fn lemma_digits_end_shift(s: Seq<char>, start: int, k: int)
    requires
        0 <= start <= s.len(),
        0 <= k <= s.len() - start,
    ensures
        digits_end(s.subrange(start, s.len() as int), k) + start == digits_end(s, start + k),
    decreases s.len() - start - k,
{
    let w = s.subrange(start, s.len() as int);
    if k < w.len() && is_digit(w[k]) {
        lemma_digits_end_shift(s, start, k + 1);
    }
}

/// The token for the maximal word `chars[start..stop]`.
fn make_word_token(chars: &Vec<char>, start: usize, stop: usize) -> (res: Option<Token>)
    requires
        start < stop <= chars@.len(),
    ensures
        match res {
            Some(t) => word_token(chars@.subrange(start as int, stop as int)) == Some(t@),
            None => word_token(chars@.subrange(start as int, stop as int)) is None,
        },
{
    let ghost w = chars@.subrange(start as int, stop as int);
    assert(w[0] == chars@[start as int]);
    if digit(chars[start]) {
        if number_literal(chars, start, stop) {
            Some(Token::NumberLiteral(substring(chars, start, stop)))
        } else {
            None
        }
    } else if chars_equal(chars, start, stop, &vec!['T', 'y', 'p', 'e']) {
        Some(Token::Type)
    } else if chars_equal(chars, start, stop, &vec!['L', 'e', 't']) {
        Some(Token::Let)
    } else if chars_equal(chars, start, stop, &vec!['M', 'a', 't', 'c', 'h']) {
        Some(Token::Match)
    } else {
        Some(Token::Name(substring(chars, start, stop)))
    }
}

/// Splits a text into tokens.
pub fn tokenize(file: &str) -> (res: Result<Vec<Token>, TokenizeError>)
    ensures
        match res {
            Ok(ts) => spec_tokenize(file@) == Ok::<Seq<SpecToken>, TokenizeError>(view_tokens(ts@)),
            Err(e) => spec_tokenize(file@) == Err::<Seq<SpecToken>, TokenizeError>(e),
        },
{
    let chars = collect_chars(file);
    let n = chars.len();
    let mut tokens: Vec<Token> = Vec::new();
    let mut i: usize = 0;
    assert(view_tokens(tokens@) =~= seq![]);
    assert(prepend_tokens(seq![], tokens_from(chars@, 0)) =~= tokens_from(chars@, 0)) by {
        match tokens_from(chars@, 0) {
            Ok(r) => {
                assert(Seq::<SpecToken>::empty() + r =~= r);
            },
            Err(e) => {},
        }
    }
    while i < n
        invariant
            0 <= i <= n,
            n == chars@.len(),
            chars@ == file@,
            tokens_from(chars@, 0) == prepend_tokens(view_tokens(tokens@), tokens_from(chars@, i as int)),
        decreases n - i,
    {
        let c = chars[i];
        if word_char(c) {
            let j = scan_word_end(&chars, i + 1);
            proof {
                lemma_word_end_bounds(chars@, i + 1);
            }
            match make_word_token(&chars, i, j) {
                Some(t) => {
                    let ghost before = tokens@;
                    tokens.push(t);
                    proof {
                        assert(view_tokens(tokens@) =~= view_tokens(before) + seq![t@]);
                        match tokens_from(chars@, j as int) {
                            Ok(r) => {
                                assert(view_tokens(before) + (seq![t@] + r) =~= view_tokens(tokens@) + r);
                            },
                            Err(e) => {},
                        }
                    }
                    i = j;
                },
                None => {
                    return Err(TokenizeError::InvalidNumber(i));
                },
            }
        } else if c == ' ' || c == '\t' || c == '\n' {
            i = i + 1;
        } else {
            match punctuation_token(c) {
                Some(t) => {
                    let ghost before = tokens@;
                    tokens.push(t);
                    proof {
                        assert(view_tokens(tokens@) =~= view_tokens(before) + seq![t@]);
                        match tokens_from(chars@, i + 1) {
                            Ok(r) => {
                                assert(view_tokens(before) + (seq![t@] + r) =~= view_tokens(tokens@) + r);
                            },
                            Err(e) => {},
                        }
                    }
                    i = i + 1;
                },
                None => {
                    return Err(TokenizeError::UnexpectedCharacter(i));
                },
            }
        }
    }
    assert(view_tokens(tokens@) + Seq::<SpecToken>::empty() =~= view_tokens(tokens@));
    Ok(tokens)
}

proof fn lemma_word_end_prefix(a: Seq<char>, s: Seq<char>, k: int)
    requires
        0 <= k <= a.len(),
        a.len() < s.len(),
        s.subrange(0, a.len() as int) == a,
        !is_word_char(s[a.len() as int]),
    ensures
        word_end(s, k) == word_end(a, k),
    decreases a.len() - k,
{
    if k < a.len() {
        assert(s[k] == s.subrange(0, a.len() as int)[k]);
        if is_word_char(a[k]) {
            lemma_word_end_prefix(a, s, k + 1);
        }
    }
}

proof fn lemma_word_end_shift(pre: Seq<char>, b: Seq<char>, k: int)
    requires
        0 <= k <= b.len(),
    ensures
        word_end(pre + b, pre.len() + k) == pre.len() + word_end(b, k),
    decreases b.len() - k,
{
    if k < b.len() {
        assert((pre + b)[pre.len() + k] == b[k]);
        if is_word_char(b[k]) {
            lemma_word_end_shift(pre, b, k + 1);
        }
    }
}

proof fn lemma_tokens_prefix(a: Seq<char>, s: Seq<char>, i: int)
    requires
        0 <= i <= a.len(),
        a.len() < s.len(),
        s.subrange(0, a.len() as int) == a,
        is_blank(s[a.len() as int]),
    ensures
        tokens_from(a, i) is Ok ==> tokens_from(s, i) == prepend_tokens(
            tokens_from(a, i)->Ok_0,
            tokens_from(s, a.len() as int),
        ),
    decreases a.len() - i,
{
    if i == a.len() {
        match tokens_from(s, i) {
            Ok(r) => {
                assert(Seq::<SpecToken>::empty() + r =~= r);
            },
            Err(_) => {},
        }
    } else {
        assert(s[i] == s.subrange(0, a.len() as int)[i]);
        if is_word_char(a[i]) {
            lemma_word_end_bounds(a, i + 1);
            lemma_word_end_prefix(a, s, i + 1);
            let j = word_end(a, i + 1);
            assert(s.subrange(i, j) =~= a.subrange(i, j)) by {
                assert forall|k: int| 0 <= k < j - i implies s.subrange(i, j)[k] == a.subrange(i, j)[k] by {
                    assert(s[i + k] == s.subrange(0, a.len() as int)[i + k]);
                }
            }
            lemma_tokens_prefix(a, s, j);
            if let Ok(x) = tokens_from(a, i) {
                let t = word_token(a.subrange(i, j))->Some_0;
                let rest = tokens_from(a, j)->Ok_0;
                match tokens_from(s, a.len() as int) {
                    Ok(r) => {
                        assert(seq![t] + (rest + r) =~= (seq![t] + rest) + r);
                    },
                    Err(_) => {},
                }
            }
        } else if is_blank(a[i]) {
            lemma_tokens_prefix(a, s, i + 1);
        } else {
            lemma_tokens_prefix(a, s, i + 1);
            if let Ok(x) = tokens_from(a, i) {
                let t = punctuation(a[i])->Some_0;
                let rest = tokens_from(a, i + 1)->Ok_0;
                match tokens_from(s, a.len() as int) {
                    Ok(r) => {
                        assert(seq![t] + (rest + r) =~= (seq![t] + rest) + r);
                    },
                    Err(_) => {},
                }
            }
        }
    }
}

proof fn lemma_tokens_suffix(pre: Seq<char>, b: Seq<char>, j: int)
    requires
        0 <= j <= b.len(),
    ensures
        tokens_from(b, j) is Ok ==> tokens_from(pre + b, pre.len() + j) == tokens_from(b, j),
    decreases b.len() - j,
{
    let s = pre + b;
    let off = pre.len() as int;
    if j < b.len() {
        assert(s[off + j] == b[j]);
        if is_word_char(b[j]) {
            lemma_word_end_bounds(b, j + 1);
            lemma_word_end_shift(pre, b, j + 1);
            let e = word_end(b, j + 1);
            assert(s.subrange(off + j, off + e) =~= b.subrange(j, e));
            lemma_tokens_suffix(pre, b, e);
        } else {
            lemma_tokens_suffix(pre, b, j + 1);
        }
    }
}

/// A blank between two texts only separates them: if each text splits into
/// tokens, the two joined by a blank split into the tokens of the first
/// followed by the tokens of the second.
pub proof fn lemma_tokenize_blank_separates(a: Seq<char>, c: char, b: Seq<char>)
    requires
        is_blank(c),
        spec_tokenize(a) is Ok,
        spec_tokenize(b) is Ok,
    ensures
        spec_tokenize(a + seq![c] + b) == Ok::<Seq<SpecToken>, TokenizeError>(
            spec_tokenize(a)->Ok_0 + spec_tokenize(b)->Ok_0,
        ),
{
    let pre = a + seq![c];
    let s = pre + b;
    assert(s.subrange(0, a.len() as int) =~= a);
    assert(s[a.len() as int] == c);
    lemma_tokens_prefix(a, s, 0);
    lemma_tokens_suffix(pre, b, 0);
    assert(tokens_from(s, a.len() as int) == tokens_from(s, a.len() + 1 as int));
}


/// A word that does not start with a digit is a keyword only when it is
/// exactly that keyword (`Type`, `Let`, `Match`); every other such word is a
/// name, holding the word itself.
pub proof fn lemma_keywords_are_exact(w: Seq<char>)
    requires
        w.len() > 0,
        !is_digit(w[0]),
    ensures
        word_token(w) == Some(SpecToken::Type) <==> w == seq!['T', 'y', 'p', 'e'],
        word_token(w) == Some(SpecToken::Let) <==> w == seq!['L', 'e', 't'],
        word_token(w) == Some(SpecToken::Match) <==> w == seq!['M', 'a', 't', 'c', 'h'],
        w != seq!['T', 'y', 'p', 'e'] && w != seq!['L', 'e', 't'] && w != seq!['M', 'a', 't', 'c', 'h']
            ==> word_token(w) == Some(SpecToken::Name(w)),
{
}

/// A text that starts with a whole word (one not starting with a digit)
/// tokenizes, if at all, to a first token that is the keyword the word spells
/// exactly, or else the name made of the whole word.
pub proof fn lemma_first_word_token(w: Seq<char>, rest: Seq<char>)
    requires
        w.len() > 0,
        !is_digit(w[0]),
        forall|k: int| 0 <= k < w.len() ==> is_word_char(#[trigger] w[k]),
        rest.len() == 0 || !is_word_char(rest[0]),
    ensures
        spec_tokenize(w + rest) is Ok ==> {
            let ts = spec_tokenize(w + rest)->Ok_0;
            &&& ts.len() > 0
            &&& w == seq!['L', 'e', 't'] ==> ts[0] == SpecToken::Let
            &&& w == seq!['T', 'y', 'p', 'e'] ==> ts[0] == SpecToken::Type
            &&& w == seq!['M', 'a', 't', 'c', 'h'] ==> ts[0] == SpecToken::Match
            &&& w != seq!['T', 'y', 'p', 'e'] && w != seq!['L', 'e', 't'] && w != seq!['M', 'a', 't', 'c', 'h']
                ==> ts[0] == SpecToken::Name(w)
        },
{
    let s = w + rest;
    lemma_word_run_end(s, 1, w.len() as int);
    assert(s.subrange(0, w.len() as int) =~= w);
    lemma_keywords_are_exact(w);
}

proof fn lemma_word_run_end(s: Seq<char>, i: int, n: int)
    requires
        0 <= i <= n <= s.len(),
        forall|k: int| i <= k < n ==> is_word_char(#[trigger] s[k]),
        n == s.len() || !is_word_char(s[n]),
    ensures
        word_end(s, i) == n,
    decreases n - i,
{
    if i < n {
        lemma_word_run_end(s, i + 1, n);
    }
}

} // verus!
