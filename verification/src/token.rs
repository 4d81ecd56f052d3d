//! The surface-syntax tokenizer.

use crate::parse::ParseError;
use peeking_take_while::PeekableExt;
use vstd::prelude::*;
use vstd::string::StrSliceExecFns;
use vstd::string::StringExecFns;

verus! {

broadcast use vstd::seq::group_seq_axioms;

/// A token of the surface syntax.
#[derive(Clone, Debug, PartialEq, Eq)]
pub enum Token {
    Var(String),
    VarCap(String),
    Lambda,
    Dot,
    Let,
    In,
    Equals,
    LParen,
    RParen,
    ForAll,
    Arrow,
}

/// The mathematical shape of a [`Token`].
pub enum SpecToken {
    Var(Seq<char>),
    VarCap(Seq<char>),
    Lambda,
    Dot,
    Let,
    In,
    Equals,
    LParen,
    RParen,
    ForAll,
    Arrow,
}

impl DeepView for Token {
    type V = SpecToken;

    open spec fn deep_view(&self) -> SpecToken {
        match self {
            Token::Var(x) => SpecToken::Var(x@),
            Token::VarCap(x) => SpecToken::VarCap(x@),
            Token::Lambda => SpecToken::Lambda,
            Token::Dot => SpecToken::Dot,
            Token::Let => SpecToken::Let,
            Token::In => SpecToken::In,
            Token::Equals => SpecToken::Equals,
            Token::LParen => SpecToken::LParen,
            Token::RParen => SpecToken::RParen,
            Token::ForAll => SpecToken::ForAll,
            Token::Arrow => SpecToken::Arrow,
        }
    }
}

/// Whether `c` counts as whitespace, as Unicode defines it.
pub open spec fn is_space_char(c: char) -> bool {
    let n = c as u32;
    n == 0x20 || n == 0x9 || n == 0xA || n == 0xB || n == 0xC || n == 0xD || n == 0x85 || n
        == 0xA0 || n == 0x1680 || (0x2000 <= n && n <= 0x200A) || n == 0x2028 || n == 0x2029 || n
        == 0x202F || n == 0x205F || n == 0x3000
}

/// Whether `c` may continue an identifier or keyword.
pub open spec fn is_word_char(c: char) -> bool {
    let n = c as u32;
    (0x30 <= n && n <= 0x39) || (0x41 <= n && n <= 0x5A) || (0x61 <= n && n <= 0x7A)
}

/// Whether `c` may begin an identifier or keyword.
pub open spec fn is_alpha_char(c: char) -> bool {
    let n = c as u32;
    (0x41 <= n && n <= 0x5A) || (0x61 <= n && n <= 0x7A)
}

/// Whether `c` is a lower-case letter.
pub open spec fn is_lower_char(c: char) -> bool {
    let n = c as u32;
    0x61 <= n && n <= 0x7A
}

/// Whether `c` counts as whitespace.
fn is_space(c: char) -> (b: bool)
    ensures
        b == is_space_char(c),
{
    let n = c as u32;
    n == 0x20 || n == 0x9 || n == 0xA || n == 0xB || n == 0xC || n == 0xD || n == 0x85 || n
        == 0xA0 || n == 0x1680 || (0x2000 <= n && n <= 0x200A) || n == 0x2028 || n == 0x2029 || n
        == 0x202F || n == 0x205F || n == 0x3000
}

/// Whether `c` may continue an identifier or keyword.
pub fn is_word(c: char) -> (b: bool)
    ensures
        b == is_word_char(c),
{
    let n = c as u32;
    (0x30 <= n && n <= 0x39) || (0x41 <= n && n <= 0x5A) || (0x61 <= n && n <= 0x7A)
}

/// Whether `c` may begin an identifier or keyword.
fn is_alpha(c: char) -> (b: bool)
    ensures
        b == is_alpha_char(c),
{
    let n = c as u32;
    (0x41 <= n && n <= 0x5A) || (0x61 <= n && n <= 0x7A)
}

/// Whether `c` is a lower-case letter.
fn is_lower(c: char) -> (b: bool)
    ensures
        b == is_lower_char(c),
{
    let n = c as u32;
    0x61 <= n && n <= 0x7A
}

/// The position just after the run of word characters beginning at `i`.
pub open spec fn word_end(cs: Seq<char>, i: int) -> int
    decreases cs.len() - i,
{
    if i < 0 || i >= cs.len() {
        i
    } else if is_word_char(cs[i]) {
        word_end(cs, i + 1)
    } else {
        i
    }
}

/// What the end of a word run means.
pub proof fn lemma_word_end(cs: Seq<char>, i: int)
    requires
        0 <= i <= cs.len(),
    ensures
        i <= word_end(cs, i) <= cs.len(),
        forall|j: int| i <= j < word_end(cs, i) ==> is_word_char(#[trigger] cs[j]),
        word_end(cs, i) < cs.len() ==> !is_word_char(cs[word_end(cs, i)]),
        i < cs.len() && is_word_char(cs[i]) ==> word_end(cs, i) > i,
    decreases cs.len() - i,
{
    if i < cs.len() && is_word_char(cs[i]) {
        lemma_word_end(cs, i + 1);
    }
}

/// The characters of the keyword introducing an abstraction.
pub open spec fn lambda_chars() -> Seq<char> {
    seq!['l', 'a', 'm', 'b', 'd', 'a']
}

/// The characters of the keyword introducing a binding.
pub open spec fn let_chars() -> Seq<char> {
    seq!['l', 'e', 't']
}

/// The characters of the keyword separating a binding from its body.
pub open spec fn in_chars() -> Seq<char> {
    seq!['i', 'n']
}

/// The characters of the keyword introducing a quantifier.
pub open spec fn forall_chars() -> Seq<char> {
    seq!['f', 'o', 'r', 'a', 'l', 'l']
}

/// The characters of the keyword written for the function arrow.
pub open spec fn to_chars() -> Seq<char> {
    seq!['t', 'o']
}

/// The token that a word denotes: a keyword, a variable when it starts
/// in lower case, and a constructor name otherwise.
pub open spec fn keyword_token(w: Seq<char>) -> SpecToken {
    if w == lambda_chars() {
        SpecToken::Lambda
    } else if w == let_chars() {
        SpecToken::Let
    } else if w == in_chars() {
        SpecToken::In
    } else if w == forall_chars() {
        SpecToken::ForAll
    } else if w == to_chars() {
        SpecToken::Arrow
    } else if w.len() > 0 && is_lower_char(w[0]) {
        SpecToken::Var(w)
    } else {
        SpecToken::VarCap(w)
    }
}

/// Prepends a token to a tokenization outcome.
pub open spec fn cons_tok(t: SpecToken, rest: Option<Seq<SpecToken>>) -> Option<Seq<SpecToken>> {
    match rest {
        Some(r) => Some(seq![t] + r),
        None => None,
    }
}

/// The tokens of `cs` from position `i` on, or `None` where a character
/// fits no token.
pub open spec fn spec_tokenize_from(cs: Seq<char>, i: int) -> Option<Seq<SpecToken>>
    decreases cs.len() - i,
    via spec_tokenize_from_dec
{
    if i < 0 || i >= cs.len() {
        Some(Seq::empty())
    } else if is_space_char(cs[i]) {
        spec_tokenize_from(cs, i + 1)
    } else if cs[i] == '.' {
        cons_tok(SpecToken::Dot, spec_tokenize_from(cs, i + 1))
    } else if cs[i] == '\u{3BB}' {
        cons_tok(SpecToken::Lambda, spec_tokenize_from(cs, i + 1))
    } else if cs[i] == '=' {
        cons_tok(SpecToken::Equals, spec_tokenize_from(cs, i + 1))
    } else if cs[i] == '(' {
        cons_tok(SpecToken::LParen, spec_tokenize_from(cs, i + 1))
    } else if cs[i] == ')' {
        cons_tok(SpecToken::RParen, spec_tokenize_from(cs, i + 1))
    } else if cs[i] == '\u{2200}' {
        cons_tok(SpecToken::ForAll, spec_tokenize_from(cs, i + 1))
    } else if cs[i] == '\u{2192}' {
        cons_tok(SpecToken::Arrow, spec_tokenize_from(cs, i + 1))
    } else if is_alpha_char(cs[i]) {
        let end = word_end(cs, i);
        cons_tok(keyword_token(cs.subrange(i, end)), spec_tokenize_from(cs, end))
    } else {
        None
    }
}

#[via_fn]
proof fn spec_tokenize_from_dec(cs: Seq<char>, i: int) {
    if 0 <= i < cs.len() {
        lemma_word_end(cs, i);
    }
}

/// The tokens of a whole text.
pub open spec fn spec_tokenize(cs: Seq<char>) -> Option<Seq<SpecToken>> {
    spec_tokenize_from(cs, 0)
}

/// The characters of a string, in order.
fn str_chars(s: &str) -> (r: Vec<char>)
    ensures
        r@ == s@,
{
    let n = s.unicode_len();
    let mut r: Vec<char> = Vec::new();
    let mut i: usize = 0;
    while i < n
        invariant
            n == s@.len(),
            i <= n,
            r@.len() == i,
            forall|j: int| 0 <= j < i ==> r@[j] == #[trigger] s@[j],
        decreases n - i,
    {
        let c = s.get_char(i);
        r.push(c);
        i = i + 1;
    }
    proof {
        assert(r@ =~= s@);
    }
    r
}

/// Relies on `peeking_take_while` from the crate of the same name: the
/// returned adaptor yields exactly the leading contiguous elements that
/// satisfy the predicate, here the run of word characters at position
/// `i`.
#[verifier::external_body]
fn take_word(cs: &Vec<char>, i: usize) -> (r: String)
    requires
        i < cs@.len(),
    ensures
        r@ == cs@.subrange(i as int, word_end(cs@, i as int)),
{
    let mut it = cs[i..].iter().copied().peekable();
    it.peeking_take_while(|c| is_word(*c)).collect()
}

/// One token read and appended: what remains still tokenizes the text.
proof fn lemma_tok_step(
    cs: Seq<char>,
    done: Seq<SpecToken>,
    t: SpecToken,
    i: int,
    j: int,
)
    requires
        spec_tokenize_from(cs, i) == cons_tok(t, spec_tokenize_from(cs, j)),
        match spec_tokenize_from(cs, i) {
            Some(rest) => spec_tokenize(cs) == Some(done + rest),
            None => spec_tokenize(cs) is None,
        },
    ensures
        match spec_tokenize_from(cs, j) {
            Some(rest) => spec_tokenize(cs) == Some(done.push(t) + rest),
            None => spec_tokenize(cs) is None,
        },
{
    match spec_tokenize_from(cs, j) {
        Some(rest) => {
            assert(spec_tokenize_from(cs, i) == Some(seq![t] + rest));
            assert(done + (seq![t] + rest) =~= done.push(t) + rest);
        },
        None => {},
    }
}

/// Splits `text` into tokens; fails on a character that fits none.
pub fn tokenize(text: &str) -> (r: Result<Vec<Token>, ParseError>)
    ensures
        match r {
            Ok(toks) => spec_tokenize(text@) == Some(toks.deep_view()),
            Err(e) => spec_tokenize(text@) is None && e matches ParseError::TokenizerError(..),
        },
{
    let cs = str_chars(text);
    let mut toks: Vec<Token> = Vec::new();
    let mut i: usize = 0;
    while i < cs.len()
        invariant
            cs@ == text@,
            i <= cs@.len(),
            match spec_tokenize_from(text@, i as int) {
                Some(rest) => spec_tokenize(text@) == Some(toks.deep_view() + rest),
                None => spec_tokenize(text@) is None,
            },
        decreases cs@.len() - i,
    {
        let ghost done = toks.deep_view();
        let c = cs[i];
        if is_space(c) {
            i = i + 1;
        } else if c == '.' {
            proof {
                lemma_tok_step(text@, done, SpecToken::Dot, i as int, i + 1);
            }
            toks.push(Token::Dot);
            proof {
                assert(toks.deep_view() =~= done.push(SpecToken::Dot));
            }
            i = i + 1;
        } else if c == '\u{3BB}' {
            proof {
                lemma_tok_step(text@, done, SpecToken::Lambda, i as int, i + 1);
            }
            toks.push(Token::Lambda);
            proof {
                assert(toks.deep_view() =~= done.push(SpecToken::Lambda));
            }
            i = i + 1;
        } else if c == '=' {
            proof {
                lemma_tok_step(text@, done, SpecToken::Equals, i as int, i + 1);
            }
            toks.push(Token::Equals);
            proof {
                assert(toks.deep_view() =~= done.push(SpecToken::Equals));
            }
            i = i + 1;
        } else if c == '(' {
            proof {
                lemma_tok_step(text@, done, SpecToken::LParen, i as int, i + 1);
            }
            toks.push(Token::LParen);
            proof {
                assert(toks.deep_view() =~= done.push(SpecToken::LParen));
            }
            i = i + 1;
        } else if c == ')' {
            proof {
                lemma_tok_step(text@, done, SpecToken::RParen, i as int, i + 1);
            }
            toks.push(Token::RParen);
            proof {
                assert(toks.deep_view() =~= done.push(SpecToken::RParen));
            }
            i = i + 1;
        } else if c == '\u{2200}' {
            proof {
                lemma_tok_step(text@, done, SpecToken::ForAll, i as int, i + 1);
            }
            toks.push(Token::ForAll);
            proof {
                assert(toks.deep_view() =~= done.push(SpecToken::ForAll));
            }
            i = i + 1;
        } else if c == '\u{2192}' {
            proof {
                lemma_tok_step(text@, done, SpecToken::Arrow, i as int, i + 1);
            }
            toks.push(Token::Arrow);
            proof {
                assert(toks.deep_view() =~= done.push(SpecToken::Arrow));
            }
            i = i + 1;
        } else if is_alpha(c) {
            let ghost end = word_end(text@, i as int);
            proof {
                lemma_word_end(text@, i as int);
            }
            let word = take_word(&cs, i);
            let wlen = word.as_str().unicode_len();
            proof {
                assert(word@.len() == end - i);
                assert(word@[0] == text@[i as int]);
            }
            let ghost t = keyword_token(word@);
            proof {
                lemma_tok_step(text@, done, t, i as int, end);
                reveal_strlit("lambda");
                reveal_strlit("let");
                reveal_strlit("in");
                reveal_strlit("forall");
                reveal_strlit("to");
                assert("lambda"@ =~= lambda_chars());
                assert("let"@ =~= let_chars());
                assert("in"@ =~= in_chars());
                assert("forall"@ =~= forall_chars());
                assert("to"@ =~= to_chars());
            }
            let tok: Token = if word == "lambda".to_owned() {
                Token::Lambda
            } else if word == "let".to_owned() {
                Token::Let
            } else if word == "in".to_owned() {
                Token::In
            } else if word == "forall".to_owned() {
                Token::ForAll
            } else if word == "to".to_owned() {
                Token::Arrow
            } else {
                let c0 = word.as_str().get_char(0);
                if is_lower(c0) {
                    Token::Var(word)
                } else {
                    Token::VarCap(word)
                }
            };
            proof {
                assert(tok.deep_view() == t);
            }
            toks.push(tok);
            proof {
                assert(toks.deep_view() =~= done.push(t));
            }
            i = i + wlen;
        } else {
            let mut msg: String = "unexpected character '".to_owned();
            crate::types::string_push(&mut msg, c);
            let full = msg.concat("'");
            return Err(ParseError::TokenizerError(full));
        }
    }
    proof {
        assert(toks.deep_view() + Seq::<SpecToken>::empty() =~= toks.deep_view());
    }
    Ok(toks)
}

} // verus!
