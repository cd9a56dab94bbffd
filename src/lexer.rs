use vstd::prelude::*;
use crate::text::{chars_of, same_chars, string_of};

verus! {

/// A lexical unit of program text.
#[derive(Debug, Clone, PartialEq, Eq)]
pub enum Token {
    Ident(String),
    Label(String),
    Clr,
    Del,
    Add(char),
    Copy,
    Jmp,
    CondJmp(char),
    Continue,
}

/// The mathematical value of a `Token`: names as character sequences.
pub enum TokenV {
    Ident(Seq<char>),
    Label(Seq<char>),
    Clr,
    Del,
    Add(char),
    Copy,
    Jmp,
    CondJmp(char),
    Continue,
}

impl View for Token {
    type V = TokenV;

    open spec fn view(&self) -> TokenV {
        match self {
            Token::Ident(s) => TokenV::Ident(s@),
            Token::Label(s) => TokenV::Label(s@),
            Token::Clr => TokenV::Clr,
            Token::Del => TokenV::Del,
            Token::Add(c) => TokenV::Add(*c),
            Token::Copy => TokenV::Copy,
            Token::Jmp => TokenV::Jmp,
            Token::CondJmp(c) => TokenV::CondJmp(*c),
            Token::Continue => TokenV::Continue,
        }
    }
}

impl Token {
    /// A copy of this token.
    pub fn duplicate(&self) -> (r: Token)
        ensures
            r@ == self@,
    {
        match self {
            Token::Ident(s) => Token::Ident(s.clone()),
            Token::Label(s) => Token::Label(s.clone()),
            Token::Clr => Token::Clr,
            Token::Del => Token::Del,
            Token::Add(c) => Token::Add(*c),
            Token::Copy => Token::Copy,
            Token::Jmp => Token::Jmp,
            Token::CondJmp(c) => Token::CondJmp(*c),
            Token::Continue => Token::Continue,
        }
    }
}

pub open spec fn tokens_view(ts: Seq<Token>) -> Seq<TokenV> {
    ts.map_values(|t: Token| t@)
}

/// Unicode White_Space, the set that `char::is_whitespace` tests.
pub open spec fn is_space(c: char) -> bool {
    ('\u{9}' <= c && c <= '\u{d}') || c == ' ' || c == '\u{85}' || c == '\u{a0}'
        || c == '\u{1680}' || ('\u{2000}' <= c && c <= '\u{200a}') || c == '\u{2028}'
        || c == '\u{2029}' || c == '\u{202f}' || c == '\u{205f}' || c == '\u{3000}'
}

/// Reading `s` from the left: the words completed so far, and the word in progress.
pub open spec fn scan(s: Seq<char>) -> (Seq<Seq<char>>, Seq<char>)
    decreases s.len(),
{
    if s.len() == 0 {
        (Seq::empty(), Seq::empty())
    } else {
        let (done, cur) = scan(s.drop_last());
        let c = s.last();
        if is_space(c) {
            if cur.len() > 0 {
                (done.push(cur), Seq::empty())
            } else {
                (done, cur)
            }
        } else {
            (done, cur.push(c))
        }
    }
}

/// The maximal runs of non-space characters of `s`, in order.
pub open spec fn words(s: Seq<char>) -> Seq<Seq<char>> {
    let (done, cur) = scan(s);
    if cur.len() > 0 {
        done.push(cur)
    } else {
        done
    }
}

pub open spec fn kw_clr() -> Seq<char> {
    seq!['c', 'l', 'r']
}

pub open spec fn kw_del() -> Seq<char> {
    seq!['d', 'e', 'l']
}

pub open spec fn kw_copy() -> Seq<char> {
    seq!['<', '-']
}

pub open spec fn kw_jmp() -> Seq<char> {
    seq!['j', 'm', 'p']
}

pub open spec fn kw_add() -> Seq<char> {
    seq!['a', 'd', 'd']
}

pub open spec fn kw_continue() -> Seq<char> {
    seq!['c', 'o', 'n', 't', 'i', 'n', 'u', 'e']
}

/// The token that one word stands for.
pub open spec fn classify(w: Seq<char>) -> TokenV {
    if w == kw_clr() {
        TokenV::Clr
    } else if w == kw_del() {
        TokenV::Del
    } else if w == kw_copy() {
        TokenV::Copy
    } else if w == kw_jmp() {
        TokenV::Jmp
    } else if w == kw_continue() {
        TokenV::Continue
    } else if w.len() == 4 && w.take(3) == kw_jmp() {
        TokenV::CondJmp(w[3])
    } else if w.len() == 4 && w.take(3) == kw_add() {
        TokenV::Add(w[3])
    } else if w.len() > 0 && w.last() == ':' {
        TokenV::Label(w.drop_last())
    } else {
        TokenV::Ident(w)
    }
}

/// The tokens of program text: one per word, in order.
pub open spec fn lex_spec(s: Seq<char>) -> Seq<TokenV> {
    words(s).map_values(|w: Seq<char>| classify(w))
}

/// Whether `c` is Unicode white space.
pub fn is_space_char(c: char) -> (r: bool)
    ensures
        r == is_space(c),
{
    ('\u{9}' <= c && c <= '\u{d}') || c == ' ' || c == '\u{85}' || c == '\u{a0}'
        || c == '\u{1680}' || ('\u{2000}' <= c && c <= '\u{200a}') || c == '\u{2028}'
        || c == '\u{2029}' || c == '\u{202f}' || c == '\u{205f}' || c == '\u{3000}'
}

fn has_prefix3(w: &Vec<char>, k: &Vec<char>) -> (r: bool)
    requires
        w@.len() == 4,
        k@.len() == 3,
    ensures
        r == (w@.take(3) == k@),
{
    let r = w[0] == k[0] && w[1] == k[1] && w[2] == k[2];
    if r {
        assert(w@.take(3) =~= k@);
    }
    r
}

/// The token that the word `w` stands for.
pub fn classify_word(w: &Vec<char>) -> (r: Token)
    ensures
        r@ == classify(w@),
{
    let clr = vec!['c', 'l', 'r'];
    let del = vec!['d', 'e', 'l'];
    let copy = vec!['<', '-'];
    let jmp = vec!['j', 'm', 'p'];
    let add = vec!['a', 'd', 'd'];
    let cont = vec!['c', 'o', 'n', 't', 'i', 'n', 'u', 'e'];
    assert(clr@ =~= kw_clr());
    assert(del@ =~= kw_del());
    assert(copy@ =~= kw_copy());
    assert(jmp@ =~= kw_jmp());
    assert(add@ =~= kw_add());
    assert(cont@ =~= kw_continue());
    if same_chars(w, &clr) {
        Token::Clr
    } else if same_chars(w, &del) {
        Token::Del
    } else if same_chars(w, &copy) {
        Token::Copy
    } else if same_chars(w, &jmp) {
        Token::Jmp
    } else if same_chars(w, &cont) {
        Token::Continue
    } else if w.len() == 4 && has_prefix3(w, &jmp) {
        Token::CondJmp(w[3])
    } else if w.len() == 4 && has_prefix3(w, &add) {
        Token::Add(w[3])
    } else if w.len() > 0 && w[w.len() - 1] == ':' {
        let mut name = w.clone();
        name.pop();
        assert(name@ =~= w@.drop_last());
        Token::Label(string_of(&name))
    } else {
        Token::Ident(string_of(w))
    }
}

/// Splits program text on white space and classifies each word. Never fails.
pub fn lex(content: &str) -> (r: Vec<Token>)
    ensures
        tokens_view(r@) == lex_spec(content@),
{
    let cs = chars_of(content);
    let mut out: Vec<Token> = Vec::new();
    let mut cur: Vec<char> = Vec::new();
    let mut i: usize = 0;
    while i < cs.len()
        invariant
            cs@ == content@,
            i <= cs@.len(),
            tokens_view(out@) == scan(cs@.take(i as int)).0.map_values(|w: Seq<char>| classify(w)),
            cur@ == scan(cs@.take(i as int)).1,
        decreases cs@.len() - i,
    {
        let c = cs[i];
        assert(cs@.take(i + 1).drop_last() =~= cs@.take(i as int));
        if is_space_char(c) {
            if cur.len() > 0 {
                let t = classify_word(&cur);
                let ghost before = out@;
                out.push(t);
                assert(tokens_view(out@) =~= tokens_view(before).push(t@));
                assert(scan(cs@.take(i + 1)).0.map_values(|w: Seq<char>| classify(w))
                    =~= scan(cs@.take(i as int)).0.map_values(|w: Seq<char>| classify(w)).push(classify(cur@)));
                cur = Vec::new();
            }
        } else {
            cur.push(c);
        }
        i = i + 1;
    }
    assert(cs@.take(i as int) =~= cs@);
    if cur.len() > 0 {
        let t = classify_word(&cur);
        let ghost before = out@;
        out.push(t);
        assert(tokens_view(out@) =~= tokens_view(before).push(t@));
        assert(words(cs@).map_values(|w: Seq<char>| classify(w))
            =~= scan(cs@).0.map_values(|w: Seq<char>| classify(w)).push(classify(cur@)));
    }
    out
}

} // verus!
