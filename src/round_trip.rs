use vstd::prelude::*;
use crate::lexer::{TokenV, classify, is_space, lex_spec, scan, words};
use crate::parser::{InstructionV, LineV, parse_from, parse_spec};
use crate::pretty::{format_spec, instruction_text, render, spaces};

verus! {

/// A non-empty run of non-space characters.
pub open spec fn is_word(w: Seq<char>) -> bool {
    w.len() > 0 && forall|i: int| 0 <= i < w.len() ==> !is_space(#[trigger] w[i])
}

pub open spec fn ident_ok(r: Seq<char>) -> bool {
    is_word(r) && classify(r) == TokenV::Ident(r)
}

pub open spec fn label_ok(l: Seq<char>) -> bool {
    is_word(l.push(':')) && classify(l.push(':')) == TokenV::Label(l)
}

pub open spec fn token_ok(t: TokenV) -> bool {
    match t {
        TokenV::Ident(x) => ident_ok(x),
        TokenV::Label(l) => label_ok(l),
        TokenV::Add(c) => !is_space(c),
        TokenV::CondJmp(c) => !is_space(c),
        _ => true,
    }
}

pub open spec fn instruction_ok(i: InstructionV) -> bool {
    match i {
        InstructionV::Clr(r) => ident_ok(r),
        InstructionV::Del(r) => ident_ok(r),
        InstructionV::Add(r, c) => ident_ok(r) && !is_space(c),
        InstructionV::Copy(d, s) => ident_ok(d) && ident_ok(s),
        InstructionV::Jmp(l) => ident_ok(l),
        InstructionV::CondJmp(r, c, l) => ident_ok(r) && !is_space(c) && ident_ok(l),
        InstructionV::Continue => true,
    }
}

pub open spec fn line_ok(l: LineV) -> bool {
    (l.label matches Some(x) ==> label_ok(x)) && instruction_ok(l.instruction)
}

/// The words that a line is written with.
pub open spec fn instruction_words(i: InstructionV) -> Seq<Seq<char>> {
    match i {
        InstructionV::Clr(r) => seq![seq!['c', 'l', 'r'], r],
        InstructionV::Del(r) => seq![seq!['d', 'e', 'l'], r],
        InstructionV::Add(r, c) => seq![seq!['a', 'd', 'd', c], r],
        InstructionV::Copy(d, s) => seq![d, seq!['<', '-'], s],
        InstructionV::Jmp(l) => seq![seq!['j', 'm', 'p'], l],
        InstructionV::CondJmp(r, c, l) => seq![r, seq!['j', 'm', 'p', c], l],
        InstructionV::Continue => seq![seq!['c', 'o', 'n', 't', 'i', 'n', 'u', 'e']],
    }
}

pub open spec fn instruction_tokens(i: InstructionV) -> Seq<TokenV> {
    match i {
        InstructionV::Clr(r) => seq![TokenV::Clr, TokenV::Ident(r)],
        InstructionV::Del(r) => seq![TokenV::Del, TokenV::Ident(r)],
        InstructionV::Add(r, c) => seq![TokenV::Add(c), TokenV::Ident(r)],
        InstructionV::Copy(d, s) => seq![TokenV::Ident(d), TokenV::Copy, TokenV::Ident(s)],
        InstructionV::Jmp(l) => seq![TokenV::Jmp, TokenV::Ident(l)],
        InstructionV::CondJmp(r, c, l) => seq![TokenV::Ident(r), TokenV::CondJmp(c), TokenV::Ident(l)],
        InstructionV::Continue => seq![TokenV::Continue],
    }
}

pub open spec fn line_words(l: LineV) -> Seq<Seq<char>> {
    match l.label {
        Some(x) => seq![x.push(':')] + instruction_words(l.instruction),
        None => instruction_words(l.instruction),
    }
}

pub open spec fn line_tokens(l: LineV) -> Seq<TokenV> {
    match l.label {
        Some(x) => seq![TokenV::Label(x)] + instruction_tokens(l.instruction),
        None => instruction_tokens(l.instruction),
    }
}

pub open spec fn program_words(p: Seq<LineV>) -> Seq<Seq<char>>
    decreases p.len(),
{
    if p.len() == 0 {
        Seq::empty()
    } else {
        program_words(p.drop_last()) + line_words(p.last())
    }
}

pub open spec fn program_tokens(p: Seq<LineV>) -> Seq<TokenV>
    decreases p.len(),
{
    if p.len() == 0 {
        Seq::empty()
    } else {
        line_tokens(p[0]) + program_tokens(p.drop_first())
    }
}

proof fn lemma_scan_shape(s: Seq<char>)
    ensures
        forall|k: int| 0 <= k < scan(s).0.len() ==> is_word(#[trigger] scan(s).0[k]),
        forall|i: int| 0 <= i < scan(s).1.len() ==> !is_space(#[trigger] scan(s).1[i]),
    decreases s.len(),
{
    if s.len() > 0 {
        lemma_scan_shape(s.drop_last());
        let (d, c) = scan(s.drop_last());
        if !is_space(s.last()) {
            assert forall|i: int| 0 <= i < c.push(s.last()).len() implies !is_space(
                #[trigger] c.push(s.last())[i],
            ) by {
                if i < c.len() {
                    assert(c.push(s.last())[i] == c[i]);
                }
            }
        }
    }
}

proof fn lemma_lex_tokens_ok(s: Seq<char>)
    ensures
        forall|k: int| 0 <= k < lex_spec(s).len() ==> token_ok(#[trigger] lex_spec(s)[k]),
{
    lemma_scan_shape(s);
    let ws = words(s);
    assert forall|k: int| 0 <= k < ws.len() implies is_word(#[trigger] ws[k]) by {
        if k < scan(s).0.len() {
            assert(ws[k] == scan(s).0[k]);
        }
    }
    assert forall|k: int| 0 <= k < lex_spec(s).len() implies token_ok(#[trigger] lex_spec(s)[k]) by {
        let w = ws[k];
        assert(is_word(w));
        assert(lex_spec(s)[k] == classify(w));
        if classify(w) is Label {
            assert(w.drop_last().push(':') =~= w);
        }
        if classify(w) is Add || classify(w) is CondJmp {
            assert(!is_space(w[3]));
        }
    }
}

proof fn lemma_parsed_lines_ok(t: Seq<TokenV>, i: int)
    requires
        forall|k: int| 0 <= k < t.len() ==> token_ok(#[trigger] t[k]),
    ensures
        parse_from(t, i) is Ok ==> forall|k: int|
            0 <= k < parse_from(t, i)->Ok_0.len() ==> line_ok(#[trigger] parse_from(t, i)->Ok_0[k]),
    decreases t.len() - i,
{
    if 0 <= i < t.len() {
        if let Ok((l, k)) = crate::parser::line_at(t, i) {
            if k > i {
                lemma_parsed_lines_ok(t, k);
                if let Ok(ls) = parse_from(t, i) {
                    let rest = parse_from(t, k)->Ok_0;
                    assert(ls == seq![l] + rest);
                    assert(line_ok(l)) by {
                        assert(token_ok(t[i]));
                        let j = if t[i] is Label { i + 1 } else { i };
                        assert(token_ok(t[j]));
                        if j + 1 < t.len() {
                            assert(token_ok(t[j + 1]));
                        }
                        if j + 2 < t.len() {
                            assert(token_ok(t[j + 2]));
                        }
                    }
                    assert forall|m: int| 0 <= m < ls.len() implies line_ok(#[trigger] ls[m]) by {
                        if m > 0 {
                            assert(ls[m] == rest[m - 1]);
                        }
                    }
                }
            }
        }
    }
}

pub open spec fn all_space(s: Seq<char>) -> bool {
    forall|i: int| 0 <= i < s.len() ==> is_space(#[trigger] s[i])
}

pub open spec fn ends_open(s: Seq<char>) -> bool {
    s.len() == 0 || is_space(s.last())
}

proof fn lemma_scan_append(s: Seq<char>, t: Seq<char>)
    requires
        ends_open(s),
    ensures
        scan(s + t) == (words(s) + scan(t).0, scan(t).1),
    decreases t.len(),
{
    if t.len() == 0 {
        assert(s + t =~= s);
        assert(words(s) + Seq::<Seq<char>>::empty() =~= words(s));
    } else {
        assert((s + t).drop_last() =~= s + t.drop_last());
        assert((s + t).last() == t.last());
        lemma_scan_append(s, t.drop_last());
        let (d, c) = scan(t.drop_last());
        assert((words(s) + d).push(c) =~= words(s) + d.push(c));
    }
}

proof fn lemma_words_append(s: Seq<char>, t: Seq<char>)
    requires
        ends_open(s),
    ensures
        words(s + t) == words(s) + words(t),
{
    lemma_scan_append(s, t);
    let (d, c) = scan(t);
    assert((words(s) + d).push(c) =~= words(s) + d.push(c));
}

proof fn lemma_words_of_space(s: Seq<char>)
    requires
        all_space(s),
    ensures
        scan(s) == (Seq::<Seq<char>>::empty(), Seq::<char>::empty()),
        words(s) == Seq::<Seq<char>>::empty(),
    decreases s.len(),
{
    if s.len() > 0 {
        lemma_words_of_space(s.drop_last());
    }
}

proof fn lemma_scan_of_word(w: Seq<char>)
    requires
        forall|i: int| 0 <= i < w.len() ==> !is_space(#[trigger] w[i]),
    ensures
        scan(w) == (Seq::<Seq<char>>::empty(), w),
    decreases w.len(),
{
    if w.len() > 0 {
        lemma_scan_of_word(w.drop_last());
        assert(w.drop_last().push(w.last()) =~= w);
    }
}

proof fn lemma_word_then_space(w: Seq<char>, x: char)
    requires
        is_word(w),
        is_space(x),
    ensures
        words(w.push(x)) == seq![w],
        ends_open(w.push(x)),
{
    lemma_scan_of_word(w);
    assert(w.push(x).drop_last() =~= w);
    assert(Seq::<Seq<char>>::empty().push(w) =~= seq![w]);
}

proof fn lemma_spaces_all_space(n: nat)
    ensures
        spaces(n).len() == n,
        all_space(spaces(n)),
        ends_open(spaces(n)),
    decreases n,
{
    if n > 0 {
        lemma_spaces_all_space((n - 1) as nat);
        assert forall|i: int| 0 <= i < spaces(n).len() implies is_space(#[trigger] spaces(n)[i]) by {
            if i < n - 1 {
                assert(spaces(n)[i] == spaces((n - 1) as nat)[i]);
            }
        }
    }
}

/// Two words, each followed by a space character, give those two words.
proof fn lemma_two_words(a: Seq<char>, b: Seq<char>, x: char, y: char)
    requires
        is_word(a),
        is_word(b),
        is_space(x),
        is_space(y),
    ensures
        words(a.push(x) + b.push(y)) == seq![a, b],
        ends_open(a.push(x) + b.push(y)),
{
    lemma_word_then_space(a, x);
    lemma_word_then_space(b, y);
    lemma_words_append(a.push(x), b.push(y));
    assert(seq![a] + seq![b] =~= seq![a, b]);
}

proof fn lemma_three_words(a: Seq<char>, b: Seq<char>, c: Seq<char>, x: char, y: char, z: char)
    requires
        is_word(a),
        is_word(b),
        is_word(c),
        is_space(x),
        is_space(y),
        is_space(z),
    ensures
        words(a.push(x) + b.push(y) + c.push(z)) == seq![a, b, c],
        ends_open(a.push(x) + b.push(y) + c.push(z)),
{
    lemma_two_words(a, b, x, y);
    lemma_word_then_space(c, z);
    lemma_words_append(a.push(x) + b.push(y), c.push(z));
    assert(seq![a, b] + seq![c] =~= seq![a, b, c]);
}

proof fn lemma_instruction_words(i: InstructionV)
    requires
        instruction_ok(i),
    ensures
        words(instruction_text(i) + seq!['\n']) == instruction_words(i),
        ends_open(instruction_text(i) + seq!['\n']),
{
    let nl = '\n';
    let sp = ' ';
    match i {
        InstructionV::Clr(r) => {
            let k = seq!['c', 'l', 'r'];
            assert(instruction_text(i) + seq![nl] =~= k.push(sp) + r.push(nl));
            lemma_two_words(k, r, sp, nl);
        },
        InstructionV::Del(r) => {
            let k = seq!['d', 'e', 'l'];
            assert(instruction_text(i) + seq![nl] =~= k.push(sp) + r.push(nl));
            lemma_two_words(k, r, sp, nl);
        },
        InstructionV::Add(r, c) => {
            let k = seq!['a', 'd', 'd', c];
            assert(instruction_text(i) + seq![nl] =~= k.push(sp) + r.push(nl));
            lemma_two_words(k, r, sp, nl);
        },
        InstructionV::Copy(d, s) => {
            let k = seq!['<', '-'];
            assert(instruction_text(i) + seq![nl] =~= d.push(sp) + k.push(sp) + s.push(nl));
            lemma_three_words(d, k, s, sp, sp, nl);
        },
        InstructionV::Jmp(l) => {
            let k = seq!['j', 'm', 'p'];
            assert(instruction_text(i) + seq![nl] =~= k.push(sp) + l.push(nl));
            lemma_two_words(k, l, sp, nl);
        },
        InstructionV::CondJmp(r, c, l) => {
            let k = seq!['j', 'm', 'p', c];
            assert(instruction_text(i) + seq![nl] =~= r.push(sp) + k.push(sp) + l.push(nl));
            lemma_three_words(r, k, l, sp, sp, nl);
        },
        InstructionV::Continue => {
            let k = seq!['c', 'o', 'n', 't', 'i', 'n', 'u', 'e'];
            assert(instruction_text(i) + seq![nl] =~= k.push(nl));
            lemma_word_then_space(k, nl);
        },
    }
}

proof fn lemma_render_words(p: Seq<LineV>)
    requires
        forall|k: int| 0 <= k < p.len() ==> line_ok(#[trigger] p[k]),
    ensures
        words(render(p).0) == program_words(p),
        ends_open(render(p).0),
    decreases p.len(),
{
    if p.len() == 0 {
        lemma_words_of_space(Seq::<char>::empty());
    } else {
        let q = p.drop_last();
        assert forall|k: int| 0 <= k < q.len() implies line_ok(#[trigger] q[k]) by {
            assert(q[k] == p[k]);
        }
        lemma_render_words(q);
        let (t, indent) = render(q);
        let l = p.last();
        assert(line_ok(p[p.len() - 1]));
        lemma_instruction_words(l.instruction);
        let body = instruction_text(l.instruction) + seq!['\n'];
        match l.label {
            Some(name) => {
                let pre: Seq<char> = if indent is Some { seq!['\n'] } else { Seq::empty() };
                let w = name.push(':');
                assert(render(p).0 =~= t + (pre + (w.push(' ') + body)));
                lemma_word_then_space(w, ' ');
                lemma_words_append(w.push(' '), body);
                assert(all_space(pre));
                lemma_words_of_space(pre);
                lemma_words_append(pre, w.push(' ') + body);
                lemma_words_append(t, pre + (w.push(' ') + body));
                assert(Seq::<Seq<char>>::empty() + (seq![w] + instruction_words(l.instruction))
                    =~= line_words(l));
            },
            None => {
                let n: nat = match indent {
                    Some(n) => n,
                    None => 0,
                };
                assert(render(p).0 =~= t + (spaces(n) + body));
                lemma_spaces_all_space(n);
                lemma_words_of_space(spaces(n));
                lemma_words_append(spaces(n), body);
                lemma_words_append(t, spaces(n) + body);
                assert(Seq::<Seq<char>>::empty() + instruction_words(l.instruction)
                    =~= line_words(l));
            },
        }
        assert(render(p).0.last() == '\n');
    }
}

proof fn lemma_line_classify(l: LineV)
    requires
        line_ok(l),
    ensures
        line_words(l).map_values(|w: Seq<char>| classify(w)) == line_tokens(l),
{
    let iw = instruction_words(l.instruction);
    let it = instruction_tokens(l.instruction);
    match l.instruction {
        InstructionV::Add(r, c) => {
            let k = seq!['a', 'd', 'd', c];
            assert(k.take(3) =~= seq!['a', 'd', 'd']);
            assert(k[0] != seq!['j', 'm', 'p'][0]);
            assert(k.take(3) != seq!['j', 'm', 'p']);
            assert(k.len() == 4);
            assert(k[3] == c);
        },
        InstructionV::CondJmp(r, c, lb) => {
            let k = seq!['j', 'm', 'p', c];
            assert(k.take(3) =~= seq!['j', 'm', 'p']);
            assert(k.len() == 4);
            assert(k[3] == c);
        },
        InstructionV::Clr(r) => {
            assert(seq!['c', 'l', 'r'] =~= crate::lexer::kw_clr());
        },
        InstructionV::Del(r) => {
            assert(seq!['d', 'e', 'l'] =~= crate::lexer::kw_del());
            assert(seq!['d', 'e', 'l'] != crate::lexer::kw_clr());
        },
        InstructionV::Jmp(lb) => {
            assert(seq!['j', 'm', 'p'] =~= crate::lexer::kw_jmp());
            assert(seq!['j', 'm', 'p'][0] != crate::lexer::kw_clr()[0]);
            assert(seq!['j', 'm', 'p'][0] != crate::lexer::kw_del()[0]);
        },
        InstructionV::Copy(d, sr) => {
            assert(seq!['<', '-'] =~= crate::lexer::kw_copy());
            assert(seq!['<', '-'][0] != crate::lexer::kw_clr()[0]);
            assert(seq!['<', '-'][0] != crate::lexer::kw_del()[0]);
        },
        InstructionV::Continue => {
            assert(seq!['c', 'o', 'n', 't', 'i', 'n', 'u', 'e'] =~= crate::lexer::kw_continue());
        },
    }
    assert(iw.map_values(|w: Seq<char>| classify(w)) =~= it);
    match l.label {
        Some(x) => {
            assert(line_words(l).map_values(|w: Seq<char>| classify(w))
                =~= seq![classify(x.push(':'))] + iw.map_values(|w: Seq<char>| classify(w)));
        },
        None => {},
    }
}

proof fn lemma_program_tokens_push(q: Seq<LineV>, l: LineV)
    ensures
        program_tokens(q.push(l)) == program_tokens(q) + line_tokens(l),
    decreases q.len(),
{
    if q.len() == 0 {
        assert(q.push(l).drop_first() =~= Seq::<LineV>::empty());
        assert(q.push(l)[0] == l);
        assert(program_tokens(Seq::<LineV>::empty()) == Seq::<TokenV>::empty());
        assert(program_tokens(q) == Seq::<TokenV>::empty());
        assert(line_tokens(l) + Seq::<TokenV>::empty() =~= line_tokens(l));
        assert(Seq::<TokenV>::empty() + line_tokens(l) =~= line_tokens(l));
    } else {
        assert(q.push(l).drop_first() =~= q.drop_first().push(l));
        assert(q.push(l)[0] == q[0]);
        lemma_program_tokens_push(q.drop_first(), l);
        assert(line_tokens(q[0]) + (program_tokens(q.drop_first()) + line_tokens(l))
            =~= (line_tokens(q[0]) + program_tokens(q.drop_first())) + line_tokens(l));
    }
}

proof fn lemma_program_classify(p: Seq<LineV>)
    requires
        forall|k: int| 0 <= k < p.len() ==> line_ok(#[trigger] p[k]),
    ensures
        program_words(p).map_values(|w: Seq<char>| classify(w)) == program_tokens(p),
    decreases p.len(),
{
    if p.len() > 0 {
        let q = p.drop_last();
        assert forall|k: int| 0 <= k < q.len() implies line_ok(#[trigger] q[k]) by {
            assert(q[k] == p[k]);
        }
        lemma_program_classify(q);
        assert(line_ok(p[p.len() - 1]));
        lemma_line_classify(p.last());
        lemma_program_tokens_push(q, p.last());
        assert(q.push(p.last()) =~= p);
        assert(program_words(p).map_values(|w: Seq<char>| classify(w)) =~= program_words(q).map_values(
            |w: Seq<char>| classify(w),
        ) + line_words(p.last()).map_values(|w: Seq<char>| classify(w)));
    } else {
        assert(program_words(p).map_values(|w: Seq<char>| classify(w)) =~= program_tokens(p));
    }
}

proof fn lemma_line_parse(a: Seq<TokenV>, l: LineV, r: Seq<TokenV>)
    requires
        line_ok(l),
    ensures
        crate::parser::line_at(a + line_tokens(l) + r, a.len() as int) == Ok::<(LineV, int), crate::parser::ParseErrorV>((l, (a.len() + line_tokens(l).len()) as int)),
{
    let t = a + line_tokens(l) + r;
    let lt = line_tokens(l);
    let n = a.len() as int;
    assert forall|k: int| 0 <= k < lt.len() implies t[n + k] == lt[k] by {}
    let it = instruction_tokens(l.instruction);
    let j = if l.label is Some { n + 1 } else { n };
    assert forall|k: int| 0 <= k < it.len() implies t[j + k] == it[k] by {
        if l.label is Some {
            assert(lt[k + 1] == it[k]);
            assert(t[n + (k + 1)] == lt[k + 1]);
        } else {
            assert(lt[k] == it[k]);
        }
    }
    assert(t.len() >= j + it.len());
    match l.label {
        Some(x) => {
            assert(lt[0] == TokenV::Label(x));
            assert(t[n] == TokenV::Label(x));
        },
        None => {
            assert(it[0] is Ident || !(it[0] is Label));
        },
    }
    match l.instruction {
        InstructionV::Copy(d, sr) => {
            assert(t[j] == TokenV::Ident(d));
            assert(t[j + 1] == TokenV::Copy);
            assert(t[j + 2] == TokenV::Ident(sr));
        },
        InstructionV::CondJmp(rg, c, lb) => {
            assert(t[j] == TokenV::Ident(rg));
            assert(t[j + 1] == TokenV::CondJmp(c));
            assert(t[j + 2] == TokenV::Ident(lb));
        },
        InstructionV::Continue => {
            assert(t[j] == TokenV::Continue);
        },
        _ => {
            assert(t[j] == it[0]);
            assert(t[j + 1] == it[1]);
        },
    }
}

proof fn lemma_parse_program(a: Seq<TokenV>, p: Seq<LineV>)
    requires
        forall|k: int| 0 <= k < p.len() ==> line_ok(#[trigger] p[k]),
    ensures
        parse_from(a + program_tokens(p), a.len() as int) == Ok::<Seq<LineV>, crate::parser::ParseErrorV>(p),
    decreases p.len(),
{
    if p.len() == 0 {
        assert(p =~= Seq::<LineV>::empty());
    } else {
        let q = p.drop_first();
        let lt = line_tokens(p[0]);
        assert(line_ok(p[0]));
        assert forall|k: int| 0 <= k < q.len() implies line_ok(#[trigger] q[k]) by {
            assert(q[k] == p[k + 1]);
        }
        let t = a + program_tokens(p);
        assert(t =~= a + lt + program_tokens(q));
        lemma_line_parse(a, p[0], program_tokens(q));
        assert(t =~= (a + lt) + program_tokens(q));
        lemma_parse_program(a + lt, q);
        assert(seq![p[0]] + q =~= p);
    }
}

/// Formatting a parsed program and parsing the formatted text again gives
/// the same program, label for label and instruction for instruction.
pub proof fn lemma_format_round_trip(s: Seq<char>, p: Seq<LineV>)
    requires
        parse_spec(lex_spec(s)) == Ok::<Seq<LineV>, crate::parser::ParseErrorV>(p),
    ensures
        parse_spec(lex_spec(format_spec(p))) == Ok::<Seq<LineV>, crate::parser::ParseErrorV>(p),
{
    lemma_lex_tokens_ok(s);
    lemma_parsed_lines_ok(lex_spec(s), 0);
    assert(parse_from(lex_spec(s), 0) == Ok::<Seq<LineV>, crate::parser::ParseErrorV>(p));
    let ls = parse_from(lex_spec(s), 0)->Ok_0;
    assert(ls == p);
    assert forall|k: int| 0 <= k < p.len() implies line_ok(#[trigger] p[k]) by {
        assert(line_ok(ls[k]));
    }
    lemma_render_words(p);
    lemma_program_classify(p);
    lemma_parse_program(Seq::empty(), p);
    assert(Seq::<TokenV>::empty() + program_tokens(p) =~= program_tokens(p));
}

} // verus!
