use queuevm::{
    format_text, lex, parse, run, run_bounded, run_text, Instruction, Line, Operation,
    ParseError, ProgramError, Registers, RuntimeError, Token, render_output,
};

fn regs(pairs: &[(&str, &str)]) -> Registers {
    let mut r = Registers::new();
    for (k, v) in pairs {
        r.insert(k.to_string(), v);
    }
    r
}

fn value(r: &Registers, name: &str) -> Option<String> {
    r.get(&name.to_string()).map(|q| q.into_iter().collect())
}

fn program(text: &str) -> Vec<Line> {
    parse(lex(text)).unwrap()
}

#[test]
fn overrun_without_halt() {
    let r = run_text("add0 a add1 a add0 a", Registers::new());
    assert!(matches!(r, Err(ProgramError::Runtime(RuntimeError::ProgramOverrun))));
}

#[test]
fn loop_with_clear_halts() {
    // `a jmp1 end` sees the front `1` at once, so the jump to `end` is taken
    // before `clr a` runs: `a` ends holding "1".
    let r = run_text("start: add1 a a jmp1 end clr a jmp start end: continue", Registers::new())
        .unwrap();
    assert_eq!(value(&r, "a"), Some("1".to_string()));
}

#[test]
fn clear_removes_initial_register() {
    let r = run_text("clr a continue", regs(&[("a", "xyz")])).unwrap();
    assert_eq!(value(&r, "a"), None);
    assert!(!r.contains(&"a".to_string()));
}

#[test]
fn copy_register() {
    let r = run_text("b <- a continue", regs(&[("a", "hi")])).unwrap();
    assert_eq!(value(&r, "a"), Some("hi".to_string()));
    assert_eq!(value(&r, "b"), Some("hi".to_string()));
}

#[test]
fn conditional_jump_does_not_consume() {
    let r = run_text("loop: a jmp1 done add0 a jmp loop done: continue", regs(&[("a", "1")]))
        .unwrap();
    assert_eq!(value(&r, "a"), Some("1".to_string()));
}

#[test]
fn conditional_jump_falls_through() {
    let r = run_text("a jmp1 done add0 a continue done: del a continue", regs(&[("a", "x")]))
        .unwrap();
    assert_eq!(value(&r, "a"), Some("x0".to_string()));
}

#[test]
fn delete_absent_register_fails() {
    let r = run_text("del q continue", Registers::new());
    assert_eq!(r.err(), Some(ProgramError::Runtime(RuntimeError::EmptyRegister("q".to_string()))));
}

#[test]
fn delete_empty_register_fails() {
    let r = run_text("b <- a del b continue", Registers::new());
    assert_eq!(r.err(), Some(ProgramError::Runtime(RuntimeError::EmptyRegister("b".to_string()))));
}

#[test]
fn append_then_delete_leaves_empty() {
    let r = run_text("add7 a del a continue", Registers::new()).unwrap();
    assert_eq!(value(&r, "a"), Some(String::new()));
}

#[test]
fn delete_removes_front() {
    let r = run_text("del a continue", regs(&[("a", "abc")])).unwrap();
    assert_eq!(value(&r, "a"), Some("bc".to_string()));
}

#[test]
fn copy_of_absent_is_empty_but_present() {
    let r = run_text("b <- zz continue", Registers::new()).unwrap();
    assert!(r.contains(&"b".to_string()));
    assert_eq!(value(&r, "b"), Some(String::new()));
    assert!(!r.contains(&"zz".to_string()));
}

#[test]
fn clear_then_append_starts_fresh() {
    let r = run_text("clr a add9 a continue", regs(&[("a", "xyz")])).unwrap();
    assert_eq!(value(&r, "a"), Some("9".to_string()));
}

#[test]
fn unknown_label_fails() {
    let r = run_text("jmp nowhere continue", Registers::new());
    assert_eq!(r.err(), Some(ProgramError::Runtime(RuntimeError::UnknownLabel("nowhere".to_string()))));
}

#[test]
fn untaken_jump_to_unknown_label_is_fine() {
    let r = run_text("a jmpx nowhere continue", Registers::new()).unwrap();
    assert!(!r.contains(&"a".to_string()));
}

#[test]
fn duplicate_label_last_wins() {
    let r = run_text("jmp l l: add1 a continue l: add2 a continue", Registers::new()).unwrap();
    assert_eq!(value(&r, "a"), Some("2".to_string()));
}

#[test]
fn step_limit_stops_endless_loop() {
    let r = run_bounded(program("l: jmp l"), Registers::new(), 1000);
    assert_eq!(r.err(), Some(RuntimeError::StepLimitReached));
}

#[test]
fn bounded_run_that_halts_in_time() {
    let r = run_bounded(program("add1 a continue"), Registers::new(), 2).unwrap();
    assert_eq!(value(&r, "a"), Some("1".to_string()));
    let r = run_bounded(program("add1 a continue"), Registers::new(), 1);
    assert_eq!(r.err(), Some(RuntimeError::StepLimitReached));
}

#[test]
fn run_on_parsed_program() {
    let r = run(program("add4 x add2 x del x continue"), Registers::new()).unwrap();
    assert_eq!(value(&r, "x"), Some("2".to_string()));
}

#[test]
fn empty_program_overruns() {
    let r = run(Vec::new(), Registers::new());
    assert_eq!(r.err(), Some(RuntimeError::ProgramOverrun));
}

#[test]
fn lex_classifies_words() {
    let t = lex("  clr del\t<- jmp continue\njmpx addy lbl: name jmpxy add :");
    assert_eq!(
        t,
        vec![
            Token::Clr,
            Token::Del,
            Token::Copy,
            Token::Jmp,
            Token::Continue,
            Token::CondJmp('x'),
            Token::Add('y'),
            Token::Label("lbl".to_string()),
            Token::Ident("name".to_string()),
            Token::Ident("jmpxy".to_string()),
            Token::Ident("add".to_string()),
            Token::Label(String::new()),
        ]
    );
}

#[test]
fn lex_counts_characters_not_bytes() {
    assert_eq!(lex("jmpé addλ"), vec![Token::CondJmp('é'), Token::Add('λ')]);
}

#[test]
fn lex_keyword_forms_win_over_labels() {
    assert_eq!(lex("jmp: add:"), vec![Token::CondJmp(':'), Token::Add(':')]);
}

#[test]
fn lex_empty_and_blank() {
    assert!(lex("").is_empty());
    assert!(lex(" \n\t\u{3000} ").is_empty());
}

#[test]
fn parse_all_forms() {
    let p = program("x: clr a del b add1 c d <- e jmp x f jmp2 x continue");
    let want = vec![
        Line { label: Some("x".to_string()), instruction: Instruction::Clr("a".to_string()) },
        Line { label: None, instruction: Instruction::Del("b".to_string()) },
        Line { label: None, instruction: Instruction::Add("c".to_string(), '1') },
        Line { label: None, instruction: Instruction::Copy("d".to_string(), "e".to_string()) },
        Line { label: None, instruction: Instruction::Jmp("x".to_string()) },
        Line {
            label: None,
            instruction: Instruction::CondJmp("f".to_string(), '2', "x".to_string()),
        },
        Line { label: None, instruction: Instruction::Continue },
    ];
    assert_eq!(p, want);
}

#[test]
fn parse_empty() {
    assert_eq!(parse(Vec::new()), Ok(Vec::new()));
}

#[test]
fn parse_label_without_instruction() {
    assert_eq!(parse(lex("continue end:")), Err(ParseError::LabelWithoutInstruction));
}

#[test]
fn parse_identifier_at_end() {
    assert_eq!(parse(lex("continue a")), Err(ParseError::MissingOperator));
}

#[test]
fn parse_unexpected_tokens() {
    assert_eq!(parse(lex("<- a")), Err(ParseError::UnexpectedToken(Token::Copy)));
    assert_eq!(parse(lex("jmp1 a")), Err(ParseError::UnexpectedToken(Token::CondJmp('1'))));
    assert_eq!(
        parse(lex("a: b: continue")),
        Err(ParseError::UnexpectedToken(Token::Label("b".to_string())))
    );
    assert_eq!(parse(lex("a clr")), Err(ParseError::UnexpectedToken(Token::Clr)));
}

#[test]
fn parse_missing_operands() {
    assert_eq!(parse(lex("clr")), Err(ParseError::MissingOperand(Operation::Clear)));
    assert_eq!(parse(lex("del continue")), Err(ParseError::MissingOperand(Operation::Delete)));
    assert_eq!(parse(lex("add1")), Err(ParseError::MissingOperand(Operation::Append)));
    assert_eq!(parse(lex("a <- clr")), Err(ParseError::MissingOperand(Operation::Copy)));
    assert_eq!(parse(lex("jmp")), Err(ParseError::MissingOperand(Operation::Jump)));
    assert_eq!(
        parse(lex("a jmp1 continue")),
        Err(ParseError::MissingOperand(Operation::ConditionalJump))
    );
}

#[test]
fn parse_error_surfaces_from_run_text() {
    let r = run_text("clr", Registers::new());
    assert_eq!(r.err(), Some(ProgramError::Parse(ParseError::MissingOperand(Operation::Clear))));
}

#[test]
fn format_canonical_text() {
    let text = queuevm::pretty::format(program("start: add1 a a jmp1 end clr a b <- a del b jmp start end: continue"));
    assert_eq!(
        text,
        "start: add1 a\n       a jmp1 end\n       clr a\n       b <- a\n       del b\n       jmp start\n\nend: continue\n"
    );
}

#[test]
fn format_without_labels() {
    assert_eq!(queuevm::pretty::format(program("clr a continue")), "clr a\ncontinue\n");
    assert_eq!(queuevm::pretty::format(Vec::new()), "");
}

#[test]
fn format_text_reports_parse_errors() {
    assert_eq!(format_text("a: "), Err(ParseError::LabelWithoutInstruction));
    assert_eq!(format_text("x   <-\ny"), Ok("x <- y\n".to_string()));
}

#[test]
fn format_then_parse_round_trip() {
    let texts = [
        "start: add1 a a jmp1 end clr a jmp start end: continue",
        "loop: a jmp1 done add0 a jmp loop done: continue",
        "b <- a x: del b : é jmpé é continue",
    ];
    for t in texts {
        let p = program(t);
        let again = program(&queuevm::pretty::format(p.clone()));
        assert_eq!(again, p);
    }
}

#[test]
fn registers_insert_replaces() {
    let mut r = regs(&[("a", "one"), ("b", "")]);
    r.insert("a".to_string(), "two");
    assert_eq!(value(&r, "a"), Some("two".to_string()));
    assert_eq!(value(&r, "b"), Some(String::new()));
    assert_eq!(r.entries().len(), 2);
    r.remove(&"a".to_string());
    assert_eq!(value(&r, "a"), None);
    assert_eq!(r.entries(), vec![("b".to_string(), std::collections::VecDeque::new())]);
}

#[test]
fn output_of_copy_lists_both_registers() {
    let r = run_text("b <- a continue", regs(&[("a", "hi")])).unwrap();
    assert_eq!(render_output(&r), "a: hi\nb: hi\n");
}

#[test]
fn output_omits_cleared_and_empty_registers() {
    let r = run_text("clr a continue", regs(&[("a", "xyz")])).unwrap();
    assert_eq!(render_output(&r), "");
    let r = run_text("c <- none continue", regs(&[("b", "2")])).unwrap();
    assert_eq!(render_output(&r), "b: 2\n");
}

#[test]
fn output_sorted_by_name() {
    let r = regs(&[("zeta", "1"), ("a", "2"), ("ab", "3"), ("B", "4"), ("é", "5"), ("e", "")]);
    assert_eq!(render_output(&r), "B: 4\na: 2\nab: 3\nzeta: 1\né: 5\n");
    let names: Vec<String> = r.nonempty_sorted().into_iter().map(|(n, _)| n).collect();
    assert_eq!(names, vec!["B", "a", "ab", "zeta", "é"]);
}

#[test]
fn name_order_matches_string_order() {
    let words = ["", "a", "ab", "b", "B", "é", "z", "aa", "a b"];
    for x in words {
        for y in words {
            let (x, y) = (x.to_string(), y.to_string());
            assert_eq!(queuevm::registers::name_less(&x, &y), x < y);
        }
    }
}

#[test]
fn lex_splits_on_unicode_white_space() {
    assert_eq!(
        lex("clr\u{2003}a\u{85}continue\u{a0}x"),
        vec![
            Token::Clr,
            Token::Ident("a".to_string()),
            Token::Continue,
            Token::Ident("x".to_string()),
        ]
    );
}

#[test]
fn jump_table_records_labels() {
    let p = program("a: clr x b: continue a: continue");
    let t = queuevm::JumpTable::build(&p);
    assert_eq!(t.find(&"a".to_string()), Some(2));
    assert_eq!(t.find(&"b".to_string()), Some(1));
    assert_eq!(t.find(&"c".to_string()), None);
}

#[test]
fn format_indents_by_widest_label() {
    let p = program("long: clr a b: clr a del a");
    assert_eq!(queuevm::pretty::format(p), "long: clr a\n\nb: clr a\n      del a\n");
    let p = program("x: clr a del a longer: continue jmp x");
    assert_eq!(
        queuevm::pretty::format(p),
        "x: clr a\n   del a\n\nlonger: continue\n        jmp x\n"
    );
}

#[test]
fn overrun_reported_when_budget_ends_past_last_line() {
    let r = run_bounded(program("add1 a"), Registers::new(), 1);
    assert_eq!(r.err(), Some(RuntimeError::ProgramOverrun));
    let r = run_bounded(Vec::new(), Registers::new(), 0);
    assert_eq!(r.err(), Some(RuntimeError::ProgramOverrun));
}
