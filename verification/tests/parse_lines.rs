use fal::parser::{
    parse_operand, parse_storeroom_offset, parse_tray_index, sanitize_name, ConditionOp,
    Instruction, Operand, Parser, StoreroomOffset,
};

#[test]
fn blank_and_comment_lines_give_nothing() {
    assert_eq!(Parser::parse_line(""), None);
    assert_eq!(Parser::parse_line("    "), None);
    assert_eq!(Parser::parse_line("// a note"), None);
    assert_eq!(Parser::parse_line("   # another note"), None);
    assert_eq!(Parser::try_parse_line("// a note"), Some(None));
}

#[test]
fn inline_comments_are_dropped() {
    assert_eq!(
        Parser::parse_line("tray1 = 10 // set up"),
        Some(Instruction::Fill { val: 10, tray: 0 })
    );
    assert_eq!(
        Parser::parse_line("tray2 = -7 # down"),
        Some(Instruction::Fill { val: -7, tray: 1 })
    );
}

#[test]
fn surrounding_space_does_not_matter() {
    assert_eq!(Parser::parse_line("  \ttray1 = 3  "), Parser::parse_line("tray1 = 3"));
    assert_eq!(Parser::parse_line("  say tray2 "), Parser::parse_line("say tray2"));
}

#[test]
fn workstations_and_routing() {
    assert_eq!(
        Parser::parse_line("workstation \"main\":"),
        Some(Instruction::Workstation { name: "main".to_string() })
    );
    assert_eq!(Parser::parse_line("end"), Some(Instruction::EndWorkstation));
    assert_eq!(Parser::parse_line("EndWorkstation"), Some(Instruction::EndWorkstation));
    assert_eq!(
        Parser::parse_line("call workstation \"inspect_quality\""),
        Some(Instruction::Call { workstation: "inspect_quality".to_string() })
    );
    assert_eq!(Parser::parse_line("return tray3"), Some(Instruction::Return { tray: Some(2) }));
    assert_eq!(Parser::parse_line("ret"), Some(Instruction::Return { tray: None }));
    assert_eq!(Parser::parse_line("jump loop"), Some(Instruction::Jump { target: "loop".to_string() }));
    assert_eq!(
        Parser::parse_line("je done"),
        Some(Instruction::JumpIfEqual { target: "done".to_string() })
    );
    assert_eq!(
        Parser::parse_line("jne again"),
        Some(Instruction::JumpIfNotEqual { target: "again".to_string() })
    );
    assert_eq!(
        Parser::parse_line("jump_if_greater big"),
        Some(Instruction::JumpIfGreater { target: "big".to_string() })
    );
    assert_eq!(
        Parser::parse_line("jl \"small\""),
        Some(Instruction::JumpIfLess { target: "small".to_string() })
    );
}

#[test]
fn supervisor_calls() {
    assert_eq!(
        Parser::parse_line("call_supervisor exit"),
        Some(Instruction::CallSupervisor { action: "exit".to_string(), tray: None })
    );
    assert_eq!(
        Parser::parse_line("call supervisor PRINT tray2"),
        Some(Instruction::CallSupervisor { action: "print".to_string(), tray: Some(1) })
    );
    assert_eq!(
        Parser::parse_line("call_supervisor"),
        Some(Instruction::CallSupervisor { action: "default".to_string(), tray: None })
    );
}

#[test]
fn moves_fills_and_clears() {
    assert_eq!(
        Parser::parse_line("move tray1 to tray2"),
        Some(Instruction::Move { src_tray: 0, dst_tray: 1 })
    );
    assert_eq!(Parser::parse_line("copy 7 to tray3"), Some(Instruction::Fill { val: 7, tray: 2 }));
    assert_eq!(
        Parser::parse_line("move \"ab\" to tray4"),
        Some(Instruction::AssignString { text: "ab".to_string(), tray: 3 })
    );
    assert_eq!(Parser::parse_line("move x to tray4"), None);
    assert_eq!(Parser::parse_line("fill 5 into tray2"), Some(Instruction::Fill { val: 5, tray: 1 }));
    assert_eq!(Parser::parse_line("fill x into tray2"), Some(Instruction::Fill { val: 0, tray: 1 }));
    assert_eq!(Parser::parse_line("clear tray3"), Some(Instruction::Clear { tray: 2 }));
    assert_eq!(Parser::parse_line("Tray2 = 5"), Some(Instruction::Fill { val: 5, tray: 1 }));
    assert_eq!(Parser::parse_line("tray1 = 'ab'"), Some(Instruction::AssignChar { val: 'a', tray: 0 }));
}

#[test]
fn comparisons_and_random() {
    assert_eq!(
        Parser::parse_line("compare tray1 with 10"),
        Some(Instruction::Compare { tray_a: 0, val_b: Operand::Number(10) })
    );
    assert_eq!(
        Parser::parse_line("random tray1"),
        Some(Instruction::Random { max: Operand::Number(100), tray: 0 })
    );
    assert_eq!(
        Parser::parse_line("random tray2 50"),
        Some(Instruction::Random { max: Operand::Number(50), tray: 1 })
    );
    assert_eq!(
        Parser::parse_line("fetch storeroom[tray3] into tray1"),
        Some(Instruction::Load { offset: StoreroomOffset::Dynamic(2), tray: 0 })
    );
}

#[test]
fn input_and_output_spellings() {
    assert_eq!(
        Parser::parse_line("say \"Hi there\""),
        Some(Instruction::SayLiteral { text: "Hi there".to_string() })
    );
    assert_eq!(Parser::parse_line("say number tray2"), Some(Instruction::SayNumber { tray: 1 }));
    assert_eq!(Parser::parse_line("listen tray5"), Some(Instruction::AskNumber { tray: 4 }));
    assert_eq!(Parser::parse_line("ask char tray1"), Some(Instruction::AskChar { tray: 0 }));
    assert_eq!(Parser::parse_line("input_text tray2"), Some(Instruction::AskString { tray: 1 }));
}

#[test]
fn inline_conditions_with_other_instructions() {
    assert_eq!(
        Parser::parse_line("if tray1 > 5 then jump end_loop"),
        Some(Instruction::InlineIf {
            tray: 0,
            op: ConditionOp::Greater,
            target_val: Operand::Number(5),
            then_inst: Box::new(Instruction::Jump { target: "end_loop".to_string() }),
        })
    );
    assert_eq!(
        Parser::parse_line("IF tray3 >= tray1 then ret"),
        Some(Instruction::InlineIf {
            tray: 2,
            op: ConditionOp::GreaterEqual,
            target_val: Operand::Tray(0),
            then_inst: Box::new(Instruction::Return { tray: None }),
        })
    );
}

#[test]
fn unknown_words_give_nothing() {
    assert_eq!(Parser::parse_line("dance tray1"), None);
    assert_eq!(Parser::try_parse_line("dance tray1"), Some(None));
}

#[test]
fn a_line_that_cannot_be_sliced_is_refused() {
    assert_eq!(Parser::try_parse_line("if then tray1 = 1"), None);
    assert_eq!(Parser::parse_line("if then tray1 = 1"), None);
}

#[test]
fn tray_numbers_are_one_based() {
    assert_eq!(parse_tray_index("tray1"), 0);
    assert_eq!(parse_tray_index("tray7"), 6);
    assert_eq!(parse_tray_index("tray12,"), 11);
    assert_eq!(parse_tray_index("tray0"), 0);
    assert_eq!(parse_tray_index("trayX"), 0);
}

#[test]
fn names_lose_their_quotes_and_colons() {
    assert_eq!(sanitize_name("  \"main\": "), "main");
    assert_eq!(sanitize_name("'loop';"), "loop");
    assert_eq!(sanitize_name("plain"), "plain");
}

#[test]
fn operands_of_every_kind() {
    assert_eq!(parse_operand("tray3"), Operand::Tray(2));
    assert_eq!(parse_operand("'x'"), Operand::Char('x'));
    assert_eq!(parse_operand("\"hi\""), Operand::StringLit("hi".to_string()));
    assert_eq!(parse_operand(" -42 "), Operand::Number(-42));
    assert_eq!(parse_operand("abc"), Operand::Number(0));
}

#[test]
fn storeroom_offsets() {
    assert_eq!(parse_storeroom_offset("[7]"), StoreroomOffset::Fixed(7));
    assert_eq!(parse_storeroom_offset("storeroom[tray4]"), StoreroomOffset::Dynamic(3));
    assert_eq!(parse_storeroom_offset("12"), StoreroomOffset::Fixed(12));
    assert_eq!(parse_storeroom_offset("]x["), StoreroomOffset::Fixed(0));
}

#[test]
fn cloned_instructions_are_equal() {
    let inst = Parser::parse_line("if tray2 == 'q' then say \"yes\"").unwrap();
    assert_eq!(inst.clone(), inst);
}

#[test]
fn a_trailing_comment_leaves_the_meaning() {
    for code in ["tray1 = 5", "add 50 to tray1", "say \"hi\"", "   ", "if tray1 > 2 then ret"] {
        for c in ["note", "", "more words"] {
            assert_eq!(Parser::parse_line(&format!("{} // {}", code, c)), Parser::parse_line(code));
            assert_eq!(Parser::parse_line(&format!("{} # {}", code, c)), Parser::parse_line(code));
        }
    }
}

#[test]
fn keywords_ignore_ascii_case() {
    assert_eq!(
        Parser::parse_line("ADD 50 TO tray1"),
        Some(Instruction::Add { src: Operand::Number(50), dst_tray: 0 })
    );
    assert_eq!(Parser::parse_line("Say_Number TRAY2"), Some(Instruction::SayNumber { tray: 1 }));
}
