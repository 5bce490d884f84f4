use fal::parser::{ConditionOp, Instruction, Operand, Parser, StoreroomOffset};

#[test]
fn test_parse_string_assignment() {
    let inst = Parser::parse_line("tray4 = \"Hello, World!\"").unwrap();
    assert_eq!(
        inst,
        Instruction::AssignString {
            text: "Hello, World!".to_string(),
            tray: 3,
        }
    );
}

#[test]
fn test_parse_char_assignment() {
    let inst = Parser::parse_line("tray2 = '8'").unwrap();
    assert_eq!(
        inst,
        Instruction::AssignChar {
            val: '8',
            tray: 1,
        }
    );
}

#[test]
fn test_parse_inline_conditional() {
    let inst = Parser::parse_line("if tray2 == '8' then tray4 = \"Hello, World!\"").unwrap();
    assert_eq!(
        inst,
        Instruction::InlineIf {
            tray: 1,
            op: ConditionOp::Equal,
            target_val: Operand::Char('8'),
            then_inst: Box::new(Instruction::AssignString {
                text: "Hello, World!".to_string(),
                tray: 3,
            }),
        }
    );
}

#[test]
fn test_parse_storeroom_and_math() {
    let inst1 = Parser::parse_line("store tray1 into storeroom[0]").unwrap();
    assert_eq!(inst1, Instruction::Store { tray: 0, offset: StoreroomOffset::Fixed(0) });

    let inst1_dyn = Parser::parse_line("store tray1 into storeroom[tray2]").unwrap();
    assert_eq!(inst1_dyn, Instruction::Store { tray: 0, offset: StoreroomOffset::Dynamic(1) });

    let inst2 = Parser::parse_line("load storeroom[5] into tray3").unwrap();
    assert_eq!(inst2, Instruction::Load { offset: StoreroomOffset::Fixed(5), tray: 2 });

    let inst3 = Parser::parse_line("add 50 to tray1").unwrap();
    assert_eq!(inst3, Instruction::Add { src: Operand::Number(50), dst_tray: 0 });

    let inst4 = Parser::parse_line("sub 15 from tray1").unwrap();
    assert_eq!(inst4, Instruction::Sub { src: Operand::Number(15), dst_tray: 0 });

    let inst5 = Parser::parse_line("multiply tray1 by 3").unwrap();
    assert_eq!(inst5, Instruction::Multiply { src: Operand::Number(3), dst_tray: 0 });

    let inst6 = Parser::parse_line("divide tray1 by 2").unwrap();
    assert_eq!(inst6, Instruction::Divide { src: Operand::Number(2), dst_tray: 0 });

    let inst_mod = Parser::parse_line("modulo tray1 by 5").unwrap();
    assert_eq!(inst_mod, Instruction::Modulo { src: Operand::Number(5), dst_tray: 0 });

    let inst_rnd = Parser::parse_line("random tray1 max 100").unwrap();
    assert_eq!(inst_rnd, Instruction::Random { max: Operand::Number(100), tray: 0 });

    let inst7 = Parser::parse_line("say tray4").unwrap();
    assert_eq!(inst7, Instruction::SayTray { tray: 3 });

    let inst8 = Parser::parse_line("say_number tray1").unwrap();
    assert_eq!(inst8, Instruction::SayNumber { tray: 0 });

    let inst9 = Parser::parse_line("ask tray1").unwrap();
    assert_eq!(inst9, Instruction::AskNumber { tray: 0 });

    let inst10 = Parser::parse_line("ask_char tray3").unwrap();
    assert_eq!(inst10, Instruction::AskChar { tray: 2 });

    let inst11 = Parser::parse_line("ask_string tray4").unwrap();
    assert_eq!(inst11, Instruction::AskString { tray: 3 });
}
