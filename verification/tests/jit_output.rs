use fal::cli::STARTER_PROGRAM;
use fal::jit::{instruction_compiles, CompileError, DynamicJitEngine};
use fal::parser::{Instruction, Operand, Parser, StoreroomOffset};
use fal::target::{CpuArch, OsSupervisor, TargetContext};

const PROLOGUE: [u8; 25] = [
    0x53, 0x41, 0x54, 0x41, 0x55, 0x41, 0x56, 0x41, 0x57, 0x55, 0x48, 0x89, 0xe5, 0x48, 0x81, 0xec,
    0x00, 0x10, 0x00, 0x00, 0xe9, 0, 0, 0, 0,
];
const EPILOGUE: [u8; 14] = [0x48, 0x89, 0xec, 0x5d, 0x41, 0x5f, 0x41, 0x5e, 0x41, 0x5d, 0x41, 0x5c, 0x5b, 0xc3];

fn host() -> TargetContext {
    TargetContext::autodetect(CpuArch::X86_64, OsSupervisor::Linux)
}

fn lines(src: &[&str]) -> Vec<String> {
    src.iter().map(|l| l.to_string()).collect()
}

fn compile(src: &[&str]) -> DynamicJitEngine {
    match DynamicJitEngine::compile_source(host(), &lines(src)) {
        Ok(e) => e,
        Err(e) => panic!("compile failed: {:?}", e),
    }
}

#[test]
fn a_fresh_engine_holds_the_prologue() {
    let e = DynamicJitEngine::new(host());
    assert_eq!(e.code_len(), 25);
    assert_eq!(e.data_len(), 0);
    let a = DynamicJitEngine::new(TargetContext::autodetect(CpuArch::AArch64, OsSupervisor::MacOS));
    assert_eq!(a.code_len(), 0);
}

#[test]
fn a_fill_is_a_mov_with_its_immediate() {
    let mut e = compile(&["tray1 = 5"]);
    assert_eq!(e.finish(), 4096);
    let image = e.link(0x1000);
    let mut expected = PROLOGUE.to_vec();
    expected.extend_from_slice(&[0x48, 0xb8, 5, 0, 0, 0, 0, 0, 0, 0]);
    expected.extend_from_slice(&EPILOGUE);
    assert_eq!(image, expected);
}

#[test]
fn negative_fills_are_twos_complement() {
    let mut e = DynamicJitEngine::new(host());
    e.compile_instruction(&Instruction::Fill { val: -1, tray: 1 });
    e.finish();
    let image = e.link(0);
    assert_eq!(&image[25..35], &[0x48, 0xbb, 0xff, 0xff, 0xff, 0xff, 0xff, 0xff, 0xff, 0xff]);
}

#[test]
fn calls_jumps_and_the_entry_are_linked() {
    let mut e = compile(&[
        "workstation \"helper\"",
        "return",
        "end",
        "workstation \"main\"",
        "call workstation \"helper\"",
        "end",
    ]);
    assert_eq!(e.finish(), 4096);
    let image = e.link(0x40_0000);
    let mut expected = PROLOGUE.to_vec();
    expected[21] = 2;
    expected.extend_from_slice(&[0xc3, 0xc3, 0xe8, 0xf9, 0xff, 0xff, 0xff, 0xe9, 0, 0, 0, 0]);
    expected.extend_from_slice(&EPILOGUE);
    assert_eq!(image, expected);
}

#[test]
fn strings_are_linked_to_the_data_after_the_code() {
    let mut e = compile(&["tray4 = \"Hi\""]);
    assert_eq!(e.data_len(), 3);
    e.finish();
    let image = e.link(0x10000);
    assert_eq!(image.len(), 52);
    assert_eq!(&image[25..35], &[0x48, 0xba, 0x00, 0x00, 0x01, 0, 0, 0, 0, 0]);
    assert_eq!(&image[49..52], &[b'H', b'i', 0]);
}

#[test]
fn saying_a_literal_keeps_the_trays() {
    let mut e = compile(&["say \"Hi\""]);
    e.finish();
    let image = e.link(0x2000);
    assert_eq!(&image[25..32], &[0x50, 0x51, 0x52, 0x56, 0x57, 0x41, 0x53]);
    assert_eq!(&image[32..42], &[0x48, 0xb8, 1, 0, 0, 0, 0, 0, 0, 0]);
    assert_eq!(&image[42..52], &[0x48, 0xbf, 1, 0, 0, 0, 0, 0, 0, 0]);
    assert_eq!(&image[52..62], &[0x48, 0xbe, 0x00, 0x20, 0, 0, 0, 0, 0, 0]);
    assert_eq!(&image[62..72], &[0x48, 0xba, 3, 0, 0, 0, 0, 0, 0, 0]);
    assert_eq!(&image[72..74], &[0x0f, 0x05]);
    assert_eq!(&image[74..81], &[0x41, 0x5b, 0x5f, 0x5e, 0x5a, 0x59, 0x58]);
    assert_eq!(&image[95..98], b"Hi\n");
}

#[test]
fn storeroom_and_arithmetic_encodings() {
    let mut e = compile(&["store tray1 into storeroom[0]", "add 50 to tray1", "load storeroom[1] into tray2"]);
    e.finish();
    let image = e.link(0);
    assert_eq!(&image[25..32], &[0x48, 0x89, 0x85, 0xf8, 0xff, 0xff, 0xff]);
    assert_eq!(&image[32..39], &[0x48, 0x81, 0xc0, 50, 0, 0, 0]);
    assert_eq!(&image[39..46], &[0x48, 0x8b, 0x9d, 0xf0, 0xff, 0xff, 0xff]);
}

#[test]
fn an_inline_condition_skips_its_instruction() {
    let mut e = compile(&["if tray1 == 3 then tray2 = 7"]);
    e.finish();
    let image = e.link(0);
    assert_eq!(&image[25..32], &[0x48, 0x81, 0xf8, 3, 0, 0, 0]);
    assert_eq!(&image[32..38], &[0x0f, 0x85, 10, 0, 0, 0]);
    assert_eq!(&image[38..48], &[0x48, 0xbb, 7, 0, 0, 0, 0, 0, 0, 0]);
}

#[test]
fn an_unreadable_line_stops_the_compilation() {
    let r = DynamicJitEngine::compile_source(host(), &lines(&["tray1 = 1", "if then tray1 = 1", "tray2 = 2"]));
    match r {
        Err(e) => assert_eq!(e, CompileError::UnreadableLine(1)),
        Ok(_) => panic!("expected an error"),
    }
}

#[test]
fn an_overflowing_storeroom_slot_is_refused() {
    let r = DynamicJitEngine::compile_source(host(), &lines(&["store tray1 into storeroom[268435455]"]));
    match r {
        Err(e) => assert_eq!(e, CompileError::StoreroomSlotOverflow(0)),
        Ok(_) => panic!("expected an error"),
    }
    assert!(!instruction_compiles(&Instruction::Load {
        offset: StoreroomOffset::Fixed(268435455),
        tray: 0
    }));
    assert!(instruction_compiles(&Instruction::Load { offset: StoreroomOffset::Fixed(5), tray: 0 }));
    assert!(instruction_compiles(&Instruction::Add { src: Operand::Number(1), dst_tray: 0 }));
}

#[test]
fn the_starter_program_compiles() {
    let src: Vec<&str> = STARTER_PROGRAM.lines().collect();
    let mut e = compile(&src);
    let names = e.workstation_names();
    assert_eq!(names, vec!["main".to_string(), "inspect_quality".to_string()]);
    e.finish();
    let names = e.workstation_names();
    assert_eq!(names.len(), 3);
    assert!(names.contains(&"__fal_exit".to_string()));
}

#[test]
fn repeated_workstation_names_are_listed_once() {
    let e = compile(&["workstation \"a\"", "end", "workstation \"a\"", "end"]);
    assert_eq!(e.workstation_names(), vec!["a".to_string()]);
}

#[test]
fn each_line_is_compiled_as_parsed() {
    let src = ["tray1 = 9", "move tray1 to tray3"];
    let from_source = {
        let mut e = compile(&src);
        e.finish();
        e.link(0)
    };
    let by_hand = {
        let mut e = DynamicJitEngine::new(host());
        for l in src.iter() {
            let inst = Parser::parse_line(l).unwrap();
            e.compile_instruction(&inst);
        }
        e.finish();
        e.link(0)
    };
    assert_eq!(from_source, by_hand);
}

#[test]
fn a_store_and_a_load_of_one_slot_share_the_cell() {
    let mut e = compile(&["store tray1 into storeroom[3]", "load storeroom[3] into tray1"]);
    e.finish();
    let image = e.link(0);
    let store = &image[25..32];
    let load = &image[32..39];
    assert_eq!(store, &[0x48, 0x89, 0x85, 0xe0, 0xff, 0xff, 0xff]);
    assert_eq!(store[0], load[0]);
    assert_eq!(load[1], 0x8b);
    assert_eq!(&store[2..], &load[2..]);
}

#[test]
fn the_mapping_is_whole_pages() {
    let src: Vec<&str> = std::iter::repeat("tray1 = 1").take(410).collect();
    let mut e = compile(&src);
    assert_eq!(e.code_len(), 25 + 4100);
    assert_eq!(e.finish(), 8192);
    let mut empty = compile(&[]);
    assert_eq!(empty.finish(), 4096);
}

fn code_of(src: &[&str]) -> Vec<u8> {
    let mut e = compile(src);
    let n = e.code_len();
    e.finish();
    e.link(0)[25..n].to_vec()
}

#[test]
fn large_immediates_are_staged_in_a_saved_scratch_register() {
    let mut expected = vec![0x41, 0x53, 0x49, 0xbb, 0x00, 0x5e, 0xd0, 0xb2, 0, 0, 0, 0];
    expected.extend_from_slice(&[0x4c, 0x01, 0xd8, 0x41, 0x5b]);
    assert_eq!(code_of(&["add 3000000000 to tray1"]), expected);
    let mut on_r11 = vec![0x41, 0x52, 0x49, 0xba, 0xff, 0xff, 0xff, 0xff, 0xff, 0xff, 0xff, 0xff];
    on_r11.extend_from_slice(&[0x4d, 0x01, 0xd3, 0x41, 0x5a]);
    assert_eq!(code_of(&["add -1 to tray10"]), on_r11);
    let mul = code_of(&["multiply tray1 by 3"]);
    assert_eq!(&mul[..2], &[0x41, 0x53]);
    assert_eq!(&mul[mul.len() - 2..], &[0x41, 0x5b]);
}

#[test]
fn division_sign_extends_and_keeps_the_other_trays() {
    let mut expected = vec![0x52, 0x50, 0x53, 0x48, 0x89, 0xc0];
    expected.extend_from_slice(&[0x48, 0x99, 0x48, 0xf7, 0x3c, 0x24, 0x48, 0x83, 0xc4, 0x08]);
    expected.extend_from_slice(&[0x48, 0x89, 0x04, 0x24, 0x58, 0x5a]);
    assert_eq!(code_of(&["divide tray1 by tray2"]), expected);
    let mut modulo = vec![0x52, 0x50, 0x48, 0xb8, 5, 0, 0, 0, 0, 0, 0, 0];
    modulo.extend_from_slice(&[0x50, 0x48, 0x8b, 0x44, 0x24, 0x08, 0x48, 0x89, 0xc8]);
    modulo.extend_from_slice(&[0x48, 0x99, 0x48, 0xf7, 0x3c, 0x24, 0x48, 0x83, 0xc4, 0x08]);
    modulo.extend_from_slice(&[0x48, 0x89, 0xd1, 0x58, 0x5a]);
    assert_eq!(code_of(&["modulo tray3 by 5"]), modulo);
}

#[test]
fn a_storeroom_slot_named_by_a_tray() {
    let expected = vec![
        0x41, 0x53, 0x49, 0x89, 0xdb, 0x49, 0xf7, 0xdb, 0x4a, 0x89, 0x44, 0xdd, 0xf8, 0x41, 0x5b,
    ];
    assert_eq!(code_of(&["store tray1 into storeroom[tray2]"]), expected);
}

#[test]
fn input_output_and_random_instructions_emit_code() {
    for line in ["say_number tray1", "ask tray2", "ask_char tray3", "ask_string tray4", "random tray1 max 6"] {
        assert!(!code_of(&[line]).is_empty(), "{}", line);
    }
    let mut e = compile(&["ask_string tray4"]);
    assert_eq!(e.data_len(), 256);
    e.finish();
    let image = e.link(0x5000);
    assert_eq!(&image[25 + 13..25 + 21], &[0x00, 0x50, 0, 0, 0, 0, 0, 0]);
    let out = code_of(&["say_number tray2"]);
    assert_eq!(&out[..12], &[0x50, 0x51, 0x52, 0x56, 0x57, 0x41, 0x53, 0x41, 0x50, 0x48, 0x89, 0xd8]);
}
