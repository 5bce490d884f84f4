use fal::cli::{Cli, Command, README_TAIL};
use fal::falz::{FalzEnvironment, FalzStats};
use fal::mapper::TrayMapper;
use fal::target::{CpuArch, OsSupervisor, TargetContext};
use fal::text::is_whitespace;

fn args(words: &[&str]) -> Vec<String> {
    words.iter().map(|w| w.to_string()).collect()
}

#[test]
fn register_pools_of_each_architecture() {
    let x = TargetContext::autodetect(CpuArch::X86_64, OsSupervisor::Linux);
    assert_eq!(x.max_physical_trays, 14);
    assert_eq!(x.available_registers[0], "rax");
    assert_eq!(x.available_registers[13], "r15");
    let a = TargetContext::autodetect(CpuArch::AArch64, OsSupervisor::Windows);
    assert_eq!(a.max_physical_trays, 16);
    assert_eq!(a.available_registers[15], "x15");
    assert_eq!(a.os, OsSupervisor::Windows);
}

#[test]
fn trays_land_on_registers() {
    let m = TrayMapper::new(TargetContext::autodetect(CpuArch::X86_64, OsSupervisor::Linux));
    assert_eq!(m.resolve_x86_reg_id(0), 0);
    assert_eq!(m.resolve_x86_reg_id(1), 3);
    assert_eq!(m.resolve_x86_reg_id(9), 11);
    assert_eq!(m.resolve_x86_reg_id(13), 15);
    assert_eq!(m.resolve_x86_reg_id(14), 0);
    assert_eq!(m.resolve_register_name(2), "rcx");
    assert_eq!(m.resolve_register_name(14), "rax");
    let arm = TrayMapper::new(TargetContext::autodetect(CpuArch::AArch64, OsSupervisor::Linux));
    assert_eq!(arm.resolve_register_name(17), "x1");
}

#[test]
fn no_tray_lands_on_the_stack_registers() {
    let m = TrayMapper::new(TargetContext::autodetect(CpuArch::X86_64, OsSupervisor::Linux));
    for t in 0..100usize {
        let r = m.resolve_x86_reg_id(t);
        assert!(r < 16 && r != 4 && r != 5);
        assert_eq!(r, m.resolve_x86_reg_id(t + 14));
    }
}

#[test]
fn whitespace_agrees_with_std() {
    for c in [' ', '\t', '\n', '\u{a0}', '\u{2003}', '\u{3000}', '\u{85}', 'a', '0', '_', '\u{200b}'] {
        assert_eq!(is_whitespace(c), c.is_whitespace(), "{:?}", c);
    }
}

#[test]
fn command_words() {
    assert_eq!(Cli::command(&args(&["fal"]), false), Command::Help);
    assert_eq!(Cli::command(&args(&["fal", "HELP"]), false), Command::Help);
    assert_eq!(Cli::command(&args(&["fal", "-h"]), false), Command::Help);
    assert_eq!(Cli::command(&args(&["fal", "Doctor"]), false), Command::Env);
    assert_eq!(Cli::command(&args(&["fal", "env"]), false), Command::Env);
    assert_eq!(Cli::command(&args(&["fal", "clean"]), false), Command::Clean);
}

#[test]
fn commands_that_need_an_argument() {
    assert_eq!(Cli::command(&args(&["fal", "new"]), false), Command::MissingProjectName);
    assert_eq!(
        Cli::command(&args(&["fal", "new", "Shop"]), false),
        Command::New { project: "Shop".to_string() }
    );
    assert_eq!(Cli::command(&args(&["fal", "run"]), false), Command::MissingProgram { debug: false });
    assert_eq!(Cli::command(&args(&["fal", "debug"]), false), Command::MissingProgram { debug: true });
    assert_eq!(
        Cli::command(&args(&["fal", "Debug", "A.fal"]), false),
        Command::Run { path: "A.fal".to_string(), debug: true }
    );
    assert_eq!(
        Cli::command(&args(&["fal", "run", "b.fal", "extra"]), false),
        Command::Run { path: "b.fal".to_string(), debug: false }
    );
}

#[test]
fn a_program_path_is_run_under_its_lowercased_name() {
    assert_eq!(
        Cli::command(&args(&["fal", "Prog.FAL"]), false),
        Command::Run { path: "prog.fal".to_string(), debug: false }
    );
    assert_eq!(
        Cli::command(&args(&["fal", "notes"]), true),
        Command::Run { path: "notes".to_string(), debug: false }
    );
    assert_eq!(
        Cli::command(&args(&["fal", "Dance"]), false),
        Command::Unknown { word: "dance".to_string() }
    );
    assert_eq!(Cli::command_word(&args(&["fal", "RuN"])), Some("run".to_string()));
    assert_eq!(Cli::command_word(&args(&["fal"])), None);
}

#[test]
fn the_readme_of_a_new_project() {
    let r = Cli::project_readme(&"shop".to_string());
    assert_eq!(
        r,
        "# shop\n\nA Factory Assembly Language (FAL) project.\n\n## Run\n```bash\nfal run factory.fal\n```\n"
    );
    assert_eq!(r, format!("# {}{}", "shop", README_TAIL));
}

#[test]
fn where_the_storage_lives() {
    assert_eq!(
        FalzEnvironment::root_from(Some("/opt/falz".to_string()), Some("/home/u".to_string())),
        "/opt/falz"
    );
    assert_eq!(FalzEnvironment::root_from(None, Some("/home/u".to_string())), "/home/u/.falz");
    assert_eq!(FalzEnvironment::root_from(None, None), ".falz");
    let env = FalzEnvironment::at("/r".to_string());
    assert_eq!(env.root_dir, "/r");
    assert_eq!(env.cache_dir, "/r/cache");
    assert_eq!(env.storeroom_dir, "/r/storeroom");
    assert_eq!(env.logs_dir, "/r/logs");
    assert_eq!(env.env_file, "/r/env.json");
    assert_eq!(FalzEnvironment::at("/r/".to_string()).cache_dir, "/r/cache");
}

#[test]
fn the_hardware_profile() {
    let ctx = TargetContext::autodetect(CpuArch::X86_64, OsSupervisor::Linux);
    let regs_json = ctx
        .available_registers
        .iter()
        .map(|r| format!("\"{}\"", r))
        .collect::<Vec<_>>()
        .join(", ");
    let expected = format!(
        "{{\n  \"engine\": \"Factory Assembly Language (FAL)\",\n  \"environment\": \"FALZ Global Storage\",\n  \"target_arch\": \"{:?}\",\n  \"host_os\": \"{:?}\",\n  \"physical_trays_detected\": {},\n  \"ssl_register_pool\": [{}]\n}}\n",
        ctx.arch, ctx.os, ctx.max_physical_trays, regs_json
    );
    assert_eq!(FalzEnvironment::hardware_profile(&ctx), expected);
    let arm = TargetContext::autodetect(CpuArch::AArch64, OsSupervisor::MacOS);
    let text = FalzEnvironment::hardware_profile(&arm);
    assert!(text.contains("\"target_arch\": \"AArch64\""));
    assert!(text.contains("\"host_os\": \"MacOS\""));
    assert!(text.contains("\"physical_trays_detected\": 16,"));
    assert!(text.contains("[\"x0\", \"x1\", "));
}

#[test]
fn the_record_of_a_run() {
    let env = FalzEnvironment::at("/home/u/.falz".to_string());
    assert_eq!(
        env.session_summary(&"demo.fal".to_string(), 12, 150),
        "Program: demo.fal\nLines Processed: 12\nPrimary Tray Result: 150\nFALZ Home: /home/u/.falz\n"
    );
    assert_eq!(
        env.session_summary(&"x".to_string(), 0, u64::MAX),
        "Program: x\nLines Processed: 0\nPrimary Tray Result: 18446744073709551615\nFALZ Home: /home/u/.falz\n"
    );
    assert_eq!(
        FalzEnvironment::log_file_name(Some("demo.fal".to_string()), 1700000000),
        "demo.fal_1700000000.log"
    );
    assert_eq!(FalzEnvironment::log_file_name(None, 0), "fal_run_0.log");
}

#[test]
fn storage_statistics_add_up() {
    let s = FalzStats::tally("/r".to_string(), (2, 100), (3, 40), (1, 8), 250);
    assert_eq!(s.root_path, "/r");
    assert_eq!(s.cached_files_count, 2);
    assert_eq!(s.log_files_count, 3);
    assert_eq!(s.storeroom_slots_count, 1);
    assert_eq!(s.total_storage_bytes, 398);
}
