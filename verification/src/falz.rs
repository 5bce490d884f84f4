//! The FALZ global storage: where it lives, the hardware profile it keeps, and
//! the records it holds.
use vstd::prelude::*;
use crate::target::{CpuArch, OsSupervisor, TargetContext, names};
use crate::text::{append_chars, append_str, chars_of, decimal, decimal_chars, join, string_from_chars};

verus! {

/// The directories and files of the FALZ storage, as path strings.
#[derive(Debug, Clone)]
pub struct FalzEnvironment {
    pub root_dir: String,
    pub cache_dir: String,
    pub storeroom_dir: String,
    pub logs_dir: String,
    pub env_file: String,
}

/// What the FALZ storage holds.
#[derive(Debug)]
pub struct FalzStats {
    pub root_path: String,
    pub cached_files_count: usize,
    pub log_files_count: usize,
    pub storeroom_slots_count: usize,
    pub total_storage_bytes: u64,
}

/// Whether `name` is a single plain path component: not empty, and free of
/// separators and drive colons.
pub open spec fn plain_component(name: Seq<char>) -> bool {
    &&& name.len() > 0
    &&& forall|i: int| 0 <= i < name.len() ==> #[trigger] name[i] != '/' && name[i] != '\\' && name[i] != ':'
}

/// Whether `p` is `dir` with the plain component `name` joined to it: right after
/// `dir`, or after one path separator.
pub open spec fn joined(dir: Seq<char>, name: Seq<char>, p: Seq<char>) -> bool {
    ||| p == dir + name
    ||| p == dir + seq!['/'] + name
    ||| p == dir + seq!['\\'] + name
}

/// Whether `dir` starts with a Windows verbatim prefix (`\\?\`).
pub open spec fn verbatim(dir: Seq<char>) -> bool {
    dir.len() >= 4 && dir[0] == '\\' && dir[1] == '\\' && dir[2] == '?' && dir[3] == '\\'
}

/// Whether `dir` carries no Windows path prefix: it holds no drive colon and does
/// not start with a backslash (UNC, device and verbatim paths do).
pub open spec fn unprefixed(dir: Seq<char>) -> bool {
    &&& forall|i: int| 0 <= i < dir.len() ==> dir[i] != ':'
    &&& dir.len() == 0 || dir[0] != '\\'
}

/// What joining the plain component `name` to `dir` gives, as far as it holds on
/// every platform: `dir`, at most one separator, then `name` (unless `dir` is
/// verbatim); for a directory without a prefix, exactly `dir` then `name` when
/// `dir` is empty or ends in `/`, and `dir`, one separator (`/`, or `\` on
/// Windows), then `name` when it ends in neither `/` nor `\`.
pub open spec fn join_result(dir: Seq<char>, name: Seq<char>, p: Seq<char>) -> bool {
    &&& !verbatim(dir) ==> joined(dir, name, p)
    &&& unprefixed(dir) && (dir.len() == 0 || dir.last() == '/') ==> p == dir + name
    &&& unprefixed(dir) && dir.len() > 0 && dir.last() != '/' && dir.last() != '\\' ==> (p == dir
        + seq!['/'] + name || p == dir + seq!['\\'] + name)
}

/// Calls `Path::join` with a plain component and hands back the path as a string
/// (lossless: both parts are text). Claimed, from `PathBuf::push`: a separator is
/// added only when `dir` is non-empty and does not already end in one (nor is a
/// bare Windows drive), and the platform's separator is `/` (or `\\` on
/// Windows). Nothing is said for a `dir` with a verbatim prefix, which Windows
/// normalises, nor which separator the platform uses.
#[verifier::external_body]
fn join_path(dir: &String, name: &str) -> (p: String)
    requires
        plain_component(name@),
    ensures
        join_result(dir@, name@, p@),
{
    std::path::Path::new(dir.as_str()).join(name).to_string_lossy().into_owned()
}

/// The name `{:?}` gives an architecture.
pub open spec fn arch_name(a: CpuArch) -> Seq<char> {
    match a {
        CpuArch::X86_64 => "X86_64"@,
        CpuArch::AArch64 => "AArch64"@,
    }
}

/// The name `{:?}` gives an operating system.
pub open spec fn os_name(o: OsSupervisor) -> Seq<char> {
    match o {
        OsSupervisor::Linux => "Linux"@,
        OsSupervisor::MacOS => "MacOS"@,
        OsSupervisor::Windows => "Windows"@,
    }
}

/// `n` in double quotes.
pub open spec fn quoted(n: Seq<char>) -> Seq<char> {
    seq!['"'] + n + seq!['"']
}

/// The names, each quoted, separated by `, `.
pub open spec fn quoted_list(ns: Seq<Seq<char>>) -> Seq<char> {
    join(ns.map_values(|n: Seq<char>| quoted(n)), ", "@)
}

/// The JSON hardware profile kept in `env.json`.
pub open spec fn hardware_profile_text(ctx: TargetContext) -> Seq<char> {
    "{\n  \"engine\": \"Factory Assembly Language (FAL)\",\n  \"environment\": \"FALZ Global Storage\",\n  \"target_arch\": \""@
        + arch_name(ctx.arch) + "\",\n  \"host_os\": \""@ + os_name(ctx.os)
        + "\",\n  \"physical_trays_detected\": "@ + decimal(ctx.max_physical_trays as nat)
        + ",\n  \"ssl_register_pool\": ["@ + quoted_list(names(ctx.available_registers@)) + "]\n}\n"@
}

/// The record of one run of a program.
pub open spec fn session_summary_text(program: Seq<char>, lines: nat, result: nat, home: Seq<char>) -> Seq<char> {
    "Program: "@ + program + "\nLines Processed: "@ + decimal(lines) + "\nPrimary Tray Result: "@
        + decimal(result) + "\nFALZ Home: "@ + home + "\n"@
}

fn arch_label(a: CpuArch) -> (r: &'static str)
    ensures
        r@ == arch_name(a),
{
    match a {
        CpuArch::X86_64 => "X86_64",
        CpuArch::AArch64 => "AArch64",
    }
}

fn os_label(o: OsSupervisor) -> (r: &'static str)
    ensures
        r@ == os_name(o),
{
    match o {
        OsSupervisor::Linux => "Linux",
        OsSupervisor::MacOS => "MacOS",
        OsSupervisor::Windows => "Windows",
    }
}

/// Appends the quoted register names, separated by `, `.
fn append_register_list(out: &mut Vec<char>, regs: &Vec<&'static str>)
    ensures
        final(out)@ == old(out)@ + quoted_list(names(regs@)),
{
    let ghost start = out@;
    let ghost q = names(regs@).map_values(|n: Seq<char>| quoted(n));
    let mut i: usize = 0;
    assert(q.subrange(0, 0) =~= Seq::<Seq<char>>::empty());
    while i < regs.len()
        invariant
            i <= regs@.len(),
            q == names(regs@).map_values(|n: Seq<char>| quoted(n)),
            out@ == start + join(q.subrange(0, i as int), ", "@),
        decreases regs@.len() - i,
    {
        let ghost prev = q.subrange(0, i as int);
        let ghost next = q.subrange(0, i + 1);
        assert(next.drop_last() =~= prev);
        assert(next.last() == quoted(regs@[i as int]@));
        let ghost before = out@;
        if i > 0 {
            append_str(out, ", ");
        }
        let ghost mid = out@;
        append_str(out, "\"");
        append_str(out, regs[i]);
        append_str(out, "\"");
        proof {
            reveal_strlit("\"");
            assert("\""@ =~= seq!['"']);
            assert(out@ =~= mid + quoted(regs@[i as int]@));
        }
        if i == 0 {
            assert(next.len() == 1);
            assert(out@ =~= start + next[0]);
        } else {
            assert(out@ =~= start + (join(prev, ", "@) + ", "@ + next.last()));
        }
        i = i + 1;
    }
    assert(q.subrange(0, i as int) =~= q);
}

impl FalzEnvironment {
    /// The root of the storage: `falz_home` (the `FALZ_HOME` variable) when it is
    /// set, else `.falz` under `home` (the `HOME` variable), else `.falz`.
    pub fn root_from(falz_home: Option<String>, home: Option<String>) -> (r: String)
        ensures
            falz_home matches Some(f) ==> r@ == f@,
            falz_home is None && home is Some ==> join_result(home->0@, ".falz"@, r@),
            falz_home is None && home is None ==> r@ == ".falz"@,
    {
        match falz_home {
            Some(f) => f,
            None => match home {
                Some(h) => {
                    proof {
                        reveal_strlit(".falz");
                    }
                    join_path(&h, ".falz")
                },
                None => String::from_str(".falz"),
            },
        }
    }

    /// The storage laid out under `root_dir`: `cache`, `storeroom` and `logs`
    /// directories and the `env.json` hardware profile.
    pub fn at(root_dir: String) -> (r: FalzEnvironment)
        ensures
            r.root_dir@ == root_dir@,
            join_result(root_dir@, "cache"@, r.cache_dir@),
            join_result(root_dir@, "storeroom"@, r.storeroom_dir@),
            join_result(root_dir@, "logs"@, r.logs_dir@),
            join_result(root_dir@, "env.json"@, r.env_file@),
    {
        proof {
            reveal_strlit("cache");
            reveal_strlit("storeroom");
            reveal_strlit("logs");
            reveal_strlit("env.json");
        }
        let cache_dir = join_path(&root_dir, "cache");
        let storeroom_dir = join_path(&root_dir, "storeroom");
        let logs_dir = join_path(&root_dir, "logs");
        let env_file = join_path(&root_dir, "env.json");
        FalzEnvironment { root_dir, cache_dir, storeroom_dir, logs_dir, env_file }
    }

    /// The JSON hardware profile of `ctx` that the storage keeps in `env.json`.
    pub fn hardware_profile(ctx: &TargetContext) -> (r: String)
        ensures
            r@ == hardware_profile_text(*ctx),
    {
        let mut out: Vec<char> = Vec::new();
        append_str(
            &mut out,
            "{\n  \"engine\": \"Factory Assembly Language (FAL)\",\n  \"environment\": \"FALZ Global Storage\",\n  \"target_arch\": \"",
        );
        append_str(&mut out, arch_label(ctx.arch));
        append_str(&mut out, "\",\n  \"host_os\": \"");
        append_str(&mut out, os_label(ctx.os));
        append_str(&mut out, "\",\n  \"physical_trays_detected\": ");
        let trays = decimal_chars(ctx.max_physical_trays as u64);
        append_chars(&mut out, &trays);
        append_str(&mut out, ",\n  \"ssl_register_pool\": [");
        append_register_list(&mut out, &ctx.available_registers);
        append_str(&mut out, "]\n}\n");
        string_from_chars(&out)
    }

    /// The record kept of one run of `program`: its name, the number of lines read,
    /// the value left in the primary tray, and the storage root.
    pub fn session_summary(&self, program: &String, lines: usize, result: u64) -> (r: String)
        ensures
            r@ == session_summary_text(program@, lines as nat, result as nat, self.root_dir@),
    {
        let mut out: Vec<char> = Vec::new();
        append_str(&mut out, "Program: ");
        let p = chars_of(program.as_str());
        append_chars(&mut out, &p);
        append_str(&mut out, "\nLines Processed: ");
        let l = decimal_chars(lines as u64);
        append_chars(&mut out, &l);
        append_str(&mut out, "\nPrimary Tray Result: ");
        let v = decimal_chars(result);
        append_chars(&mut out, &v);
        append_str(&mut out, "\nFALZ Home: ");
        let h = chars_of(self.root_dir.as_str());
        append_chars(&mut out, &h);
        append_str(&mut out, "\n");
        string_from_chars(&out)
    }

    /// The name of the log of a run at `timestamp` (seconds since the epoch) of a
    /// program whose file name is `file_name` (`fal_run` when it has none).
    pub fn log_file_name(file_name: Option<String>, timestamp: u64) -> (r: String)
        ensures
            r@ == (match file_name {
                Some(f) => f@,
                None => "fal_run"@,
            }) + "_"@ + decimal(timestamp as nat) + ".log"@,
    {
        let mut out: Vec<char> = Vec::new();
        match file_name {
            Some(f) => {
                let cs = chars_of(f.as_str());
                append_chars(&mut out, &cs);
            },
            None => append_str(&mut out, "fal_run"),
        }
        append_str(&mut out, "_");
        let t = decimal_chars(timestamp);
        append_chars(&mut out, &t);
        append_str(&mut out, ".log");
        string_from_chars(&out)
    }
}

impl FalzStats {
    /// The statistics of a storage rooted at `root_path` from the number of files
    /// and bytes of its cache, logs and storeroom, and the size of its hardware
    /// profile: the total is the sum of the four sizes.
    pub fn tally(
        root_path: String,
        cache: (usize, u64),
        logs: (usize, u64),
        storeroom: (usize, u64),
        env_bytes: u64,
    ) -> (r: FalzStats)
        requires
            cache.1 + logs.1 + storeroom.1 + env_bytes <= u64::MAX,
        ensures
            r.root_path@ == root_path@,
            r.cached_files_count == cache.0,
            r.log_files_count == logs.0,
            r.storeroom_slots_count == storeroom.0,
            r.total_storage_bytes == cache.1 + logs.1 + storeroom.1 + env_bytes,
    {
        FalzStats {
            root_path,
            cached_files_count: cache.0,
            log_files_count: logs.0,
            storeroom_slots_count: storeroom.0,
            total_storage_bytes: cache.1 + logs.1 + storeroom.1 + env_bytes,
        }
    }
}

} // verus!
