use vstd::prelude::*;
use vstd::string::StringExecFns;
use crate::errors::Fault;
use crate::text::str_eq;

verus! {

/// The configuration record, loaded once per command and threaded through
/// as an immutable value: path templates with `{SEED}`, `{SEED04}` and
/// `{ID}` placeholders, the result directory, the default run id, the
/// tester command, the extraction pattern, the scoring direction and the
/// worker count (zero meaning autodetect).
pub struct Config {
    pub input: String,
    pub result_dir: String,
    pub default_id: String,
    pub output: String,
    pub error: String,
    pub cmd_tester: String,
    pub extraction_regex: String,
    pub scoring: String,
    pub threads_no: u32,
}

impl Default for Config {
    /// The configuration the init command writes out.
    fn default() -> (c: Config)
        ensures
            c.input@ == "tools/in/{SEED04}.txt"@,
            c.result_dir@ == "optpod"@,
            c.default_id@ == "default"@,
            c.output@ == "{SEED04}.out"@,
            c.error@ == "{SEED04}.err"@,
            c.cmd_tester@ == "./target/release/a"@,
            c.extraction_regex@
                == "^\\s*\\[DATA\\]\\s+(?P<VARIABLE>[a-zA-Z]\\w*)\\s*=\\s*(?P<VALUE>\\S+)\\s*$"@,
            c.scoring@ == "max"@,
            c.threads_no == 0,
    {
        Config {
            input: "tools/in/{SEED04}.txt".to_owned(),
            result_dir: "optpod".to_owned(),
            default_id: "default".to_owned(),
            output: "{SEED04}.out".to_owned(),
            error: "{SEED04}.err".to_owned(),
            cmd_tester: "./target/release/a".to_owned(),
            extraction_regex:
                "^\\s*\\[DATA\\]\\s+(?P<VARIABLE>[a-zA-Z]\\w*)\\s*=\\s*(?P<VALUE>\\S+)\\s*$".to_owned(),
            scoring: "max".to_owned(),
            threads_no: 0,
        }
    }
}

/// The run command's arguments: the inclusive seed range and an optional
/// run id.
pub struct RunArgs {
    pub seed: (u32, u32),
    pub id: Option<String>,
}

/// The merge command's argument: an optional run id.
pub struct SetBestArgs {
    pub id: Option<String>,
}

/// The report command's arguments the planning step reads: the metric key
/// and an optional run id. The numeric bucket bounds stay with the caller,
/// which builds the bucket intervals.
pub struct ShowArgs {
    pub valuable: String,
    pub id: Option<String>,
}

pub enum Command {
    Run(RunArgs),
    Init,
    Best(SetBestArgs),
    Show(ShowArgs),
}

/// What a validated run command will do: which seeds, under which id, into
/// which result file.
pub struct RunPlan {
    pub start: u32,
    pub end: u32,
    pub id: String,
    pub result_path: String,
}

/// What a validated merge command will do: which run file is folded into
/// which ledger, with which history snapshot.
pub struct BestPlan {
    pub id: String,
    pub result_path: String,
    pub best_path: String,
    pub prev_best_path: String,
}

/// What a validated report command will do: which metric over which run
/// file.
pub struct ShowPlan {
    pub metric: String,
    pub id: String,
    pub result_path: String,
}

pub enum Plan {
    Run(RunPlan),
    Init,
    Best(BestPlan),
    Show(ShowPlan),
}

/// The run id a command uses: the explicit one, else the configured
/// default.
pub open spec fn chosen_id(id: Option<Seq<char>>, dflt: Seq<char>) -> Seq<char> {
    match id {
        Some(s) => s,
        None => dflt,
    }
}

pub open spec fn id_view(id: Option<String>) -> Option<Seq<char>> {
    match id {
        None => None,
        Some(s) => Some(s@),
    }
}

/// The per-run result file: `<dir>/<id>.jsonl`.
pub open spec fn result_path_spec(dir: Seq<char>, id: Seq<char>) -> Seq<char> {
    dir + "/"@ + id + ".jsonl"@
}

pub fn result_file_path(dir: &str, id: &str) -> (r: String)
    ensures
        r@ == result_path_spec(dir@, id@),
{
    dir.to_owned().concat("/").concat(id).concat(".jsonl")
}

/// The worker pool size: the configured count, or the detected core count
/// when the configuration says zero.
pub fn resolve_threads(threads_no: u32, detected: usize) -> (r: usize)
    ensures
        threads_no > 0 ==> r == threads_no as usize,
        threads_no == 0 ==> r == detected,
{
    if threads_no > 0 {
        threads_no as usize
    } else {
        detected
    }
}

/// Turns a parsed command into the plan its execution follows, after every
/// check that needs no resource: every command but init demands a
/// configuration, and a run may not use the ledger's reserved ids `best`
/// and `prev_best` — such a run is refused here, before anything is
/// spawned or written.
pub fn exec_command(cmd: Command, config: Option<&Config>) -> (r: Result<Plan, Fault>)
    ensures
        (match cmd {
            Command::Init => r == Ok::<Plan, Fault>(Plan::Init),
            Command::Run(args) => (match config {
                None => r == Err::<Plan, Fault>(Fault::ConfigurationMissing),
                Some(c) => ({
                    let id = chosen_id(id_view(args.id), c.default_id@);
                    if id == "best"@ || id == "prev_best"@ {
                        r == Err::<Plan, Fault>(Fault::ReservedId)
                    } else {
                        r matches Ok(Plan::Run(p)) && p.start == args.seed.0 && p.end
                            == args.seed.1 && p.id@ == id && p.result_path@ == result_path_spec(
                            c.result_dir@,
                            id,
                        )
                    }
                }),
            }),
            Command::Best(args) => (match config {
                None => r == Err::<Plan, Fault>(Fault::ConfigurationMissing),
                Some(c) => ({
                    let id = chosen_id(id_view(args.id), c.default_id@);
                    r matches Ok(Plan::Best(p)) && p.id@ == id && p.result_path@
                        == result_path_spec(c.result_dir@, id) && p.best_path@ == result_path_spec(
                        c.result_dir@,
                        "best"@,
                    ) && p.prev_best_path@ == result_path_spec(c.result_dir@, "prev_best"@)
                }),
            }),
            Command::Show(args) => (match config {
                None => r == Err::<Plan, Fault>(Fault::ConfigurationMissing),
                Some(c) => ({
                    let id = chosen_id(id_view(args.id), c.default_id@);
                    r matches Ok(Plan::Show(p)) && p.metric@ == args.valuable@ && p.id@ == id
                        && p.result_path@ == result_path_spec(c.result_dir@, id)
                }),
            }),
        }),
{
    match cmd {
        Command::Init => Ok(Plan::Init),
        Command::Run(args) => {
            let c = match config {
                None => {
                    return Err(Fault::ConfigurationMissing);
                },
                Some(c) => c,
            };
            let id: String = match args.id {
                Some(s) => s,
                None => c.default_id.clone(),
            };
            if str_eq(id.as_str(), "best") || str_eq(id.as_str(), "prev_best") {
                return Err(Fault::ReservedId);
            }
            let result_path = result_file_path(c.result_dir.as_str(), id.as_str());
            Ok(Plan::Run(RunPlan { start: args.seed.0, end: args.seed.1, id, result_path }))
        },
        Command::Best(args) => {
            let c = match config {
                None => {
                    return Err(Fault::ConfigurationMissing);
                },
                Some(c) => c,
            };
            let id: String = match args.id {
                Some(s) => s,
                None => c.default_id.clone(),
            };
            let result_path = result_file_path(c.result_dir.as_str(), id.as_str());
            let best_path = result_file_path(c.result_dir.as_str(), "best");
            let prev_best_path = result_file_path(c.result_dir.as_str(), "prev_best");
            Ok(Plan::Best(BestPlan { id, result_path, best_path, prev_best_path }))
        },
        Command::Show(args) => {
            let c = match config {
                None => {
                    return Err(Fault::ConfigurationMissing);
                },
                Some(c) => c,
            };
            let id: String = match args.id {
                Some(s) => s,
                None => c.default_id.clone(),
            };
            let result_path = result_file_path(c.result_dir.as_str(), id.as_str());
            Ok(Plan::Show(ShowPlan { metric: args.valuable, id, result_path }))
        },
    }
}

} // verus!
