//! What to monitor, and the demo that needs no settings.

use vstd::prelude::*;
use vstd::string::*;
use crate::text::{decimal, push_decimal};

verus! {

/// The demo's victim and the core that it runs on.
pub struct DemoTarget {
    pub core: u32,
    pub victim_pid: u32,
}

/// Why there is nothing to monitor.
pub enum PlanError {
    /// No core was given and no demo asked for.
    NoCores,
}

impl PlanError {
    /// The error in words.
    pub fn message(&self) -> (text: String)
        ensures
            text@ == "specify --cores or use --demo for a quick start"@,
    {
        match self {
            PlanError::NoCores => "specify --cores or use --demo for a quick start".to_owned(),
        }
    }
}

/// The cores and tasks to monitor, and the shortest interruption to report.
pub struct MonitorPlan {
    pub cores: Vec<u32>,
    pub pids: Vec<u32>,
    pub threshold_ns: u64,
}

impl MonitorPlan {
    /// The entries of the probe's task table: the listed tasks, or a single zero if none is listed.
    pub open spec fn pid_entries(self) -> Seq<u32> {
        if self.pids@.len() == 0 {
            seq![0u32]
        } else {
            self.pids@
        }
    }

    /// Makes a plan of the settings. The demo brings its own core and its own task; otherwise there
    /// has to be a core.
    pub fn new(cores: Vec<u32>, pids: Vec<u32>, threshold_ns: u64, demo: Option<DemoTarget>) -> (plan:
        Result<MonitorPlan, PlanError>)
        ensures
            plan is Err <==> demo is None && cores@.len() == 0,
            plan matches Ok(p) ==> {
                &&& p.threshold_ns == threshold_ns
                &&& p.cores@ == match demo {
                    Some(d) => seq![d.core],
                    None => cores@,
                }
                &&& p.pids@ == match demo {
                    Some(d) => seq![d.victim_pid],
                    None => pids@,
                }
            },
    {
        match demo {
            Some(d) => {
                let plan = MonitorPlan {
                    cores: vec![d.core],
                    pids: vec![d.victim_pid],
                    threshold_ns,
                };
                assert(plan.cores@ =~= seq![d.core]);
                assert(plan.pids@ =~= seq![d.victim_pid]);
                Ok(plan)
            },
            None => {
                if cores.len() == 0 {
                    return Err(PlanError::NoCores);
                }
                Ok(MonitorPlan { cores, pids, threshold_ns })
            },
        }
    }

    /// Whether every task is monitored, which is so if none is listed. The task table does not tell:
    /// zero may be listed as well.
    pub fn monitors_all(&self) -> (all: bool)
        ensures
            all == (self.pids@.len() == 0),
    {
        self.pids.len() == 0
    }

    /// The entries of the probe's task table.
    pub fn pid_filter(&self) -> (entries: Vec<u32>)
        ensures
            entries@ == self.pid_entries(),
    {
        if self.pids.len() == 0 {
            let entries: Vec<u32> = vec![0u32];
            assert(entries@ =~= seq![0u32]);
            entries
        } else {
            let entries: Vec<u32> = self.pids.clone();
            assert(entries@ =~= self.pids@);
            entries
        }
    }
}

/// The core for the demo, given the number of cores if it is known: the last one, which is the least
/// likely to be busy with system services.
pub fn pick_demo_core(nr_cpus: Option<usize>) -> (core: u32)
    ensures
        ({
            let nr = match nr_cpus {
                Some(n) => n as u32,
                None => 4u32,
            };
            core == if nr == 0 {
                0
            } else {
                nr - 1
            }
        }),
{
    let nr: u32 = match nr_cpus {
        Some(n) => #[verifier::truncate] (n as u32),
        None => 4,
    };
    nr.saturating_sub(1)
}

/// The arguments with which `taskset` runs a shell script on one core.
pub open spec fn pinned_args(core: u32, script: Seq<char>) -> Seq<Seq<char>> {
    seq!["-c"@, decimal(core as nat), "bash"@, "-c"@, script]
}

/// Arguments as character sequences.
pub open spec fn texts(args: Seq<String>) -> Seq<Seq<char>> {
    args.map_values(|arg: String| arg@)
}

/// The `taskset` arguments of the demo's tasks.
pub struct DemoCommands {
    pub victim: Vec<String>,
    pub aggressors: Vec<Vec<String>>,
}

/// Makes the arguments for one script.
fn pinned(core: u32, script: &str) -> (args: Vec<String>)
    ensures
        texts(args@) == pinned_args(core, script@),
{
    let mut core_text = String::new();
    push_decimal(&mut core_text, core as u64);
    let args: Vec<String> = vec![
        "-c".to_owned(),
        core_text,
        "bash".to_owned(),
        "-c".to_owned(),
        script.to_owned(),
    ];
    assert(texts(args@) =~= pinned_args(core, script@));
    args
}

/// The commands of the demo: a victim that spins, and three aggressors that take its core from it by
/// copying, by hashing and by syncing.
pub fn demo_commands(core: u32) -> (commands: DemoCommands)
    ensures
        texts(commands.victim@) == pinned_args(
            core,
            "exec -a jsnoop-victim bash -c 'while true; do :; done'"@,
        ),
        commands.aggressors@.len() == 3,
        texts(commands.aggressors@[0]@) == pinned_args(
            core,
            "exec -a jsnoop-aggressor bash -c 'while true; do dd if=/dev/urandom of=/dev/null bs=64K count=8 2>/dev/null; done'"@,
        ),
        texts(commands.aggressors@[1]@) == pinned_args(
            core,
            "exec -a jsnoop-malloc bash -c 'while true; do head -c 1M /dev/urandom | sha256sum > /dev/null; done'"@,
        ),
        texts(commands.aggressors@[2]@) == pinned_args(
            core,
            "exec -a jsnoop-io bash -c 'while true; do sync; echo 3 > /proc/sys/vm/drop_caches 2>/dev/null; sleep 0.01; done'"@,
        ),
{
    DemoCommands {
        victim: pinned(core, "exec -a jsnoop-victim bash -c 'while true; do :; done'"),
        aggressors: vec![
            pinned(
                core,
                "exec -a jsnoop-aggressor bash -c 'while true; do dd if=/dev/urandom of=/dev/null bs=64K count=8 2>/dev/null; done'",
            ),
            pinned(
                core,
                "exec -a jsnoop-malloc bash -c 'while true; do head -c 1M /dev/urandom | sha256sum > /dev/null; done'",
            ),
            pinned(
                core,
                "exec -a jsnoop-io bash -c 'while true; do sync; echo 3 > /proc/sys/vm/drop_caches 2>/dev/null; sleep 0.01; done'",
            ),
        ],
    }
}

/// What the recorder says of itself.
pub struct StatusJson {
    pub start_time_ms: u64,
    pub uptime_ms: u64,
}

/// The status at `now_ms` of a recorder that was started at `start_time_ms`. If the clock has gone
/// back behind the start, it has been up for no time.
pub fn status(start_time_ms: u64, now_ms: u64) -> (status: StatusJson)
    ensures
        status.start_time_ms == start_time_ms,
        status.uptime_ms == if now_ms < start_time_ms {
            0
        } else {
            now_ms - start_time_ms
        },
{
    StatusJson { start_time_ms, uptime_ms: now_ms.saturating_sub(start_time_ms) }
}

/// Without the demo the plan is the settings as they were given, and there is none only without
/// cores.
pub proof fn law_plan_follows_the_settings(
    cores: Vec<u32>,
    pids: Vec<u32>,
    threshold_ns: u64,
    plan: Result<MonitorPlan, PlanError>,
)
    requires
        call_ensures(MonitorPlan::new, (cores, pids, threshold_ns, None), plan),
    ensures
        plan is Ok <==> cores@.len() > 0,
        plan matches Ok(p) ==> p.cores@ == cores@ && p.pids@ == pids@ && p.threshold_ns
            == threshold_ns,
{
}

/// The demo always has a plan: its own core and its own victim, and nothing else.
pub proof fn law_demo_monitors_its_own_victim(
    cores: Vec<u32>,
    pids: Vec<u32>,
    threshold_ns: u64,
    demo: DemoTarget,
    plan: Result<MonitorPlan, PlanError>,
)
    requires
        call_ensures(MonitorPlan::new, (cores, pids, threshold_ns, Some(demo)), plan),
    ensures
        plan matches Ok(p) && p.threshold_ns == threshold_ns && (forall|core: u32| #[trigger]
            p.cores@.contains(core) <==> core == demo.core) && (forall|pid: u32| #[trigger]
            p.pids@.contains(pid) <==> pid == demo.victim_pid),
{
    let p = plan->Ok_0;
    assert(p.cores@[0] == demo.core);
    assert(p.pids@[0] == demo.victim_pid);
}

/// The task table holds exactly the listed tasks; if there are none it holds zero alone, and then all
/// tasks are monitored.
pub proof fn law_task_table_holds_the_listed_tasks(
    plan: MonitorPlan,
    entries: Vec<u32>,
    all: bool,
)
    requires
        call_ensures(MonitorPlan::pid_filter, (&plan,), entries),
        call_ensures(MonitorPlan::monitors_all, (&plan,), all),
    ensures
        all <==> plan.pids@.len() == 0,
        !all ==> entries@ == plan.pids@,
        all ==> forall|pid: u32| #[trigger] entries@.contains(pid) <==> pid == 0,
{
    if all {
        assert(entries@[0] == 0);
    }
}

/// The demo runs on the last core there is; where their number is not known, on that of four.
pub proof fn law_demo_runs_on_the_last_core(nr_cpus: Option<usize>, core: u32)
    requires
        call_ensures(pick_demo_core, (nr_cpus,), core),
        nr_cpus matches Some(n) ==> 0 < n <= u32::MAX,
    ensures
        nr_cpus matches Some(n) ==> core < n && core + 1 == n,
        nr_cpus is None ==> core == 3,
{
}

/// The uptime leads from the start to now; it is none where the clock went back behind the start.
pub proof fn law_uptime_leads_from_start_to_now(start_ms: u64, now_ms: u64, answer: StatusJson)
    requires
        call_ensures(status, (start_ms, now_ms), answer),
    ensures
        answer.start_time_ms == start_ms,
        start_ms <= now_ms ==> start_ms + answer.uptime_ms == now_ms,
        now_ms <= start_ms ==> answer.uptime_ms == 0,
{
}

/// Every task of the demo is a shell script that `taskset` pins to the demo's core.
pub proof fn law_demo_tasks_are_pinned_to_the_core(
    core: u32,
    commands: DemoCommands,
    number: &mut String,
    i: int,
)
    requires
        call_ensures(demo_commands, (core,), commands),
        call_ensures(push_decimal, (number, core as u64), ()),
        old(number)@.len() == 0,
        0 <= i < 3,
    ensures
        commands.victim@.len() == 5,
        commands.victim@[0]@ == "-c"@,
        commands.victim@[1]@ == final(number)@,
        commands.victim@[2]@ == "bash"@,
        commands.victim@[3]@ == "-c"@,
        commands.aggressors@.len() == 3,
        commands.aggressors@[i]@.len() == 5,
        commands.aggressors@[i]@[0]@ == "-c"@,
        commands.aggressors@[i]@[1]@ == final(number)@,
        commands.aggressors@[i]@[2]@ == "bash"@,
        commands.aggressors@[i]@[3]@ == "-c"@,
{
    assert(old(number)@ + decimal(core as nat) =~= decimal(core as nat));
    let victim = texts(commands.victim@);
    let aggressor = texts(commands.aggressors@[i]@);
    assert(victim.len() == 5 && aggressor.len() == 5);
    assert(victim[0] == commands.victim@[0]@ && victim[1] == commands.victim@[1]@);
    assert(victim[2] == commands.victim@[2]@ && victim[3] == commands.victim@[3]@);
    assert(aggressor[0] == commands.aggressors@[i]@[0]@);
    assert(aggressor[1] == commands.aggressors@[i]@[1]@);
    assert(aggressor[2] == commands.aggressors@[i]@[2]@);
    assert(aggressor[3] == commands.aggressors@[i]@[3]@);
}

/// The scripts of the demo: a victim that spins, and aggressors that copy, hash and sync.
pub proof fn law_demo_scripts(core: u32, commands: DemoCommands)
    requires
        call_ensures(demo_commands, (core,), commands),
    ensures
        commands.victim@[4]@ == "exec -a jsnoop-victim bash -c 'while true; do :; done'"@,
        commands.aggressors@[0]@[4]@
            == "exec -a jsnoop-aggressor bash -c 'while true; do dd if=/dev/urandom of=/dev/null bs=64K count=8 2>/dev/null; done'"@,
        commands.aggressors@[1]@[4]@
            == "exec -a jsnoop-malloc bash -c 'while true; do head -c 1M /dev/urandom | sha256sum > /dev/null; done'"@,
        commands.aggressors@[2]@[4]@
            == "exec -a jsnoop-io bash -c 'while true; do sync; echo 3 > /proc/sys/vm/drop_caches 2>/dev/null; sleep 0.01; done'"@,
{
    assert(texts(commands.victim@).len() == 5);
    assert(forall|i: int|
        0 <= i < 3 ==> texts((#[trigger] commands.aggressors@[i])@).len() == 5);
    assert(texts(commands.victim@)[4] == commands.victim@[4]@);
    assert(texts(commands.aggressors@[0]@)[4] == commands.aggressors@[0]@[4]@);
    assert(texts(commands.aggressors@[1]@)[4] == commands.aggressors@[1]@[4]@);
    assert(texts(commands.aggressors@[2]@)[4] == commands.aggressors@[2]@[4]@);
}

/// The refusal says what is missing.
pub proof fn law_refusal_says_what_is_missing(error: PlanError, text: String)
    requires
        call_ensures(PlanError::message, (&error,), text),
    ensures
        text@ == "specify --cores or use --demo for a quick start"@,
{
}

} // verus!
