//! Where things are on the machine, which part of the program runs, and how only one runs at a time.

use crate::text;
use vstd::prelude::*;

verus! {

/// The release.
pub const VERSION: &'static str = "2.3.1";

/// Where the program keeps its files.
pub const INSTALL_DIR: &'static str = "/etc/ddnsfw";

/// The installed program.
pub const BINARY_PATH: &'static str = "/etc/ddnsfw/run";

/// The configuration file.
pub const CONFIG_PATH: &'static str = "/etc/ddnsfw/conf.conf";

/// The cache file.
pub const CACHE_PATH: &'static str = "/etc/ddnsfw/service.cache";

/// The lock file.
pub const LOCK_PATH: &'static str = "/etc/ddnsfw/.lock";

/// The unit that synchronizes once.
pub const SERVICE_PATH: &'static str = "/etc/systemd/system/ddnsfw.service";

/// The unit that synchronizes again and again.
pub const TIMER_PATH: &'static str = "/etc/systemd/system/ddnsfw.timer";

/// How long to wait for another run to end, in seconds.
pub const LOCK_TIMEOUT_SECS: u64 = 30;

// ---------------------------------------------------------------------------
// The firewall command
// ---------------------------------------------------------------------------

/// Where the firewall command may be, the preferred place first.
pub open spec fn iptables_places() -> Seq<Seq<char>> {
    seq!["/usr/sbin/iptables"@, "/sbin/iptables"@, "/usr/bin/iptables"@]
}

/// Where the firewall command may be, the preferred place first.
pub fn iptables_paths() -> (out: Vec<&'static str>)
    ensures
        out@.len() == iptables_places().len(),
        forall|i: int| 0 <= i < out@.len() ==> (#[trigger] out@[i])@ == iptables_places()[i],
{
    let mut out: Vec<&'static str> = Vec::new();
    out.push("/usr/sbin/iptables");
    out.push("/sbin/iptables");
    out.push("/usr/bin/iptables");
    out
}

/// Place `i` is known to hold something.
pub open spec fn occupied(present: Seq<bool>, i: int) -> bool {
    0 <= i < present.len() && present[i]
}

/// The firewall command: the first place that holds something. `present` says which of the places
/// do.
pub fn find_iptables(present: &Vec<bool>) -> (out: Option<&'static str>)
    ensures
        match out {
            Some(path) => exists|i: int|
                0 <= i < iptables_places().len() && #[trigger] occupied(present@, i) && path@
                    == iptables_places()[i] && forall|j: int|
                    0 <= j < i ==> !#[trigger] occupied(present@, j),
            None => forall|i: int|
                0 <= i < iptables_places().len() ==> !#[trigger] occupied(present@, i),
        },
{
    let paths = iptables_paths();
    let mut i: usize = 0;
    while i < paths.len()
        invariant
            i <= paths@.len(),
            paths@.len() == iptables_places().len(),
            forall|k: int|
                0 <= k < paths@.len() ==> (#[trigger] paths@[k])@ == iptables_places()[k],
            forall|j: int| 0 <= j < i ==> !#[trigger] occupied(present@, j),
        decreases paths@.len() - i,
    {
        if i < present.len() && present[i] {
            assert(occupied(present@, i as int));
            return Some(paths[i]);
        }
        i = i + 1;
    }
    None
}

// ---------------------------------------------------------------------------
// Which part of the program runs
// ---------------------------------------------------------------------------

/// Whether the effective user is the superuser.
pub fn is_root(euid: u32) -> (res: bool)
    ensures
        res == (euid == 0),
{
    euid == 0
}

/// Whether the program is installed: its binary and its configuration are there.
pub fn is_installed(binary_exists: bool, config_exists: bool) -> (res: bool)
    ensures
        res == (binary_exists && config_exists),
{
    binary_exists && config_exists
}

/// The path of the running program is that of the installed one.
pub open spec fn runs_installed(exe: Option<Seq<char>>) -> bool {
    exe == Some(BINARY_PATH@)
}

/// Whether the running program is the installed one.
pub fn is_running_installed(exe: Option<&str>) -> (res: bool)
    ensures
        res == runs_installed(text::optional(exe)),
{
    match exe {
        Some(path) => {
            let chars = text::chars_of(path);
            text::spells(chars.as_slice(), BINARY_PATH)
        },
        None => false,
    }
}

/// The firewall command is looked for in these three places, in this order, and nowhere else.
pub proof fn law_places(path: Seq<char>)
    ensures
        iptables_places().contains(path) <==> path == "/usr/sbin/iptables"@ || path
            == "/sbin/iptables"@ || path == "/usr/bin/iptables"@,
        iptables_places().len() == 3,
        iptables_places()[0] == "/usr/sbin/iptables"@,
        iptables_places()[1] == "/sbin/iptables"@,
        iptables_places()[2] == "/usr/bin/iptables"@,
{
    let places = iptables_places();
    assert(places.contains(places[0]));
    assert(places.contains(places[1]));
    assert(places.contains(places[2]));
}

/// The running program is the installed one at one path alone.
pub proof fn law_one_place(a: Option<Seq<char>>, b: Option<Seq<char>>)
    ensures
        runs_installed(a) && runs_installed(b) ==> a == b && a is Some,
        runs_installed(Some("/etc/ddnsfw/run"@)),
{
}

/// What the program does when it is started.
#[derive(Clone, Copy, Debug, PartialEq, Eq, Structural)]
pub enum Mode {
    /// Nothing: it must be started by the superuser.
    NotRoot,
    /// It synchronizes the firewall.
    Sync,
    /// It says that it is installed.
    AlreadyInstalled,
    /// It asks for a configuration and installs itself.
    Setup,
}

/// What the program does when it is started.
pub open spec fn mode_of(root: bool, installed: bool, running_installed: bool) -> Mode {
    if !root {
        Mode::NotRoot
    } else if installed && running_installed {
        Mode::Sync
    } else if installed {
        Mode::AlreadyInstalled
    } else {
        Mode::Setup
    }
}

/// What the program does when it is started.
pub fn run_mode(euid: u32, binary_exists: bool, config_exists: bool, exe: Option<&str>) -> (out: Mode)
    ensures
        out == mode_of(euid == 0, binary_exists && config_exists, runs_installed(text::optional(exe))),
{
    if !is_root(euid) {
        Mode::NotRoot
    } else if is_installed(binary_exists, config_exists) {
        if is_running_installed(exe) {
            Mode::Sync
        } else {
            Mode::AlreadyInstalled
        }
    } else {
        Mode::Setup
    }
}

/// Only the superuser gets the firewall synchronized or the program installed; for everyone else the
/// program does nothing. What is installed is synchronized by the installed program alone, and is not
/// set up again.
pub proof fn law_root_only(root: bool, installed: bool, running_installed: bool)
    ensures
        mode_of(root, installed, running_installed) == Mode::Sync || mode_of(
            root,
            installed,
            running_installed,
        ) == Mode::Setup ==> root,
        mode_of(root, installed, running_installed) == Mode::NotRoot <==> !root,
        mode_of(root, installed, running_installed) == Mode::Sync <==> root && installed
            && running_installed,
        mode_of(root, installed, running_installed) == Mode::Setup <==> root && !installed,
{
}

// ---------------------------------------------------------------------------
// One run at a time
// ---------------------------------------------------------------------------

/// How the lock is come by.
#[derive(Clone, Copy, Debug, PartialEq, Eq, Structural)]
pub enum LockStep {
    /// The lock file is to be opened.
    Open,
    /// The lock is to be taken, without waiting.
    TryLock,
    /// The lock is to be waited for, so many seconds at most.
    WaitLock(u64),
    /// The lock is held.
    Held,
    /// The lock file cannot be opened.
    CannotOpen,
    /// The lock was waited for in vain.
    TimedOut,
}

/// How the lock is come by. `opened` says whether the lock file could be opened, `tried` what taking
/// the lock gave, and `waited` what waiting for it gave, if anything came in time: zero stands for
/// success.
pub open spec fn lock_step(
    opened: Option<bool>,
    tried: Option<i32>,
    waited: Option<Option<i32>>,
) -> LockStep {
    match opened {
        None => LockStep::Open,
        Some(false) => LockStep::CannotOpen,
        Some(true) => match tried {
            None => LockStep::TryLock,
            Some(result) => if result == 0 {
                LockStep::Held
            } else {
                match waited {
                    None => LockStep::WaitLock(LOCK_TIMEOUT_SECS),
                    Some(late) => if late == Some(0i32) {
                        LockStep::Held
                    } else {
                        LockStep::TimedOut
                    },
                }
            },
        },
    }
}

/// How the lock is come by.
pub fn acquire_lock(opened: Option<bool>, tried: Option<i32>, waited: Option<Option<i32>>) -> (out:
    LockStep)
    ensures
        out == lock_step(opened, tried, waited),
{
    match opened {
        None => LockStep::Open,
        Some(false) => LockStep::CannotOpen,
        Some(true) => match tried {
            None => LockStep::TryLock,
            Some(result) => {
                if result == 0 {
                    return LockStep::Held;
                }
                match waited {
                    None => LockStep::WaitLock(LOCK_TIMEOUT_SECS),
                    Some(Some(late)) => {
                        if late == 0 {
                            LockStep::Held
                        } else {
                            LockStep::TimedOut
                        }
                    },
                    Some(None) => LockStep::TimedOut,
                }
            },
        },
    }
}

/// The lock counts as held only when taking it or waiting for it succeeded.
pub proof fn law_lock_taken(
    opened: Option<bool>,
    tried: Option<i32>,
    waited: Option<Option<i32>>,
)
    requires
        lock_step(opened, tried, waited) == LockStep::Held,
    ensures
        opened == Some(true),
        tried == Some(0i32) || waited == Some(Some(0i32)),
{
}

/// Nothing but zero is success, and all other results are alike: at the first attempt they lead to one
/// wait, after which the lock is held exactly when zero came in time.
pub proof fn law_lock_results(a: i32, b: i32, waited: Option<Option<i32>>)
    requires
        a != 0,
        b != 0,
    ensures
        lock_step(Some(true), Some(0i32), waited) == LockStep::Held,
        lock_step(Some(true), Some(a), waited) == lock_step(Some(true), Some(b), waited),
        lock_step(Some(true), Some(a), None) == LockStep::WaitLock(30),
        lock_step(Some(true), Some(a), Some(Some(0i32))) == LockStep::Held,
        lock_step(Some(true), Some(a), Some(Some(b))) == LockStep::TimedOut,
        lock_step(Some(true), Some(a), Some(None)) == LockStep::TimedOut,
{
}

/// Something that happened to the lock. Runs are told apart by numbers.
pub enum LockEvent {
    /// A run asked for the lock and got this result.
    Asked(int, i32),
    /// A run closed the lock file, or ended.
    Closed(int),
}

/// The runs that hold the lock after some events.
pub open spec fn holders(events: Seq<LockEvent>) -> Set<int>
    decreases events.len(),
{
    if events.len() == 0 {
        Set::<int>::empty()
    } else {
        let before = holders(events.drop_last());
        match events.last() {
            LockEvent::Asked(who, result) => if result == 0 {
                before.insert(who)
            } else {
                before
            },
            LockEvent::Closed(who) => before.remove(who),
        }
    }
}

/// The system gives the lock to a run only while no other run holds it.
pub open spec fn exclusive(events: Seq<LockEvent>) -> bool
    decreases events.len(),
{
    events.len() == 0 || {
        &&& exclusive(events.drop_last())
        &&& match events.last() {
            LockEvent::Asked(who, result) => result == 0 ==> forall|other: int| #[trigger]
                holders(events.drop_last()).contains(other) ==> other == who,
            LockEvent::Closed(_) => true,
        }
    }
}

/// Event `i` gave this result to the run, which has not closed the lock file since.
pub open spec fn told_at(events: Seq<LockEvent>, i: int, who: int, result: i32) -> bool {
    &&& 0 <= i < events.len()
    &&& events[i] == LockEvent::Asked(who, result)
    &&& forall|j: int| i < j < events.len() ==> #[trigger] events[j] != LockEvent::Closed(who)
}

/// The run was given this result and has not closed the lock file since.
pub open spec fn told(events: Seq<LockEvent>, who: int, result: i32) -> bool {
    exists|i: int| told_at(events, i, who, result)
}

/// The run goes by results that it was given, and takes the lock to be held.
pub open spec fn takes_as_held(
    events: Seq<LockEvent>,
    who: int,
    tried: Option<i32>,
    waited: Option<Option<i32>>,
) -> bool {
    &&& lock_step(Some(true), tried, waited) == LockStep::Held
    &&& tried matches Some(result) ==> told(events, who, result)
    &&& waited matches Some(Some(result)) ==> told(events, who, result)
}

proof fn lemma_told_holds(events: Seq<LockEvent>, i: int, who: int)
    requires
        told_at(events, i, who, 0),
    ensures
        holders(events).contains(who),
    decreases events.len(),
{
    if i < events.len() - 1 {
        let before = events.drop_last();
        assert(before[i] == events[i]);
        assert forall|j: int| i < j < before.len() implies #[trigger] before[j]
            != LockEvent::Closed(who) by {
            assert(before[j] == events[j]);
        }
        lemma_told_holds(before, i, who);
        assert(events[events.len() - 1] != LockEvent::Closed(who));
    }
}

proof fn lemma_one_holder(events: Seq<LockEvent>, a: int, b: int)
    requires
        exclusive(events),
        holders(events).contains(a),
        holders(events).contains(b),
    ensures
        a == b,
    decreases events.len(),
{
    if events.len() > 0 {
        let before = events.drop_last();
        if holders(before).contains(a) && holders(before).contains(b) {
            lemma_one_holder(before, a, b);
        }
    }
}

/// As long as the system gives the lock to one run at a time, no two runs take it to be held: a second
/// run waits or ends.
pub proof fn law_one_run_at_a_time(
    events: Seq<LockEvent>,
    a: int,
    tried_a: Option<i32>,
    waited_a: Option<Option<i32>>,
    b: int,
    tried_b: Option<i32>,
    waited_b: Option<Option<i32>>,
)
    requires
        exclusive(events),
        takes_as_held(events, a, tried_a, waited_a),
        takes_as_held(events, b, tried_b, waited_b),
    ensures
        a == b,
{
    law_lock_taken(Some(true), tried_a, waited_a);
    law_lock_taken(Some(true), tried_b, waited_b);
    assert(told(events, a, 0));
    assert(told(events, b, 0));
    let i = choose|i: int| told_at(events, i, a, 0);
    let j = choose|j: int| told_at(events, j, b, 0);
    lemma_told_holds(events, i, a);
    lemma_told_holds(events, j, b);
    lemma_one_holder(events, a, b);
}

} // verus!
