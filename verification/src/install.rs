//! The installation: what is written where, with which permissions, in which order.

use crate::addr::Rule;
use crate::cache;
use crate::cache::Cache;
use crate::cache::CacheState;
use crate::cache::CacheView;
use crate::config;
use crate::config::DdnsEntry;
use crate::config::EntryView;
use crate::system;
use crate::system::BINARY_PATH;
use crate::system::CACHE_PATH;
use crate::system::CONFIG_PATH;
use crate::system::INSTALL_DIR;
use crate::system::LOCK_PATH;
use crate::system::SERVICE_PATH;
use crate::system::TIMER_PATH;
use crate::text;
use vstd::prelude::*;

verus! {

/// Read, write and search or execute, for the owner alone.
pub const OWNER_ALL: u32 = 0o700;

/// Read and write, for the owner alone.
pub const OWNER_FILE: u32 = 0o600;

/// The unit that synchronizes once.
pub const SERVICE_UNIT: &'static str =
    "[Unit]\nDescription=DDNS Firewall Synchronizer\nAfter=network-online.target\nWants=network-online.target\n\n[Service]\nType=oneshot\nExecStart=/etc/ddnsfw/run\nUser=root\nStandardOutput=journal\nStandardError=journal\nSyslogIdentifier=ddnsfw\n\n[Install]\nWantedBy=multi-user.target\n";

/// The unit that synchronizes again and again.
pub const TIMER_UNIT: &'static str =
    "[Unit]\nDescription=DDNS Firewall Synchronizer Timer\n\n[Timer]\nOnBootSec=30sec\nOnUnitActiveSec=2min\nRandomizedDelaySec=10sec\nPersistent=true\n\n[Install]\nWantedBy=timers.target\n";

/// Something that is done to the machine.
pub enum Action {
    /// Creates a directory, with those above it.
    MakeDir(String),
    /// Sets the permissions of a file or a directory.
    SetMode(String, u32),
    /// Copies a file to a place.
    Copy(String, String),
    /// Writes a file; a new file gets the permissions, if any are given.
    Write(String, Option<u32>, String),
    /// Replaces a file at once by another that has the permissions.
    Replace(String, u32, String),
    /// Creates a file with the permissions, unless it is there.
    Create(String, u32),
    /// Runs `systemctl` with the arguments.
    Systemctl(Vec<String>),
    /// Gives up.
    GiveUp,
}

/// What an action says.
pub enum ActionView {
    MakeDir(Seq<char>),
    SetMode(Seq<char>, u32),
    Copy(Seq<char>, Seq<char>),
    Write(Seq<char>, Option<u32>, Seq<char>),
    Replace(Seq<char>, u32, Seq<char>),
    Create(Seq<char>, u32),
    Systemctl(Seq<Seq<char>>),
    GiveUp,
}

impl View for Action {
    type V = ActionView;

    open spec fn view(&self) -> ActionView {
        match self {
            Action::MakeDir(path) => ActionView::MakeDir(path@),
            Action::SetMode(path, mode) => ActionView::SetMode(path@, *mode),
            Action::Copy(from, to) => ActionView::Copy(from@, to@),
            Action::Write(path, mode, content) => ActionView::Write(path@, *mode, content@),
            Action::Replace(path, mode, content) => ActionView::Replace(path@, *mode, content@),
            Action::Create(path, mode) => ActionView::Create(path@, *mode),
            Action::Systemctl(args) => ActionView::Systemctl(text::texts(args@)),
            Action::GiveUp => ActionView::GiveUp,
        }
    }
}

/// A step of the installation: an action, and the complaint with which the installation ends when
/// the action fails. Without a complaint the installation goes on.
pub struct InstallStep {
    pub action: Action,
    pub complaint: Option<&'static str>,
}

/// What a step says.
pub struct StepView {
    pub action: ActionView,
    pub complaint: Option<Seq<char>>,
}

impl View for InstallStep {
    type V = StepView;

    open spec fn view(&self) -> StepView {
        StepView { action: self.action@, complaint: text::optional(self.complaint) }
    }
}

/// What the steps of a list say.
pub open spec fn step_views(list: Seq<InstallStep>) -> Seq<StepView> {
    list.map_values(|step: InstallStep| step@)
}

/// A step whose failure ends the installation.
pub open spec fn needed(action: ActionView, complaint: Seq<char>) -> StepView {
    StepView { action, complaint: Some(complaint) }
}

/// A step whose failure is passed over.
pub open spec fn wished(action: ActionView) -> StepView {
    StepView { action, complaint: None }
}

/// The directory.
pub open spec fn directory_steps() -> Seq<StepView> {
    seq![
        needed(ActionView::MakeDir(INSTALL_DIR@), "Failed to create directory"@),
        needed(
            ActionView::SetMode(INSTALL_DIR@, OWNER_ALL),
            "Failed to set directory permissions"@,
        ),
    ]
}

/// The program, which is copied unless it is where it belongs.
pub open spec fn binary_steps(exe: Seq<char>) -> Seq<StepView> {
    let rights = needed(
        ActionView::SetMode(BINARY_PATH@, OWNER_ALL),
        "Failed to set binary permissions"@,
    );
    if exe == BINARY_PATH@ {
        seq![rights]
    } else {
        seq![needed(ActionView::Copy(exe, BINARY_PATH@), "Failed to copy binary"@), rights]
    }
}

/// The configuration, the cache of a first run and the lock file.
pub open spec fn file_steps(entries: Seq<EntryView>) -> Seq<StepView> {
    seq![
        needed(
            ActionView::Write(CONFIG_PATH@, Some(OWNER_FILE), config::config_text(entries)),
            "Failed to write config"@,
        ),
        needed(
            ActionView::SetMode(CONFIG_PATH@, OWNER_FILE),
            "Failed to set config permissions"@,
        ),
        wished(
            ActionView::Replace(CACHE_PATH@, OWNER_FILE, cache::cache_text(cache::empty_cache())),
        ),
        needed(ActionView::Create(LOCK_PATH@, OWNER_FILE), "Failed to create lock file"@),
        needed(
            ActionView::SetMode(LOCK_PATH@, OWNER_FILE),
            "Failed to set lock file permissions"@,
        ),
    ]
}

/// The units, and how they are started.
pub open spec fn unit_steps() -> Seq<StepView> {
    seq![
        needed(
            ActionView::Write(SERVICE_PATH@, None, SERVICE_UNIT@),
            "Failed to write service file"@,
        ),
        needed(ActionView::Write(TIMER_PATH@, None, TIMER_UNIT@), "Failed to write timer file"@),
        wished(ActionView::Systemctl(seq!["daemon-reload"@])),
        wished(ActionView::Systemctl(seq!["enable"@, "ddnsfw.timer"@])),
        wished(ActionView::Systemctl(seq!["start"@, "ddnsfw.timer"@])),
        wished(ActionView::Systemctl(seq!["start"@, "ddnsfw.service"@])),
    ]
}

/// The steps of the installation, when the program that runs is at `exe`. When that is not known,
/// the installation ends before the program would be copied.
pub open spec fn install_steps(entries: Seq<EntryView>, exe: Option<Seq<char>>) -> Seq<StepView> {
    directory_steps() + match exe {
        Some(path) => binary_steps(path) + file_steps(entries) + unit_steps(),
        None => seq![needed(ActionView::GiveUp, "Cannot get exe path"@)],
    }
}

/// What follows on a step.
#[derive(Clone, Copy, Debug, PartialEq, Eq)]
pub enum Next {
    /// The step with this number.
    Perform(usize),
    /// Nothing: the installation is complete.
    Complete,
    /// Nothing: the installation ends with this complaint.
    Failed(&'static str),
}

/// What follows on a step.
pub enum NextView {
    Perform(int),
    Complete,
    Failed(Seq<char>),
}

impl View for Next {
    type V = NextView;

    open spec fn view(&self) -> NextView {
        match self {
            Next::Perform(i) => NextView::Perform(*i as int),
            Next::Complete => NextView::Complete,
            Next::Failed(complaint) => NextView::Failed(complaint@),
        }
    }
}

/// What follows on step `i`, which succeeded or not: the next step, unless there is none or the step
/// failed and has a complaint.
pub open spec fn next_of(steps: Seq<StepView>, i: int, ok: bool) -> NextView {
    if !ok && 0 <= i < steps.len() && steps[i].complaint is Some {
        NextView::Failed(steps[i].complaint->0)
    } else if i + 1 < steps.len() {
        NextView::Perform(i + 1)
    } else {
        NextView::Complete
    }
}

// ---------------------------------------------------------------------------
// Laws
// ---------------------------------------------------------------------------

/// The permissions of the files and directories after an action that succeeded. `unsaid` stands for
/// permissions that the action leaves to the system: those of a new directory, of a new file for which
/// none are given, and of a copy.
pub open spec fn modes_after(
    modes: Map<Seq<char>, u32>,
    action: ActionView,
    unsaid: u32,
) -> Map<Seq<char>, u32> {
    match action {
        ActionView::MakeDir(path) => if modes.dom().contains(path) {
            modes
        } else {
            modes.insert(path, unsaid)
        },
        ActionView::SetMode(path, mode) => modes.insert(path, mode),
        ActionView::Copy(_, to) => modes.insert(to, unsaid),
        ActionView::Write(path, mode, _) => if modes.dom().contains(path) {
            modes
        } else {
            modes.insert(
                path,
                match mode {
                    Some(given) => given,
                    None => unsaid,
                },
            )
        },
        ActionView::Replace(path, mode, _) => modes.insert(path, mode),
        ActionView::Create(path, mode) => if modes.dom().contains(path) {
            modes
        } else {
            modes.insert(path, mode)
        },
        ActionView::Systemctl(_) => modes,
        ActionView::GiveUp => modes,
    }
}

/// The permissions of the files and directories after the first `n` steps, when all of them succeed.
pub open spec fn modes_at(
    modes: Map<Seq<char>, u32>,
    steps: Seq<StepView>,
    unsaid: Seq<u32>,
    n: int,
) -> Map<Seq<char>, u32>
    decreases n,
{
    if n <= 0 {
        modes
    } else {
        modes_after(modes_at(modes, steps, unsaid, n - 1), steps[n - 1].action, unsaid[n - 1])
    }
}

/// The file or the directory that an action may give permissions to.
pub open spec fn place_of(action: ActionView) -> Option<Seq<char>> {
    match action {
        ActionView::MakeDir(path) => Some(path),
        ActionView::SetMode(path, _) => Some(path),
        ActionView::Copy(_, to) => Some(to),
        ActionView::Write(path, _, _) => Some(path),
        ActionView::Replace(path, _, _) => Some(path),
        ActionView::Create(path, _) => Some(path),
        ActionView::Systemctl(_) => None,
        ActionView::GiveUp => None,
    }
}

/// The place has exactly these permissions.
pub open spec fn has_mode(modes: Map<Seq<char>, u32>, path: Seq<char>, mode: u32) -> bool {
    modes.dom().contains(path) && modes[path] == mode
}

/// What a step sets and no later step touches is so at the end.
proof fn lemma_mode_stays(
    modes: Map<Seq<char>, u32>,
    steps: Seq<StepView>,
    unsaid: Seq<u32>,
    k: int,
    n: int,
    path: Seq<char>,
    mode: u32,
)
    requires
        0 <= k < n <= steps.len(),
        match steps[k].action {
            ActionView::SetMode(place, given) => place == path && given == mode,
            ActionView::Replace(place, given, _) => place == path && given == mode,
            _ => false,
        },
        forall|j: int| k < j < n ==> place_of((#[trigger] steps[j]).action) != Some(path),
    ensures
        has_mode(modes_at(modes, steps, unsaid, n), path, mode),
    decreases n,
{
    if k < n - 1 {
        lemma_mode_stays(modes, steps, unsaid, k, n - 1, path, mode);
        assert(place_of(steps[n - 1].action) != Some(path));
    }
}

/// The places of the installation are different ones.
proof fn lemma_places_differ()
    ensures
        INSTALL_DIR@.len() == 11,
        BINARY_PATH@.len() == 15,
        LOCK_PATH@.len() == 17,
        CONFIG_PATH@.len() == 21,
        CACHE_PATH@.len() == 25,
        TIMER_PATH@.len() == 32,
        SERVICE_PATH@.len() == 34,
{
    reveal_strlit("/etc/ddnsfw");
    reveal_strlit("/etc/ddnsfw/run");
    reveal_strlit("/etc/ddnsfw/.lock");
    reveal_strlit("/etc/ddnsfw/conf.conf");
    reveal_strlit("/etc/ddnsfw/service.cache");
    reveal_strlit("/etc/systemd/system/ddnsfw.timer");
    reveal_strlit("/etc/systemd/system/ddnsfw.service");
}

/// After an installation in which every step succeeds, whatever files were there before with whatever
/// permissions: the directory and the program are for the owner alone to search and to execute, and
/// the configuration, the cache and the lock file for the owner alone to read and write.
pub proof fn law_permissions(
    entries: Seq<EntryView>,
    exe: Seq<char>,
    before: Map<Seq<char>, u32>,
    unsaid: Seq<u32>,
)
    ensures
        ({
            let steps = install_steps(entries, Some(exe));
            let after = modes_at(before, steps, unsaid, steps.len() as int);
            &&& has_mode(after, INSTALL_DIR@, 0o700)
            &&& has_mode(after, BINARY_PATH@, 0o700)
            &&& has_mode(after, CONFIG_PATH@, 0o600)
            &&& has_mode(after, CACHE_PATH@, 0o600)
            &&& has_mode(after, LOCK_PATH@, 0o600)
        }),
{
    let steps = install_steps(entries, Some(exe));
    let total = steps.len() as int;
    let n: int = if exe == BINARY_PATH@ {
        1
    } else {
        2
    };
    lemma_places_differ();
    assert(total == 13 + n);
    assert(steps[1] == directory_steps()[1]);
    assert(n == 2 ==> steps[2] == binary_steps(exe)[0]);
    assert(steps[1 + n] == binary_steps(exe)[n - 1]);
    assert(steps[2 + n] == file_steps(entries)[0]);
    assert(steps[3 + n] == file_steps(entries)[1]);
    assert(steps[4 + n] == file_steps(entries)[2]);
    assert(steps[5 + n] == file_steps(entries)[3]);
    assert(steps[6 + n] == file_steps(entries)[4]);
    assert(steps[7 + n] == unit_steps()[0]);
    assert(steps[8 + n] == unit_steps()[1]);
    assert(steps[9 + n] == unit_steps()[2]);
    assert(steps[10 + n] == unit_steps()[3]);
    assert(steps[11 + n] == unit_steps()[4]);
    assert(steps[12 + n] == unit_steps()[5]);
    lemma_mode_stays(before, steps, unsaid, 1, total, INSTALL_DIR@, 0o700);
    lemma_mode_stays(before, steps, unsaid, 1 + n, total, BINARY_PATH@, 0o700);
    lemma_mode_stays(before, steps, unsaid, 3 + n, total, CONFIG_PATH@, 0o600);
    lemma_mode_stays(before, steps, unsaid, 4 + n, total, CACHE_PATH@, 0o600);
    lemma_mode_stays(before, steps, unsaid, 6 + n, total, LOCK_PATH@, 0o600);
}

/// Step `k` is performed when the steps before it succeed or not as `results` says.
pub open spec fn comes_to(steps: Seq<StepView>, results: Seq<bool>, k: int) -> bool
    decreases k,
{
    k == 0 || k > 0 && comes_to(steps, results, k - 1) && next_of(steps, k - 1, results[k - 1])
        == NextView::Perform(k)
}

/// Once a step with a complaint failed, no later step is performed.
pub proof fn law_ends_at_failure(steps: Seq<StepView>, results: Seq<bool>, i: int, k: int)
    requires
        0 <= i < steps.len(),
        steps[i].complaint is Some,
        !results[i],
        i < k,
    ensures
        !comes_to(steps, results, k),
    decreases k,
{
    if k > i + 1 {
        law_ends_at_failure(steps, results, i, k - 1);
    }
}

/// A step that failed ends the installation with its own complaint, when it has one.
pub proof fn law_complaint(steps: Seq<StepView>, i: int, complaint: Seq<char>)
    requires
        0 <= i < steps.len(),
        steps[i].complaint == Some(complaint),
    ensures
        next_of(steps, i, false) == NextView::Failed(complaint),
{
}

/// When every step with a complaint succeeds, every step is performed, and behind the last one the
/// installation is complete, whatever became of the others.
pub proof fn law_goes_through(steps: Seq<StepView>, results: Seq<bool>, k: int)
    requires
        results.len() == steps.len(),
        forall|i: int|
            0 <= i < steps.len() && (#[trigger] steps[i]).complaint is Some ==> results[i],
        0 <= k < steps.len(),
    ensures
        comes_to(steps, results, k),
        next_of(steps, steps.len() - 1, results[steps.len() - 1]) == NextView::Complete,
    decreases k,
{
    assert(steps[steps.len() - 1].complaint is Some ==> results[steps.len() - 1]);
    if k > 0 {
        law_goes_through(steps, results, k - 1);
        assert(steps[k - 1].complaint is Some ==> results[k - 1]);
    }
}

/// Only the first cache and the commands to the service manager may fail; every other step is needed.
pub proof fn law_needed_steps(entries: Seq<EntryView>, exe: Option<Seq<char>>, i: int)
    requires
        0 <= i < install_steps(entries, exe).len(),
    ensures
        ({
            let step = install_steps(entries, exe)[i];
            step.complaint is None <==> step.action is Replace || step.action is Systemctl
        }),
{
    let front = directory_steps();
    if let Some(path) = exe {
        let n = binary_steps(path).len() as int;
        let steps = front + (binary_steps(path) + file_steps(entries) + unit_steps());
        assert(install_steps(entries, exe) == steps);
        if i < 2 {
            assert(steps[i] == front[i]);
        } else if i < 2 + n {
            assert(steps[i] == binary_steps(path)[i - 2]);
        } else if i < 7 + n {
            assert(steps[i] == file_steps(entries)[i - 2 - n]);
        } else {
            assert(steps[i] == unit_steps()[i - 7 - n]);
        }
    }
}

/// An installation ends with the commands that make the units known, have the timer started whenever
/// the machine starts, start it, and synchronize once. They come after everything else.
pub proof fn law_units_started(entries: Seq<EntryView>, exe: Seq<char>, i: int)
    ensures
        ({
            let steps = install_steps(entries, Some(exe));
            let last = steps.len() - 4;
            &&& last > 0
            &&& steps[last].action == ActionView::Systemctl(seq!["daemon-reload"@])
            &&& steps[last + 1].action == ActionView::Systemctl(seq!["enable"@, "ddnsfw.timer"@])
            &&& steps[last + 2].action == ActionView::Systemctl(seq!["start"@, "ddnsfw.timer"@])
            &&& steps[last + 3].action == ActionView::Systemctl(seq!["start"@, "ddnsfw.service"@])
            &&& 0 <= i < last ==> !(steps[i].action is Systemctl)
        }),
{
    let steps = install_steps(entries, Some(exe));
    let n = binary_steps(exe).len() as int;
    let front = directory_steps();
    assert(steps == front + (binary_steps(exe) + file_steps(entries) + unit_steps()));
    let last = steps.len() - 4;
    assert(last == 9 + n);
    assert(steps[last] == unit_steps()[2]);
    assert(steps[last + 1] == unit_steps()[3]);
    assert(steps[last + 2] == unit_steps()[4]);
    assert(steps[last + 3] == unit_steps()[5]);
    if 0 <= i < last {
        if i < 2 {
            assert(steps[i] == front[i]);
        } else if i < 2 + n {
            assert(steps[i] == binary_steps(exe)[i - 2]);
        } else if i < 7 + n {
            assert(steps[i] == file_steps(entries)[i - 2 - n]);
        } else {
            assert(steps[i] == unit_steps()[i - 7 - n]);
        }
    }
}

/// Where the program that runs cannot be found, nothing is copied, written or started.
pub proof fn law_program_unknown(entries: Seq<EntryView>, i: int)
    ensures
        ({
            let steps = install_steps(entries, None);
            &&& steps.len() > 0
            &&& steps.last().action is GiveUp
            &&& 0 <= i < steps.len() - 1 ==> steps[i].action == ActionView::MakeDir(INSTALL_DIR@)
                || steps[i].action == ActionView::SetMode(INSTALL_DIR@, 0o700)
        }),
{
    let steps = install_steps(entries, None);
    assert(steps.len() == 3);
    assert(steps[0] == directory_steps()[0]);
    assert(steps[1] == directory_steps()[1]);
}

/// The cache that is installed is read as that of a first run.
pub proof fn law_first_cache()
    ensures
        cache::cache_of(text::lines_of(cache::cache_text(cache::empty_cache())))
            == cache::empty_cache(),
{
    cache::law_cache_round_trip(cache::empty_cache());
}

/// The contents of the files after an action that succeeded.
pub open spec fn files_after(
    files: Map<Seq<char>, Seq<char>>,
    action: ActionView,
) -> Map<Seq<char>, Seq<char>> {
    match action {
        ActionView::Copy(from, to) => files.insert(to, files[from]),
        ActionView::Write(path, _, content) => files.insert(path, content),
        ActionView::Replace(path, _, content) => files.insert(path, content),
        ActionView::Create(path, _) => if files.dom().contains(path) {
            files
        } else {
            files.insert(path, Seq::<char>::empty())
        },
        _ => files,
    }
}

/// The contents of the files after the first `n` steps, when all of them succeed.
pub open spec fn files_at(
    files: Map<Seq<char>, Seq<char>>,
    steps: Seq<StepView>,
    n: int,
) -> Map<Seq<char>, Seq<char>>
    decreases n,
{
    if n <= 0 {
        files
    } else {
        files_after(files_at(files, steps, n - 1), steps[n - 1].action)
    }
}

/// The file is there and holds the text.
pub open spec fn holds(files: Map<Seq<char>, Seq<char>>, path: Seq<char>, content: Seq<char>) -> bool {
    files.dom().contains(path) && files[path] == content
}

/// What is in a file that no later step touches is there at the end.
proof fn lemma_content_stays(
    files: Map<Seq<char>, Seq<char>>,
    steps: Seq<StepView>,
    k: int,
    n: int,
    path: Seq<char>,
    content: Seq<char>,
)
    requires
        0 <= k <= n <= steps.len(),
        holds(files_at(files, steps, k), path, content),
        forall|j: int| k <= j < n ==> match (#[trigger] steps[j]).action {
            ActionView::SetMode(_, _) => true,
            ActionView::Create(_, _) => true,
            other => place_of(other) != Some(path),
        },
    ensures
        holds(files_at(files, steps, n), path, content),
    decreases n,
{
    if k < n {
        lemma_content_stays(files, steps, k, n - 1, path, content);
        let step = steps[n - 1];
        match step.action {
            ActionView::SetMode(_, _) => {},
            ActionView::Create(_, _) => {},
            other => {
                assert(place_of(other) != Some(path));
            },
        }
    }
}

/// What a step writes and no later step touches is there at the end.
proof fn lemma_written_stays(
    files: Map<Seq<char>, Seq<char>>,
    steps: Seq<StepView>,
    k: int,
    n: int,
    path: Seq<char>,
    content: Seq<char>,
)
    requires
        0 <= k < n <= steps.len(),
        match steps[k].action {
            ActionView::Write(place, _, given) => place == path && given == content,
            ActionView::Replace(place, _, given) => place == path && given == content,
            _ => false,
        },
        forall|j: int| k < j < n ==> match (#[trigger] steps[j]).action {
            ActionView::SetMode(_, _) => true,
            ActionView::Create(_, _) => true,
            other => place_of(other) != Some(path),
        },
    ensures
        holds(files_at(files, steps, n), path, content),
{
    lemma_content_stays(files, steps, k + 1, n, path, content);
}

/// The steps that write the files, and what the others touch.
proof fn lemma_file_steps(entries: Seq<EntryView>, exe: Seq<char>, n: int)
    requires
        n == if exe == BINARY_PATH@ {
            1int
        } else {
            2int
        },
    ensures
        ({
            let steps = install_steps(entries, Some(exe));
            &&& steps.len() == 13 + n
            &&& steps[0].action is MakeDir
            &&& steps[1].action is SetMode
            &&& n == 2 ==> steps[2].action == ActionView::Copy(exe, BINARY_PATH@)
            &&& steps[1 + n].action is SetMode
            &&& steps[2 + n].action == ActionView::Write(
                CONFIG_PATH@,
                Some(OWNER_FILE),
                config::config_text(entries),
            )
            &&& steps[3 + n].action is SetMode
            &&& steps[4 + n].action == ActionView::Replace(
                CACHE_PATH@,
                OWNER_FILE,
                cache::cache_text(cache::empty_cache()),
            )
            &&& steps[5 + n].action == ActionView::Create(LOCK_PATH@, OWNER_FILE)
            &&& steps[6 + n].action is SetMode
            &&& steps[7 + n].action == ActionView::Write(SERVICE_PATH@, None, SERVICE_UNIT@)
            &&& steps[8 + n].action == ActionView::Write(TIMER_PATH@, None, TIMER_UNIT@)
            &&& steps[9 + n].action is Systemctl
            &&& steps[10 + n].action is Systemctl
            &&& steps[11 + n].action is Systemctl
            &&& steps[12 + n].action is Systemctl
        }),
{
    let steps = install_steps(entries, Some(exe));
    assert(steps[0] == directory_steps()[0]);
    assert(steps[1] == directory_steps()[1]);
    assert(n == 2 ==> steps[2] == binary_steps(exe)[0]);
    assert(steps[1 + n] == binary_steps(exe)[n - 1]);
    assert(steps[2 + n] == file_steps(entries)[0]);
    assert(steps[3 + n] == file_steps(entries)[1]);
    assert(steps[4 + n] == file_steps(entries)[2]);
    assert(steps[5 + n] == file_steps(entries)[3]);
    assert(steps[6 + n] == file_steps(entries)[4]);
    assert(steps[7 + n] == unit_steps()[0]);
    assert(steps[8 + n] == unit_steps()[1]);
    assert(steps[9 + n] == unit_steps()[2]);
    assert(steps[10 + n] == unit_steps()[3]);
    assert(steps[11 + n] == unit_steps()[4]);
    assert(steps[12 + n] == unit_steps()[5]);
}

/// After an installation in which every step succeeds, whatever files were there before: the program
/// is a copy of the one that ran; the configuration is read as exactly the entries that were given, in
/// their order; the cache is that of a first run; the units are in place, and there is a lock file.
#[verifier::rlimit(40)]
pub proof fn law_installed_files(
    entries: Seq<EntryView>,
    exe: Seq<char>,
    before: Map<Seq<char>, Seq<char>>,
)
    requires
        entries.len() <= 100,
        forall|i: int| 0 <= i < entries.len() ==> config::storable(#[trigger] entries[i]),
        before.dom().contains(exe),
    ensures
        ({
            let steps = install_steps(entries, Some(exe));
            let after = files_at(before, steps, steps.len() as int);
            &&& holds(after, BINARY_PATH@, before[exe])
            &&& after.dom().contains(CONFIG_PATH@)
            &&& config::config_entries(after[CONFIG_PATH@]) == entries
            &&& after.dom().contains(CACHE_PATH@)
            &&& cache::cache_of(text::lines_of(after[CACHE_PATH@])) == (CacheView {
                state: CacheState::Idle,
                rules: Seq::<Rule>::empty(),
                pending: None,
            })
            &&& holds(after, SERVICE_PATH@, SERVICE_UNIT@)
            &&& holds(after, TIMER_PATH@, TIMER_UNIT@)
            &&& after.dom().contains(LOCK_PATH@)
        }),
{
    let steps = install_steps(entries, Some(exe));
    let total = steps.len() as int;
    let n: int = if exe == BINARY_PATH@ {
        1
    } else {
        2
    };
    lemma_places_differ();
    lemma_file_steps(entries, exe, n);
    let kept = cache::cache_text(cache::empty_cache());
    lemma_installed_binary(entries, exe, before, n);
    lemma_written_stays(
        before,
        steps,
        2 + n,
        total,
        CONFIG_PATH@,
        config::config_text(entries),
    );
    lemma_written_stays(before, steps, 4 + n, total, CACHE_PATH@, kept);
    lemma_written_stays(before, steps, 7 + n, total, SERVICE_PATH@, SERVICE_UNIT@);
    lemma_written_stays(before, steps, 8 + n, total, TIMER_PATH@, TIMER_UNIT@);
    config::law_config_round_trip(entries);
    cache::law_cache_round_trip(cache::empty_cache());
    let lock = files_at(before, steps, 6 + n);
    assert(lock == files_after(files_at(before, steps, 5 + n), steps[5 + n].action));
    lemma_content_stays(before, steps, 6 + n, total, LOCK_PATH@, lock[LOCK_PATH@]);
}

#[verifier::rlimit(40)]
proof fn lemma_installed_binary(
    entries: Seq<EntryView>,
    exe: Seq<char>,
    before: Map<Seq<char>, Seq<char>>,
    n: int,
)
    requires
        before.dom().contains(exe),
        n == if exe == BINARY_PATH@ {
            1int
        } else {
            2int
        },
    ensures
        ({
            let steps = install_steps(entries, Some(exe));
            holds(files_at(before, steps, steps.len() as int), BINARY_PATH@, before[exe])
        }),
{
    let steps = install_steps(entries, Some(exe));
    lemma_places_differ();
    lemma_file_steps(entries, exe, n);
    assert(files_at(before, steps, 0) == before);
    assert(files_at(before, steps, 1) == before);
    assert(files_at(before, steps, 2) == before);
    if n == 2 {
        assert(files_at(before, steps, 3) == before.insert(BINARY_PATH@, before[exe]));
    }
    lemma_content_stays(before, steps, 1 + n, steps.len() as int, BINARY_PATH@, before[exe]);
}

/// Two steps do the same, but for the text of the configuration, and for the place from which the
/// program is copied: `x` or `y`.
pub open spec fn alike(p: StepView, q: StepView, x: Seq<char>, y: Seq<char>) -> bool {
    &&& p.complaint == q.complaint
    &&& match (p.action, q.action) {
        (ActionView::Write(path, mode, _), ActionView::Write(other, given, _)) => {
            &&& path == other
            &&& mode == given
            &&& path == CONFIG_PATH@ || p.action == q.action
        },
        (ActionView::Copy(from, to), ActionView::Copy(source, other)) => from == x && source == y
            && to == BINARY_PATH@ && other == BINARY_PATH@,
        _ => p.action == q.action,
    }
}

/// Two installations differ in nothing but the text of the configuration and the place from which the
/// program is copied.
pub proof fn law_installations_alike(
    a: Seq<EntryView>,
    b: Seq<EntryView>,
    x: Seq<char>,
    y: Seq<char>,
    i: int,
)
    requires
        x != BINARY_PATH@,
        y != BINARY_PATH@,
        0 <= i < install_steps(a, Some(x)).len(),
    ensures
        install_steps(a, Some(x)).len() == install_steps(b, Some(y)).len(),
        alike(install_steps(a, Some(x))[i], install_steps(b, Some(y))[i], x, y),
        install_steps(a, None) == install_steps(b, None),
{
    let p = install_steps(a, Some(x));
    let q = install_steps(b, Some(y));
    let front = directory_steps();
    assert(p =~= front + (binary_steps(x) + file_steps(a) + unit_steps()));
    assert(q =~= front + (binary_steps(y) + file_steps(b) + unit_steps()));
    if i < 2 {
        assert(p[i] == front[i] && q[i] == front[i]);
        assert(alike(front[i], front[i], x, y));
    } else if i < 4 {
        assert(p[i] == binary_steps(x)[i - 2] && q[i] == binary_steps(y)[i - 2]);
        assert(alike(p[i], q[i], x, y));
    } else if i < 9 {
        assert(p[i] == file_steps(a)[i - 4] && q[i] == file_steps(b)[i - 4]);
        lemma_files_alike(a, b, x, y, i - 4);
    } else {
        assert(p[i] == unit_steps()[i - 9] && q[i] == unit_steps()[i - 9]);
        lemma_same_alike(unit_steps()[i - 9], x, y, i - 9);
    }
}

proof fn lemma_files_alike(a: Seq<EntryView>, b: Seq<EntryView>, x: Seq<char>, y: Seq<char>, j: int)
    requires
        0 <= j < 5,
    ensures
        alike(file_steps(a)[j], file_steps(b)[j], x, y),
{
    assert(j == 0 || j == 1 || j == 2 || j == 3 || j == 4);
}

proof fn lemma_same_alike(p: StepView, x: Seq<char>, y: Seq<char>, j: int)
    requires
        0 <= j < 6,
        p == unit_steps()[j],
    ensures
        alike(p, p, x, y),
{
    assert(j == 0 || j == 1 || j == 2 || j == 3 || j == 4 || j == 5);
}

// ---------------------------------------------------------------------------
// Planning
// ---------------------------------------------------------------------------

/// Appends a step.
fn put(steps: &mut Vec<InstallStep>, action: Action, complaint: Option<&'static str>)
    ensures
        step_views(final(steps)@) == step_views(old(steps)@).push(
            StepView { action: action@, complaint: text::optional(complaint) },
        ),
{
    steps.push(InstallStep { action, complaint });
    proof {
        assert(step_views(steps@) =~= step_views(old(steps)@).push(
            StepView { action: action@, complaint: text::optional(complaint) },
        ));
    }
}

/// Arguments of one or two words.
fn words(first: &str, second: Option<&str>) -> (args: Vec<String>)
    ensures
        text::texts(args@) == match second {
            Some(more) => seq![first@, more@],
            None => seq![first@],
        },
{
    let mut args: Vec<String> = Vec::new();
    args.push(first.to_owned());
    if let Some(more) = second {
        args.push(more.to_owned());
    }
    proof {
        assert(text::texts(args@) =~= match second {
            Some(more) => seq![first@, more@],
            None => seq![first@],
        });
    }
    args
}

fn put_directory(steps: &mut Vec<InstallStep>)
    ensures
        step_views(final(steps)@) == step_views(old(steps)@) + directory_steps(),
{
    put(steps, Action::MakeDir(INSTALL_DIR.to_owned()), Some("Failed to create directory"));
    put(
        steps,
        Action::SetMode(INSTALL_DIR.to_owned(), OWNER_ALL),
        Some("Failed to set directory permissions"),
    );
    proof {
        assert(step_views(steps@) =~= step_views(old(steps)@) + directory_steps());
    }
}

fn put_binary(steps: &mut Vec<InstallStep>, exe: &str)
    ensures
        step_views(final(steps)@) == step_views(old(steps)@) + binary_steps(exe@),
{
    if !system::is_running_installed(Some(exe)) {
        put(
            steps,
            Action::Copy(exe.to_owned(), BINARY_PATH.to_owned()),
            Some("Failed to copy binary"),
        );
    }
    put(
        steps,
        Action::SetMode(BINARY_PATH.to_owned(), OWNER_ALL),
        Some("Failed to set binary permissions"),
    );
    proof {
        assert(step_views(steps@) =~= step_views(old(steps)@) + binary_steps(exe@));
    }
}

fn put_files(steps: &mut Vec<InstallStep>, entries: &Vec<DdnsEntry>)
    ensures
        step_views(final(steps)@) == step_views(old(steps)@) + file_steps(
            config::entry_views(entries@),
        ),
{
    let content = config::render_config(entries);
    put(
        steps,
        Action::Write(CONFIG_PATH.to_owned(), Some(OWNER_FILE), content),
        Some("Failed to write config"),
    );
    put(
        steps,
        Action::SetMode(CONFIG_PATH.to_owned(), OWNER_FILE),
        Some("Failed to set config permissions"),
    );
    let empty = Cache::new();
    let kept = empty.save();
    put(steps, Action::Replace(CACHE_PATH.to_owned(), OWNER_FILE, kept), None);
    put(
        steps,
        Action::Create(LOCK_PATH.to_owned(), OWNER_FILE),
        Some("Failed to create lock file"),
    );
    put(
        steps,
        Action::SetMode(LOCK_PATH.to_owned(), OWNER_FILE),
        Some("Failed to set lock file permissions"),
    );
    proof {
        assert(step_views(steps@) =~= step_views(old(steps)@) + file_steps(
            config::entry_views(entries@),
        ));
    }
}

fn put_units(steps: &mut Vec<InstallStep>)
    ensures
        step_views(final(steps)@) == step_views(old(steps)@) + unit_steps(),
{
    put(
        steps,
        Action::Write(SERVICE_PATH.to_owned(), None, SERVICE_UNIT.to_owned()),
        Some("Failed to write service file"),
    );
    put(
        steps,
        Action::Write(TIMER_PATH.to_owned(), None, TIMER_UNIT.to_owned()),
        Some("Failed to write timer file"),
    );
    put(steps, Action::Systemctl(words("daemon-reload", None)), None);
    put(steps, Action::Systemctl(words("enable", Some("ddnsfw.timer"))), None);
    put(steps, Action::Systemctl(words("start", Some("ddnsfw.timer"))), None);
    put(steps, Action::Systemctl(words("start", Some("ddnsfw.service"))), None);
    proof {
        assert(step_views(steps@) =~= step_views(old(steps)@) + unit_steps());
    }
}

/// The steps of the installation, when the program that runs is at `exe`, if that is known.
pub fn install(entries: &Vec<DdnsEntry>, exe: Option<&str>) -> (out: Vec<InstallStep>)
    ensures
        step_views(out@) == install_steps(config::entry_views(entries@), text::optional(exe)),
{
    let mut steps: Vec<InstallStep> = Vec::new();
    put_directory(&mut steps);
    match exe {
        Some(path) => {
            put_binary(&mut steps, path);
            put_files(&mut steps, entries);
            put_units(&mut steps);
        },
        None => {
            put(&mut steps, Action::GiveUp, Some("Cannot get exe path"));
        },
    }
    proof {
        assert(step_views(steps@) =~= install_steps(
            config::entry_views(entries@),
            text::optional(exe),
        ));
    }
    steps
}

/// What follows on step `i`, which succeeded or not.
pub fn next_step(steps: &Vec<InstallStep>, i: usize, ok: bool) -> (out: Next)
    ensures
        out@ == next_of(step_views(steps@), i as int, ok),
{
    if i < steps.len() {
        proof {
            assert(step_views(steps@)[i as int] == steps@[i as int]@);
        }
        if !ok {
            if let Some(complaint) = steps[i].complaint {
                return Next::Failed(complaint);
            }
        }
        if i + 1 < steps.len() {
            return Next::Perform(i + 1);
        }
    }
    Next::Complete
}

} // verus!
