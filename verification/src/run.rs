//! The course of a synchronization: its states, and how each reply leads to the next request.

use crate::addr::Ipv4Addr;
use crate::addr::Rule;
use crate::cache;
use crate::cache::CacheState;
use crate::cache::CacheView;
use crate::chain;
use crate::chain::ChainView;
use crate::command;
use crate::config;
use crate::config::EntryView;
use crate::dns;
use crate::dns::ResponseView;
use crate::plan;
use crate::plan::Findings;
use crate::plan::Lookup;
use crate::plan::PortChange;
use vstd::prelude::*;

verus! {

/// How a synchronization ended.
#[derive(Clone, Copy, Debug, PartialEq, Eq, Structural)]
pub enum Outcome {
    /// The chain could not be created.
    ChainFailed,
    /// The rule that leads to the chain could not be created.
    JumpFailed,
    /// The configuration could not be read.
    ConfigUnread,
    /// Nothing is configured.
    NoEntries,
    /// The rules of the chain could not be listed.
    ListFailed,
    /// Everything was gone through.
    Complete,
}

/// Where a synchronization stands: what it has asked for and waits to hear about.
#[derive(Clone, Copy, Debug, PartialEq, Eq, Structural)]
pub enum Step {
    ListChain,
    CreateChain,
    CheckJump,
    AddJump,
    LoadCache,
    CheckPending(Rule),
    RestorePending(Rule),
    ReadConfig,
    ListRules,
    /// The address of entry number so and so.
    Resolve(usize),
    /// Whether the rule is in force that entry number so and so asks for, with this address.
    CheckRule(usize, Ipv4Addr),
    /// The addition of a missing rule.
    AddRule(usize),
    /// The second attempt at it.
    RetryRule(usize),
    /// A change of the blocking of a port.
    ChangePort(usize),
    /// The deletion of a rule that is no longer asked for.
    DeleteRule(usize),
    /// The end of the blocking of a port that is no longer configured.
    DeleteDrop(usize),
    /// The rules of `INPUT`; the flag says whether anything is configured.
    ListInput(bool),
    /// The removal of a rule of an earlier release.
    DeleteLegacy(usize, bool),
    Finished(Outcome),
}

/// What a synchronization asks the outside world for.
pub enum RequestView {
    ListChain,
    CreateChain,
    CheckJump,
    AddJump,
    LoadCache,
    CheckPending(Rule),
    RestorePending(Rule),
    ReadConfig,
    ListRules,
    Resolve(EntryView),
    CheckRule(Rule),
    AddRule(Rule),
    RetryRule(Rule),
    AddDrop(u16),
    LiftDrop(u16),
    DeleteRule(Rule),
    DeleteDrop(u16),
    ListInput,
    DeleteLegacy(Rule),
    Finish(Outcome),
}

/// What the outside world replies.
pub enum ReplyView {
    /// What a command printed, if it succeeded.
    Listing(Option<Seq<char>>),
    /// Whether a command succeeded.
    Status(bool),
    /// The response to a question for an address, if there was one.
    Response(Option<ResponseView>),
    /// The lines of the cache file.
    CacheLines(Seq<Seq<char>>),
    /// The configuration file, if it could be read.
    Config(Option<Seq<char>>),
}

/// What is to be done next: the texts that are to be kept in the cache file, one after the other,
/// and then the request.
pub struct CommandView {
    pub saves: Seq<Seq<char>>,
    pub request: RequestView,
}

/// The state of a synchronization.
pub struct SyncView {
    pub step: Step,
    pub cache: CacheView,
    pub entries: Seq<EntryView>,
    pub existing: ChainView,
    pub lookups: Seq<Lookup>,
    pub added: Seq<bool>,
    pub legacy: Seq<Rule>,
}

// ---------------------------------------------------------------------------
// Replies
// ---------------------------------------------------------------------------

/// The reply says that the command succeeded.
pub open spec fn succeeded(reply: ReplyView) -> bool {
    reply == ReplyView::Status(true)
}

/// What the reply says a command printed.
pub open spec fn listing_in(reply: ReplyView) -> Option<Seq<char>> {
    match reply {
        ReplyView::Listing(output) => output,
        _ => None,
    }
}

/// The address that the reply gives.
pub open spec fn address_in(reply: ReplyView) -> Option<Ipv4Addr> {
    match reply {
        ReplyView::Response(Some(response)) => dns::address_in(response),
        _ => None,
    }
}

/// The lines of the cache file that the reply gives.
pub open spec fn cache_lines_in(reply: ReplyView) -> Seq<Seq<char>> {
    match reply {
        ReplyView::CacheLines(lines) => lines,
        _ => Seq::<Seq<char>>::empty(),
    }
}

/// The configured entries that the reply gives, if the configuration could be read.
pub open spec fn entries_in(reply: ReplyView) -> Option<Seq<EntryView>> {
    match reply {
        ReplyView::Config(Some(content)) => Some(config::config_entries(content)),
        _ => None,
    }
}

// ---------------------------------------------------------------------------
// States and requests
// ---------------------------------------------------------------------------

/// What the decisions rest on.
pub open spec fn facts(s: SyncView) -> Findings {
    Findings { entries: s.entries, existing: s.existing, lookups: s.lookups, added: s.added }
}

/// The rule that entry `i` asks for with this address.
pub open spec fn entry_rule(s: SyncView, i: int, ip: Ipv4Addr) -> Rule {
    Rule { ip, port: s.entries[i].port }
}

/// What a state waits to hear about.
pub open spec fn request_of(s: SyncView) -> RequestView {
    match s.step {
        Step::ListChain => RequestView::ListChain,
        Step::CreateChain => RequestView::CreateChain,
        Step::CheckJump => RequestView::CheckJump,
        Step::AddJump => RequestView::AddJump,
        Step::LoadCache => RequestView::LoadCache,
        Step::CheckPending(rule) => RequestView::CheckPending(rule),
        Step::RestorePending(rule) => RequestView::RestorePending(rule),
        Step::ReadConfig => RequestView::ReadConfig,
        Step::ListRules => RequestView::ListRules,
        Step::Resolve(i) => RequestView::Resolve(s.entries[i as int]),
        Step::CheckRule(i, ip) => RequestView::CheckRule(entry_rule(s, i as int, ip)),
        Step::AddRule(i) => RequestView::AddRule(plan::to_add(facts(s))[i as int]),
        Step::RetryRule(i) => RequestView::RetryRule(plan::to_add(facts(s))[i as int]),
        Step::ChangePort(i) => match plan::changes(facts(s))[i as int] {
            PortChange::Block(port) => RequestView::AddDrop(port),
            PortChange::Unblock(port) => RequestView::LiftDrop(port),
        },
        Step::DeleteRule(i) => RequestView::DeleteRule(plan::stale(facts(s))[i as int]),
        Step::DeleteDrop(i) => RequestView::DeleteDrop(plan::stale_ports(facts(s))[i as int]),
        Step::ListInput(_) => RequestView::ListInput,
        Step::DeleteLegacy(i, _) => RequestView::DeleteLegacy(s.legacy[i as int]),
        Step::Finished(outcome) => RequestView::Finish(outcome),
    }
}

/// The command that performs a request, for those that ask for one.
pub open spec fn command_line(request: RequestView) -> Option<Seq<Seq<char>>> {
    match request {
        RequestView::ListChain => Some(command::list_chain_args()),
        RequestView::CreateChain => Some(command::create_chain_args()),
        RequestView::CheckJump => Some(command::check_jump_args()),
        RequestView::AddJump => Some(command::add_jump_args()),
        RequestView::CheckPending(rule) => Some(command::check_rule_args(rule)),
        RequestView::RestorePending(rule) => Some(command::add_rule_args(rule)),
        RequestView::ListRules => Some(command::list_chain_args()),
        RequestView::CheckRule(rule) => Some(command::check_rule_args(rule)),
        RequestView::AddRule(rule) => Some(command::add_rule_args(rule)),
        RequestView::RetryRule(rule) => Some(command::add_rule_args(rule)),
        RequestView::AddDrop(port) => Some(command::add_drop_args(port)),
        RequestView::LiftDrop(port) => Some(command::delete_drop_args(port)),
        RequestView::DeleteRule(rule) => Some(command::delete_rule_args(rule)),
        RequestView::DeleteDrop(port) => Some(command::delete_drop_args(port)),
        RequestView::ListInput => Some(command::list_input_args()),
        RequestView::DeleteLegacy(rule) => Some(command::delete_legacy_args(rule)),
        RequestView::LoadCache => None,
        RequestView::ReadConfig => None,
        RequestView::Resolve(_) => None,
        RequestView::Finish(_) => None,
    }
}

/// The state of a synchronization that begins.
pub open spec fn start() -> SyncView {
    SyncView {
        step: Step::ListChain,
        cache: cache::empty_cache(),
        entries: Seq::<EntryView>::empty(),
        existing: ChainView { accept: Seq::<Rule>::empty(), drop: Seq::<u16>::empty() },
        lookups: Seq::<Lookup>::empty(),
        added: Seq::<bool>::empty(),
        legacy: Seq::<Rule>::empty(),
    }
}

/// A state and the texts that are to be kept on the way to it.
pub struct Move {
    pub state: SyncView,
    pub saves: Seq<Seq<char>>,
}

/// The state `s` at another step.
pub open spec fn at(s: SyncView, step: Step) -> SyncView {
    SyncView { step, ..s }
}

/// The state `s` with another cache.
pub open spec fn caching(s: SyncView, c: CacheView) -> SyncView {
    SyncView { cache: c, ..s }
}

/// The move to another step, when nothing is to be kept.
pub open spec fn plainly(s: SyncView, step: Step) -> Move {
    Move { state: at(s, step), saves: Seq::<Seq<char>>::empty() }
}

/// The move to another step, with another cache that is to be kept.
pub open spec fn keeping(s: SyncView, c: CacheView, step: Step) -> Move {
    Move { state: at(caching(s, c), step), saves: seq![cache::cache_text(c)] }
}

/// Goes on with the removal of rule `i` of an earlier release.
pub open spec fn to_legacy(s: SyncView, i: int, full: bool, saves: Seq<Seq<char>>) -> Move {
    if i < s.legacy.len() {
        Move { state: at(s, Step::DeleteLegacy(i as usize, full)), saves }
    } else if full {
        let c = cache::idle(s.cache);
        Move {
            state: at(caching(s, c), Step::Finished(Outcome::Complete)),
            saves: saves.push(cache::cache_text(c)),
        }
    } else {
        Move { state: at(s, Step::Finished(Outcome::NoEntries)), saves }
    }
}

/// Goes on with the blocking of the unconfigured port `i`.
pub open spec fn to_stale_ports(s: SyncView, i: int, saves: Seq<Seq<char>>) -> Move {
    if i < plan::stale_ports(facts(s)).len() {
        Move { state: at(s, Step::DeleteDrop(i as usize)), saves }
    } else {
        Move { state: at(s, Step::ListInput(true)), saves }
    }
}

/// Goes on with the deletion of rule `i`; that it is to be deleted is kept first.
pub open spec fn to_stale(s: SyncView, i: int, saves: Seq<Seq<char>>) -> Move {
    if i < plan::stale(facts(s)).len() {
        let c = cache::deleting(s.cache, plan::stale(facts(s))[i]);
        Move {
            state: at(caching(s, c), Step::DeleteRule(i as usize)),
            saves: saves.push(cache::cache_text(c)),
        }
    } else {
        to_stale_ports(s, 0, saves)
    }
}

/// Goes on with change `i` of the blocking of a port.
pub open spec fn to_changes(s: SyncView, i: int, saves: Seq<Seq<char>>) -> Move {
    if i < plan::changes(facts(s)).len() {
        Move { state: at(s, Step::ChangePort(i as usize)), saves }
    } else {
        to_stale(s, 0, saves)
    }
}

/// Goes on with the addition of rule `i`; that it is to be added is kept first.
pub open spec fn to_adds(s: SyncView, i: int, saves: Seq<Seq<char>>) -> Move {
    if i < plan::to_add(facts(s)).len() {
        let c = cache::adding(s.cache, plan::to_add(facts(s))[i]);
        Move {
            state: at(caching(s, c), Step::AddRule(i as usize)),
            saves: saves.push(cache::cache_text(c)),
        }
    } else {
        to_changes(s, 0, saves)
    }
}

/// Goes on with entry `i`.
pub open spec fn to_lookups(s: SyncView, i: int, saves: Seq<Seq<char>>) -> Move {
    if i < s.entries.len() {
        Move { state: at(s, Step::Resolve(i as usize)), saves }
    } else {
        to_adds(s, 0, saves)
    }
}

/// What was found out about entry `i`.
pub open spec fn looked_up(s: SyncView, i: int, lookup: Lookup) -> Move {
    to_lookups(
        SyncView { lookups: s.lookups.push(lookup), ..s },
        i + 1,
        Seq::<Seq<char>>::empty(),
    )
}

/// What became of missing rule `i`.
pub open spec fn tried(s: SyncView, i: int, ok: bool) -> Move {
    let rule = plan::to_add(facts(s))[i];
    let c = if ok {
        cache::with_rule(s.cache, rule)
    } else {
        cache::idle(s.cache)
    };
    to_adds(
        SyncView { cache: c, added: s.added.push(ok), ..s },
        i + 1,
        seq![cache::cache_text(c)],
    )
}

/// How an interrupted run is taken up again.
pub enum RecoveryView {
    /// Nothing was interrupted.
    Nothing,
    /// It is to be found out whether the rule is in force.
    Check(Rule),
    /// The rule is to be added.
    Add(Rule),
    /// The cache is settled.
    Settled(CacheView),
}

/// How the run is taken up again that left the cache `c` behind. `checked` says whether the
/// pending rule is in force and `added` whether it could be added, as far as that is known. A
/// rule that was to be added is added, unless it is in force; one that was to be deleted is left
/// alone.
pub open spec fn recovery(c: CacheView, checked: Option<bool>, added: Option<bool>) -> RecoveryView {
    match (c.state, c.pending) {
        (CacheState::Idle, _) => RecoveryView::Nothing,
        (CacheState::Adding, Some(rule)) => match (checked, added) {
            (None, _) => RecoveryView::Check(rule),
            (Some(true), _) => RecoveryView::Settled(cache::with_rule(c, rule)),
            (Some(false), None) => RecoveryView::Add(rule),
            (Some(false), Some(true)) => RecoveryView::Settled(cache::with_rule(c, rule)),
            (Some(false), Some(false)) => RecoveryView::Settled(cache::idle(c)),
        },
        _ => RecoveryView::Settled(cache::idle(c)),
    }
}

/// Takes an interrupted run up again, then goes on with the configuration.
pub open spec fn recovering(s: SyncView, checked: Option<bool>, added: Option<bool>) -> Move {
    match recovery(s.cache, checked, added) {
        RecoveryView::Nothing => plainly(s, Step::ReadConfig),
        RecoveryView::Check(rule) => plainly(s, Step::CheckPending(rule)),
        RecoveryView::Add(rule) => plainly(s, Step::RestorePending(rule)),
        RecoveryView::Settled(c) => keeping(s, c, Step::ReadConfig),
    }
}

/// Where a reply leads.
pub open spec fn next(s: SyncView, reply: ReplyView) -> Move {
    match s.step {
        Step::ListChain => if listing_in(reply) is Some {
            plainly(s, Step::CheckJump)
        } else {
            plainly(s, Step::CreateChain)
        },
        Step::CreateChain => if succeeded(reply) {
            plainly(s, Step::CheckJump)
        } else {
            plainly(s, Step::Finished(Outcome::ChainFailed))
        },
        Step::CheckJump => if succeeded(reply) {
            plainly(s, Step::LoadCache)
        } else {
            plainly(s, Step::AddJump)
        },
        Step::AddJump => if succeeded(reply) {
            plainly(s, Step::LoadCache)
        } else {
            plainly(s, Step::Finished(Outcome::JumpFailed))
        },
        Step::LoadCache => recovering(
            caching(s, cache::cache_of(cache_lines_in(reply))),
            None,
            None,
        ),
        Step::CheckPending(_) => recovering(s, Some(succeeded(reply)), None),
        Step::RestorePending(_) => recovering(s, Some(false), Some(succeeded(reply))),
        Step::ReadConfig => match entries_in(reply) {
            Some(entries) => plainly(
                SyncView { entries, ..s },
                if entries.len() == 0 {
                    Step::ListInput(false)
                } else {
                    Step::ListRules
                },
            ),
            None => plainly(s, Step::Finished(Outcome::ConfigUnread)),
        },
        Step::ListRules => if listing_in(reply) is Some {
            let existing = chain::chain_of(listing_in(reply));
            let c = CacheView { rules: existing.accept, ..s.cache };
            to_lookups(SyncView { existing, cache: c, ..s }, 0, seq![cache::cache_text(c)])
        } else {
            plainly(s, Step::Finished(Outcome::ListFailed))
        },
        Step::Resolve(i) => match address_in(reply) {
            None => looked_up(s, i as int, Lookup { ip: None, present: false }),
            Some(ip) => if s.existing.accept.contains(entry_rule(s, i as int, ip)) {
                looked_up(s, i as int, Lookup { ip: Some(ip), present: true })
            } else {
                plainly(s, Step::CheckRule(i, ip))
            },
        },
        Step::CheckRule(i, ip) => looked_up(
            s,
            i as int,
            Lookup { ip: Some(ip), present: succeeded(reply) },
        ),
        Step::AddRule(i) => if succeeded(reply) {
            tried(s, i as int, true)
        } else {
            plainly(s, Step::RetryRule(i))
        },
        Step::RetryRule(i) => tried(s, i as int, succeeded(reply)),
        Step::ChangePort(i) => to_changes(s, i + 1, Seq::<Seq<char>>::empty()),
        Step::DeleteRule(i) => {
            let c = if succeeded(reply) {
                cache::without_rule(s.cache, plan::stale(facts(s))[i as int])
            } else {
                cache::idle(s.cache)
            };
            to_stale(caching(s, c), i + 1, seq![cache::cache_text(c)])
        },
        Step::DeleteDrop(i) => to_stale_ports(s, i + 1, Seq::<Seq<char>>::empty()),
        Step::ListInput(full) => to_legacy(
            SyncView {
                legacy: plan::migrated(facts(s), chain::legacy_rules(listing_in(reply))),
                ..s
            },
            0,
            full,
            Seq::<Seq<char>>::empty(),
        ),
        Step::DeleteLegacy(i, full) => to_legacy(s, i + 1, full, Seq::<Seq<char>>::empty()),
        Step::Finished(outcome) => plainly(s, Step::Finished(outcome)),
    }
}

/// What holds of every state, whatever it waits for: the cache is valid, and what was read keeps to
/// the limits.
pub open spec fn bounded(s: SyncView) -> bool {
    &&& cache::valid(s.cache)
    &&& s.entries.len() <= config::MAX_ENTRIES
    &&& s.existing.accept.no_duplicates()
    &&& s.existing.accept.len() <= chain::MAX_RULES
    &&& s.existing.drop.no_duplicates()
    &&& s.existing.drop.len() <= config::MAX_LOOP_ITERATIONS
    &&& s.legacy.len() <= config::MAX_LOOP_ITERATIONS
}

/// What holds of every state that a run comes through.
pub open spec fn valid(s: SyncView) -> bool {
    &&& bounded(s)
    &&& match s.step {
        Step::CheckPending(rule) => s.cache.state == CacheState::Adding && s.cache.pending == Some(
            rule,
        ) && fresh(s),
        Step::RestorePending(rule) => s.cache.state == CacheState::Adding && s.cache.pending
            == Some(rule) && fresh(s),
        Step::Resolve(i) => i < s.entries.len() && s.lookups.len() == i && s.added.len() == 0,
        Step::CheckRule(i, _) => i < s.entries.len() && s.lookups.len() == i && s.added.len() == 0,
        Step::AddRule(i) => resolving_done(s) && i < plan::to_add(facts(s)).len() && s.added.len()
            == i,
        Step::RetryRule(i) => resolving_done(s) && i < plan::to_add(facts(s)).len() && s.added.len()
            == i,
        Step::ChangePort(i) => plan::complete(facts(s)) && i < plan::changes(facts(s)).len(),
        Step::DeleteRule(i) => plan::complete(facts(s)) && i < plan::stale(facts(s)).len(),
        Step::DeleteDrop(i) => plan::complete(facts(s)) && i < plan::stale_ports(facts(s)).len(),
        Step::ListInput(full) => plan::complete(facts(s)) && (full || s.entries.len() == 0),
        Step::DeleteLegacy(i, full) => {
            &&& plan::complete(facts(s))
            &&& full || s.entries.len() == 0
            &&& i < s.legacy.len()
            &&& forall|k: int|
                0 <= k < s.legacy.len() ==> plan::replaced(facts(s), #[trigger] s.legacy[k])
        },
        Step::Finished(_) => true,
        _ => fresh(s),
    }
}

/// Nothing was found out about any entry yet.
pub open spec fn fresh(s: SyncView) -> bool {
    s.lookups.len() == 0 && s.added.len() == 0
}

/// Every entry was looked up.
pub open spec fn resolving_done(s: SyncView) -> bool {
    s.lookups.len() == s.entries.len()
}

} // verus!
