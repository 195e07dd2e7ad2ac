//! The synchronization of the firewall with the configured hosts.

use crate::addr::Ipv4Addr;
use crate::addr::Rule;
use crate::cache;
use crate::cache::Cache;
use crate::cache::CacheState;
use crate::chain;
use crate::chain::ChainRules;
use crate::command;
use crate::command::Ensure;
use crate::config;
use crate::config::DdnsEntry;
use crate::dns;
use crate::dns::DnsResponse;
use crate::lists;
use crate::plan;
use crate::plan::Known;
use crate::plan::Lookup;
use crate::plan::PortChange;
use crate::plan_laws;
use crate::run;
use crate::run::CommandView;
use crate::run::Outcome;
use crate::run::RecoveryView;
use crate::run::ReplyView;
use crate::run::RequestView;
use crate::run::Step;
use crate::run::SyncView;
use crate::text;
use vstd::prelude::*;

verus! {

/// What a synchronization asks the outside world for.
pub enum Request {
    /// List the chain, to see whether it exists.
    ListChain,
    CreateChain,
    /// See whether `INPUT` leads to the chain.
    CheckJump,
    AddJump,
    /// Read the lines of the cache file.
    LoadCache,
    /// See whether the rule is in force that an interrupted run was adding.
    CheckPending(Rule),
    /// Add that rule.
    RestorePending(Rule),
    /// Read the configuration file.
    ReadConfig,
    /// List the chain, to see its rules.
    ListRules,
    /// Ask for the address of a host.
    Resolve(DdnsEntry),
    /// See whether a rule is in force.
    CheckRule(Rule),
    AddRule(Rule),
    /// Add a rule, at the second attempt.
    RetryRule(Rule),
    /// Block a port for everyone who is not admitted.
    AddDrop(u16),
    /// Block a port no longer, because nobody is admitted to it.
    LiftDrop(u16),
    DeleteRule(Rule),
    /// Block a port no longer, because it is not configured.
    DeleteDrop(u16),
    /// List the rules of `INPUT`.
    ListInput,
    /// Remove a rule that an earlier release put into `INPUT`.
    DeleteLegacy(Rule),
    /// Nothing is left to do.
    Finish(Outcome),
}

impl View for Request {
    type V = RequestView;

    open spec fn view(&self) -> RequestView {
        match self {
            Request::ListChain => RequestView::ListChain,
            Request::CreateChain => RequestView::CreateChain,
            Request::CheckJump => RequestView::CheckJump,
            Request::AddJump => RequestView::AddJump,
            Request::LoadCache => RequestView::LoadCache,
            Request::CheckPending(rule) => RequestView::CheckPending(*rule),
            Request::RestorePending(rule) => RequestView::RestorePending(*rule),
            Request::ReadConfig => RequestView::ReadConfig,
            Request::ListRules => RequestView::ListRules,
            Request::Resolve(entry) => RequestView::Resolve(entry@),
            Request::CheckRule(rule) => RequestView::CheckRule(*rule),
            Request::AddRule(rule) => RequestView::AddRule(*rule),
            Request::RetryRule(rule) => RequestView::RetryRule(*rule),
            Request::AddDrop(port) => RequestView::AddDrop(*port),
            Request::LiftDrop(port) => RequestView::LiftDrop(*port),
            Request::DeleteRule(rule) => RequestView::DeleteRule(*rule),
            Request::DeleteDrop(port) => RequestView::DeleteDrop(*port),
            Request::ListInput => RequestView::ListInput,
            Request::DeleteLegacy(rule) => RequestView::DeleteLegacy(*rule),
            Request::Finish(outcome) => RequestView::Finish(*outcome),
        }
    }
}

/// What the outside world replies. A reply that does not fit the request counts as a failure.
pub enum Reply {
    /// What a command printed, if it succeeded.
    Listing(Option<String>),
    /// Whether a command succeeded.
    Status(bool),
    /// The response to a question for an address, if there was one.
    Response(Option<DnsResponse>),
    /// The lines of the cache file; none if there is no such file.
    CacheLines(Vec<String>),
    /// The configuration file, if it could be read.
    Config(Option<String>),
}

impl View for Reply {
    type V = ReplyView;

    open spec fn view(&self) -> ReplyView {
        match self {
            Reply::Listing(Some(output)) => ReplyView::Listing(Some(output@)),
            Reply::Listing(None) => ReplyView::Listing(None),
            Reply::Status(ok) => ReplyView::Status(*ok),
            Reply::Response(Some(response)) => ReplyView::Response(Some(response@)),
            Reply::Response(None) => ReplyView::Response(None),
            Reply::CacheLines(lines) => ReplyView::CacheLines(text::texts(lines@)),
            Reply::Config(Some(content)) => ReplyView::Config(Some(content@)),
            Reply::Config(None) => ReplyView::Config(None),
        }
    }
}

/// What is to be done next: the texts are to be kept in the cache file, one after the other, and
/// then the request is to be performed.
pub struct Command {
    pub saves: Vec<String>,
    pub request: Request,
}

impl View for Command {
    type V = CommandView;

    open spec fn view(&self) -> CommandView {
        CommandView { saves: text::texts(self.saves@), request: self.request@ }
    }
}

/// A synchronization under way.
pub struct Sync {
    step: Step,
    cache: Cache,
    entries: Vec<DdnsEntry>,
    existing: ChainRules,
    lookups: Vec<Lookup>,
    added: Vec<bool>,
    legacy: Vec<Rule>,
    missing: Vec<Rule>,
    changes: Vec<PortChange>,
    stale: Vec<Rule>,
    stale_ports: Vec<u16>,
}

impl View for Sync {
    type V = SyncView;

    closed spec fn view(&self) -> SyncView {
        SyncView {
            step: self.step,
            cache: self.cache@,
            entries: config::entry_views(self.entries@),
            existing: self.existing@,
            lookups: self.lookups@,
            added: self.added@,
            legacy: self.legacy@,
        }
    }
}

impl Reply {
    /// Whether the reply says that the command succeeded.
    fn ok(&self) -> (res: bool)
        ensures
            res == run::succeeded(self@),
    {
        match self {
            Reply::Status(ok) => *ok,
            _ => false,
        }
    }

    /// What the reply says a command printed.
    fn listing(&self) -> (out: Option<&str>)
        ensures
            text::optional(out) == run::listing_in(self@),
    {
        match self {
            Reply::Listing(Some(output)) => Some(output.as_str()),
            _ => None,
        }
    }

    /// The address that the reply gives.
    fn address(&self) -> (out: Option<Ipv4Addr>)
        ensures
            out == run::address_in(self@),
    {
        match self {
            Reply::Response(Some(response)) => dns::resolve_dns(response),
            _ => None,
        }
    }
}

/// How an interrupted run is taken up again.
pub enum Recovery {
    /// Nothing was interrupted.
    Nothing,
    /// It is to be found out whether the rule is in force.
    Check(Rule),
    /// The rule is to be added.
    Add(Rule),
    /// The cache is settled; this text is to be kept.
    Save(String),
}

/// Takes the run up again that left the cache behind. `checked` says whether the pending rule is
/// in force and `added` whether it could be added, as far as that is known.
pub fn recover_from_crash(cache: &mut Cache, checked: Option<bool>, added: Option<bool>) -> (out:
    Recovery)
    ensures
        match run::recovery(old(cache)@, checked, added) {
            RecoveryView::Nothing => out == Recovery::Nothing && final(cache)@ == old(cache)@,
            RecoveryView::Check(rule) => out == Recovery::Check(rule) && final(cache)@ == old(
                cache,
            )@,
            RecoveryView::Add(rule) => out == Recovery::Add(rule) && final(cache)@ == old(cache)@,
            RecoveryView::Settled(c) => {
                &&& final(cache)@ == c
                &&& out matches Recovery::Save(kept)
                &&& kept@ == cache::cache_text(c)
            },
        },
{
    match cache.state {
        CacheState::Idle => Recovery::Nothing,
        CacheState::Adding => match cache.pending {
            Some(rule) => match checked {
                None => Recovery::Check(rule),
                Some(true) => Recovery::Save(cache.add_rule(rule)),
                Some(false) => match added {
                    None => Recovery::Add(rule),
                    Some(true) => Recovery::Save(cache.add_rule(rule)),
                    Some(false) => Recovery::Save(cache.set_idle()),
                },
            },
            None => Recovery::Save(cache.set_idle()),
        },
        CacheState::Deleting => Recovery::Save(cache.set_idle()),
    }
}

impl Sync {
    /// The state is one that a run comes through, and the lists that are kept are those that the
    /// decisions call for.
    pub closed spec fn inv(&self) -> bool {
        &&& run::valid(self@)
        &&& match self.step {
            Step::AddRule(_) | Step::RetryRule(_) => self.missing@ == plan::to_add(
                run::facts(self@),
            ),
            Step::ChangePort(_) | Step::DeleteRule(_) | Step::DeleteDrop(_) => self.decided(),
            Step::ListInput(_) => self.missing@ == plan::to_add(run::facts(self@)),
            _ => true,
        }
    }

    /// The lists that are kept are those that the decisions call for.
    closed spec fn decided(&self) -> bool {
        let f = run::facts(self@);
        &&& plan::complete(f)
        &&& self.missing@ == plan::to_add(f)
        &&& self.changes@ == plan::changes(f)
        &&& self.stale@ == plan::stale(f)
        &&& self.stale_ports@ == plan::stale_ports(f)
    }

    /// The state of a synchronization is one that a run comes through.
    pub proof fn law_state_valid(&self)
        requires
            self.inv(),
        ensures
            run::valid(self@),
    {
    }

    /// Goes on with the removal of rule `i` of an earlier release.
    fn to_legacy(&mut self, i: usize, full: bool, saves: &mut Vec<String>)
        requires
            run::bounded(old(self)@),
            plan::complete(run::facts(old(self)@)),
            full || old(self)@.entries.len() == 0,
            forall|k: int|
                0 <= k < old(self)@.legacy.len() ==> plan::replaced(
                    run::facts(old(self)@),
                    #[trigger] old(self)@.legacy[k],
                ),
        ensures
            final(self).inv(),
            final(self)@ == run::to_legacy(
                old(self)@,
                i as int,
                full,
                text::texts(old(saves)@),
            ).state,
            text::texts(final(saves)@) == run::to_legacy(
                old(self)@,
                i as int,
                full,
                text::texts(old(saves)@),
            ).saves,
    {
        if i < self.legacy.len() {
            self.step = Step::DeleteLegacy(i, full);
        } else if full {
            proof {
                cache::lemma_changes_valid(self.cache@, arbitrary());
            }
            let kept = self.cache.set_idle();
            saves.push(kept);
            self.step = Step::Finished(Outcome::Complete);
            proof {
                assert(text::texts(saves@) =~= text::texts(old(saves)@).push(kept@));
            }
        } else {
            self.step = Step::Finished(Outcome::NoEntries);
        }
    }

    /// Goes on with the blocking of the unconfigured port `i`.
    fn to_stale_ports(&mut self, i: usize, saves: &mut Vec<String>)
        requires
            run::bounded(old(self)@),
            old(self).decided(),
        ensures
            final(self).inv(),
            final(self)@ == run::to_stale_ports(
                old(self)@,
                i as int,
                text::texts(old(saves)@),
            ).state,
            text::texts(final(saves)@) == run::to_stale_ports(
                old(self)@,
                i as int,
                text::texts(old(saves)@),
            ).saves,
    {
        if i < self.stale_ports.len() {
            self.step = Step::DeleteDrop(i);
        } else {
            self.step = Step::ListInput(true);
        }
    }

    /// Goes on with the deletion of rule `i`.
    fn to_stale(&mut self, i: usize, saves: &mut Vec<String>)
        requires
            run::bounded(old(self)@),
            old(self).decided(),
        ensures
            final(self).inv(),
            final(self)@ == run::to_stale(old(self)@, i as int, text::texts(old(saves)@)).state,
            text::texts(final(saves)@) == run::to_stale(
                old(self)@,
                i as int,
                text::texts(old(saves)@),
            ).saves,
    {
        if i < self.stale.len() {
            let rule = self.stale[i];
            proof {
                cache::lemma_changes_valid(self.cache@, rule);
            }
            let kept = self.cache.set_deleting(rule);
            saves.push(kept);
            self.step = Step::DeleteRule(i);
            proof {
                assert(text::texts(saves@) =~= text::texts(old(saves)@).push(kept@));
            }
        } else {
            self.to_stale_ports(0, saves);
        }
    }

    /// Goes on with change `i` of the blocking of a port.
    fn to_changes(&mut self, i: usize, saves: &mut Vec<String>)
        requires
            run::bounded(old(self)@),
            old(self).decided(),
        ensures
            final(self).inv(),
            final(self)@ == run::to_changes(old(self)@, i as int, text::texts(old(saves)@)).state,
            text::texts(final(saves)@) == run::to_changes(
                old(self)@,
                i as int,
                text::texts(old(saves)@),
            ).saves,
    {
        if i < self.changes.len() {
            self.step = Step::ChangePort(i);
        } else {
            self.to_stale(0, saves);
        }
    }

    /// Decides what is to be changed, now that everything is known.
    fn decide(&mut self)
        requires
            plan::complete(run::facts(old(self)@)),
            old(self).missing@ == plan::to_add(run::facts(old(self)@)),
        ensures
            final(self)@ == old(self)@,
            final(self).decided(),
    {
        let known = Known {
            entries: &self.entries,
            existing: &self.existing,
            lookups: &self.lookups,
            missing: &self.missing,
            added: &self.added,
        };
        proof {
            assert(known.facts() == run::facts(self@));
        }
        let changes = known.port_changes();
        let stale = known.stale_rules();
        let stale_ports = known.stale_drops();
        self.changes = changes;
        self.stale = stale;
        self.stale_ports = stale_ports;
    }

    /// Goes on with the addition of rule `i`.
    fn to_adds(&mut self, i: usize, saves: &mut Vec<String>)
        requires
            run::bounded(old(self)@),
            run::resolving_done(old(self)@),
            old(self).missing@ == plan::to_add(run::facts(old(self)@)),
            old(self)@.added.len() == i,
            i <= old(self).missing@.len(),
        ensures
            final(self).inv(),
            final(self)@ == run::to_adds(old(self)@, i as int, text::texts(old(saves)@)).state,
            text::texts(final(saves)@) == run::to_adds(
                old(self)@,
                i as int,
                text::texts(old(saves)@),
            ).saves,
    {
        if i < self.missing.len() {
            let rule = self.missing[i];
            proof {
                cache::lemma_changes_valid(self.cache@, rule);
            }
            let kept = self.cache.set_adding(rule);
            saves.push(kept);
            self.step = Step::AddRule(i);
            proof {
                assert(text::texts(saves@) =~= text::texts(old(saves)@).push(kept@));
            }
        } else {
            self.decide();
            self.to_changes(0, saves);
        }
    }

    /// Goes on with entry `i`.
    fn to_lookups(&mut self, i: usize, saves: &mut Vec<String>)
        requires
            run::bounded(old(self)@),
            old(self)@.lookups.len() == i,
            old(self)@.added.len() == 0,
            i <= old(self)@.entries.len(),
        ensures
            final(self).inv(),
            final(self)@ == run::to_lookups(old(self)@, i as int, text::texts(old(saves)@)).state,
            text::texts(final(saves)@) == run::to_lookups(
                old(self)@,
                i as int,
                text::texts(old(saves)@),
            ).saves,
    {
        if i < self.entries.len() {
            self.step = Step::Resolve(i);
        } else {
            self.missing = plan::rules_to_add(&self.entries, &self.lookups, &self.existing);
            proof {
                assert(self.added@ =~= Seq::<bool>::empty());
                assert(self@ == old(self)@);
            }
            self.to_adds(0, saves);
        }
    }

    /// Notes what was found out about entry `i`.
    fn looked_up(&mut self, i: usize, lookup: Lookup, saves: &mut Vec<String>)
        requires
            old(self).inv(),
            old(self)@.lookups.len() == i,
            old(self)@.added.len() == 0,
            i < old(self)@.entries.len(),
            old(saves)@.len() == 0,
        ensures
            final(self).inv(),
            final(self)@ == run::looked_up(old(self)@, i as int, lookup).state,
            text::texts(final(saves)@) == run::looked_up(old(self)@, i as int, lookup).saves,
    {
        self.lookups.push(lookup);
        proof {
            assert(text::texts(saves@) =~= Seq::<Seq<char>>::empty());
        }
        self.to_lookups(i + 1, saves);
    }

    /// Notes what became of missing rule `i`.
    fn tried(&mut self, i: usize, ok: bool, saves: &mut Vec<String>)
        requires
            old(self).inv(),
            old(self)@.step == Step::AddRule(i) || old(self)@.step == Step::RetryRule(i),
            old(saves)@.len() == 0,
        ensures
            final(self).inv(),
            final(self)@ == run::tried(old(self)@, i as int, ok).state,
            text::texts(final(saves)@) == run::tried(old(self)@, i as int, ok).saves,
    {
        let rule = self.missing[i];
        proof {
            cache::lemma_changes_valid(self.cache@, rule);
        }
        let kept = if ok {
            self.cache.add_rule(rule)
        } else {
            self.cache.set_idle()
        };
        saves.push(kept);
        self.added.push(ok);
        proof {
            assert(text::texts(saves@) =~= seq![kept@]);
            plan::lemma_to_add_early(run::facts(old(self)@), run::facts(self@));
            assert(i < self.missing.len());
        }
        self.to_adds(i + 1, saves);
    }

    /// Takes an interrupted run up again, then goes on with the configuration.
    fn recover(&mut self, checked: Option<bool>, added: Option<bool>, saves: &mut Vec<String>)
        requires
            run::bounded(old(self)@),
            run::fresh(old(self)@),
            old(saves)@.len() == 0,
        ensures
            final(self).inv(),
            final(self)@ == run::recovering(old(self)@, checked, added).state,
            text::texts(final(saves)@) == run::recovering(old(self)@, checked, added).saves,
    {
        proof {
            match self.cache@.pending {
                Some(rule) => cache::lemma_changes_valid(self.cache@, rule),
                None => cache::lemma_changes_valid(self.cache@, arbitrary()),
            }
            assert(text::texts(saves@) =~= Seq::<Seq<char>>::empty());
        }
        match recover_from_crash(&mut self.cache, checked, added) {
            Recovery::Nothing => {
                self.step = Step::ReadConfig;
            },
            Recovery::Check(rule) => {
                self.step = Step::CheckPending(rule);
            },
            Recovery::Add(rule) => {
                self.step = Step::RestorePending(rule);
            },
            Recovery::Save(kept) => {
                saves.push(kept);
                self.step = Step::ReadConfig;
                proof {
                    assert(text::texts(saves@) =~= seq![kept@]);
                }
            },
        }
    }

    /// What the state waits to hear about.
    fn request(&self) -> (out: Request)
        requires
            self.inv(),
        ensures
            out@ == run::request_of(self@),
    {
        match self.step {
            Step::ListChain => Request::ListChain,
            Step::CreateChain => Request::CreateChain,
            Step::CheckJump => Request::CheckJump,
            Step::AddJump => Request::AddJump,
            Step::LoadCache => Request::LoadCache,
            Step::CheckPending(rule) => Request::CheckPending(rule),
            Step::RestorePending(rule) => Request::RestorePending(rule),
            Step::ReadConfig => Request::ReadConfig,
            Step::ListRules => Request::ListRules,
            Step::Resolve(i) => {
                let entry = &self.entries[i];
                proof {
                    assert(self@.entries[i as int] == entry@);
                }
                Request::Resolve(DdnsEntry { hostname: entry.hostname.clone(), port: entry.port })
            },
            Step::CheckRule(i, ip) => {
                proof {
                    assert(self@.entries[i as int] == self.entries@[i as int]@);
                }
                Request::CheckRule(Rule { ip, port: self.entries[i].port })
            },
            Step::AddRule(i) => Request::AddRule(self.missing[i]),
            Step::RetryRule(i) => Request::RetryRule(self.missing[i]),
            Step::ChangePort(i) => match self.changes[i] {
                PortChange::Block(port) => Request::AddDrop(port),
                PortChange::Unblock(port) => Request::LiftDrop(port),
            },
            Step::DeleteRule(i) => Request::DeleteRule(self.stale[i]),
            Step::DeleteDrop(i) => Request::DeleteDrop(self.stale_ports[i]),
            Step::ListInput(_) => Request::ListInput,
            Step::DeleteLegacy(i, _) => Request::DeleteLegacy(self.legacy[i]),
            Step::Finished(outcome) => Request::Finish(outcome),
        }
    }

    /// Notes whether the chain exists, or could be created.
    fn on_chain(&mut self, reply: &Reply)
        requires
            old(self).inv(),
            old(self)@.step == Step::ListChain || old(self)@.step == Step::CreateChain,
        ensures
            final(self).inv(),
            final(self)@ == run::next(old(self)@, reply@).state,
            run::next(old(self)@, reply@).saves == Seq::<Seq<char>>::empty(),
    {
        let answer = match self.step {
            Step::ListChain => command::ensure_chain(Some(reply.listing().is_some()), None),
            _ => command::ensure_chain(Some(false), Some(reply.ok())),
        };
        self.step = match answer {
            Ensure::Run(_) => Step::CreateChain,
            Ensure::Done(true) => Step::CheckJump,
            Ensure::Done(false) => Step::Finished(Outcome::ChainFailed),
        };
    }

    /// Notes whether `INPUT` leads to the chain, or could be made to.
    fn on_jump(&mut self, reply: &Reply)
        requires
            old(self).inv(),
            old(self)@.step == Step::CheckJump || old(self)@.step == Step::AddJump,
        ensures
            final(self).inv(),
            final(self)@ == run::next(old(self)@, reply@).state,
            run::next(old(self)@, reply@).saves == Seq::<Seq<char>>::empty(),
    {
        let answer = match self.step {
            Step::CheckJump => command::ensure_jump_rule(Some(reply.ok()), None),
            _ => command::ensure_jump_rule(Some(false), Some(reply.ok())),
        };
        self.step = match answer {
            Ensure::Run(_) => Step::AddJump,
            Ensure::Done(true) => Step::LoadCache,
            Ensure::Done(false) => Step::Finished(Outcome::JumpFailed),
        };
    }

    /// Reads the cache.
    fn on_cache(&mut self, reply: &Reply, saves: &mut Vec<String>)
        requires
            old(self).inv(),
            old(self)@.step == Step::LoadCache,
            old(saves)@.len() == 0,
        ensures
            final(self).inv(),
            final(self)@ == run::next(old(self)@, reply@).state,
            text::texts(final(saves)@) == run::next(old(self)@, reply@).saves,
    {
        self.cache = match reply {
            Reply::CacheLines(lines) => Cache::load(lines),
            _ => {
                let lines: Vec<String> = Vec::new();
                proof {
                    assert(text::texts(lines@) =~= Seq::<Seq<char>>::empty());
                }
                Cache::load(&lines)
            },
        };
        self.recover(None, None, saves);
    }

    /// Reads the configuration.
    fn on_config(&mut self, reply: &Reply)
        requires
            old(self).inv(),
            old(self)@.step == Step::ReadConfig,
        ensures
            final(self).inv(),
            final(self)@ == run::next(old(self)@, reply@).state,
            run::next(old(self)@, reply@).saves == Seq::<Seq<char>>::empty(),
    {
        match reply {
            Reply::Config(Some(content)) => {
                self.entries = config::parse_config(content.as_str()).0;
                self.missing = Vec::new();
                proof {
                    if self.entries@.len() == 0 {
                        assert(self.missing@ =~= plan::to_add(run::facts(self@)));
                    }
                }
                self.step = if self.entries.len() == 0 {
                    Step::ListInput(false)
                } else {
                    Step::ListRules
                };
            },
            _ => {
                self.step = Step::Finished(Outcome::ConfigUnread);
            },
        }
    }

    /// Reads the rules of the chain.
    fn on_rules(&mut self, reply: &Reply, saves: &mut Vec<String>)
        requires
            old(self).inv(),
            old(self)@.step == Step::ListRules,
            old(saves)@.len() == 0,
        ensures
            final(self).inv(),
            final(self)@ == run::next(old(self)@, reply@).state,
            text::texts(final(saves)@) == run::next(old(self)@, reply@).saves,
    {
        if reply.listing().is_none() {
            self.step = Step::Finished(Outcome::ListFailed);
            proof {
                assert(text::texts(saves@) =~= Seq::<Seq<char>>::empty());
            }
            return;
        }
        self.existing = chain::get_chain_rules(reply.listing());
        self.cache.rules = lists::copy_rules(&self.existing.accept);
        let kept = self.cache.save();
        saves.push(kept);
        proof {
            assert(text::texts(saves@) =~= seq![kept@]);
        }
        self.to_lookups(0, saves);
    }

    /// Notes the address of entry `i`.
    fn on_address(&mut self, i: usize, reply: &Reply, saves: &mut Vec<String>)
        requires
            old(self).inv(),
            old(self)@.step == Step::Resolve(i),
            old(saves)@.len() == 0,
        ensures
            final(self).inv(),
            final(self)@ == run::next(old(self)@, reply@).state,
            text::texts(final(saves)@) == run::next(old(self)@, reply@).saves,
    {
        match reply.address() {
            None => {
                self.looked_up(i, Lookup { ip: None, present: false }, saves);
            },
            Some(ip) => {
                proof {
                    assert(self@.entries[i as int] == self.entries@[i as int]@);
                    assert(text::texts(saves@) =~= Seq::<Seq<char>>::empty());
                }
                let rule = Rule { ip, port: self.entries[i].port };
                if lists::holds_rule(&self.existing.accept, rule) {
                    self.looked_up(i, Lookup { ip: Some(ip), present: true }, saves);
                } else {
                    self.step = Step::CheckRule(i, ip);
                }
            },
        }
    }

    /// Reads the rules of an earlier release.
    fn on_input(&mut self, full: bool, reply: &Reply, saves: &mut Vec<String>)
        requires
            old(self).inv(),
            old(self)@.step == Step::ListInput(full),
            old(saves)@.len() == 0,
        ensures
            final(self).inv(),
            final(self)@ == run::next(old(self)@, reply@).state,
            text::texts(final(saves)@) == run::next(old(self)@, reply@).saves,
    {
        let found = chain::cleanup_legacy_rules(reply.listing());
        let known = Known {
            entries: &self.entries,
            existing: &self.existing,
            lookups: &self.lookups,
            missing: &self.missing,
            added: &self.added,
        };
        proof {
            assert(known.facts() == run::facts(self@));
        }
        let legacy = known.migrated_rules(&found);
        proof {
            plan_laws::lemma_migrated(run::facts(self@), found@);
            assert(text::texts(saves@) =~= Seq::<Seq<char>>::empty());
        }
        self.legacy = legacy;
        proof {
            assert(run::facts(self@) == run::facts(old(self)@));
        }
        self.to_legacy(0, full, saves);
    }

    /// Notes whether the stale rule `i` could be deleted.
    fn on_deleted(&mut self, i: usize, reply: &Reply, saves: &mut Vec<String>)
        requires
            old(self).inv(),
            old(self)@.step == Step::DeleteRule(i),
            old(saves)@.len() == 0,
        ensures
            final(self).inv(),
            final(self)@ == run::next(old(self)@, reply@).state,
            text::texts(final(saves)@) == run::next(old(self)@, reply@).saves,
    {
        let rule = self.stale[i];
        proof {
            cache::lemma_changes_valid(self.cache@, rule);
        }
        let kept = if reply.ok() {
            self.cache.remove_rule(rule)
        } else {
            self.cache.set_idle()
        };
        saves.push(kept);
        proof {
            assert(text::texts(saves@) =~= seq![kept@]);
            assert(i < self.stale.len());
        }
        self.to_stale(i + 1, saves);
    }
}

/// The arguments of the `iptables` command that performs a request, for those that ask for one.
pub fn arguments(request: &Request) -> (out: Option<Vec<String>>)
    ensures
        match out {
            Some(args) => run::command_line(request@) == Some(text::texts(args@)),
            None => run::command_line(request@) is None,
        },
{
    match request {
        Request::ListChain => Some(command::list_chain()),
        Request::CreateChain => Some(command::create_chain()),
        Request::CheckJump => Some(command::check_jump_rule()),
        Request::AddJump => Some(command::add_jump_rule()),
        Request::CheckPending(rule) => Some(command::rule_exists(rule.ip, rule.port)),
        Request::RestorePending(rule) => Some(command::add_rule(rule.ip, rule.port)),
        Request::ListRules => Some(command::list_chain()),
        Request::CheckRule(rule) => Some(command::rule_exists(rule.ip, rule.port)),
        Request::AddRule(rule) => Some(command::add_rule(rule.ip, rule.port)),
        Request::RetryRule(rule) => Some(command::add_rule(rule.ip, rule.port)),
        Request::AddDrop(port) => Some(command::add_drop_rule(*port)),
        Request::LiftDrop(port) => Some(command::delete_drop_rule(*port)),
        Request::DeleteRule(rule) => Some(command::delete_rule(rule.ip, rule.port)),
        Request::DeleteDrop(port) => Some(command::delete_drop_rule(*port)),
        Request::ListInput => Some(command::list_input()),
        Request::DeleteLegacy(rule) => Some(command::delete_legacy_rule(rule.ip, rule.port)),
        Request::LoadCache => None,
        Request::ReadConfig => None,
        Request::Resolve(_) => None,
        Request::Finish(_) => None,
    }
}

/// Begins a synchronization: gives its state and the first request.
pub fn start_sync() -> (out: (Sync, Command))
    ensures
        out.0.inv(),
        out.0@ == run::start(),
        out.1@ == (CommandView {
            saves: Seq::<Seq<char>>::empty(),
            request: run::request_of(run::start()),
        }),
{
    let sync = Sync {
        step: Step::ListChain,
        cache: Cache::new(),
        entries: Vec::new(),
        existing: ChainRules { accept: Vec::new(), drop: Vec::new(), truncated: false },
        lookups: Vec::new(),
        added: Vec::new(),
        legacy: Vec::new(),
        missing: Vec::new(),
        changes: Vec::new(),
        stale: Vec::new(),
        stale_ports: Vec::new(),
    };
    let saves: Vec<String> = Vec::new();
    proof {
        assert(sync@.entries =~= Seq::<config::EntryView>::empty());
        assert(text::texts(saves@) =~= Seq::<Seq<char>>::empty());
    }
    (sync, Command { saves, request: Request::ListChain })
}

/// Goes on with a synchronization after the reply to its last request: gives what is to be kept
/// in the cache file and the next request.
pub fn sync_firewall(sync: &mut Sync, reply: &Reply) -> (out: Command)
    requires
        old(sync).inv(),
    ensures
        final(sync).inv(),
        final(sync)@ == run::next(old(sync)@, reply@).state,
        out@ == (CommandView {
            saves: run::next(old(sync)@, reply@).saves,
            request: run::request_of(run::next(old(sync)@, reply@).state),
        }),
{
    let mut saves: Vec<String> = Vec::new();
    proof {
        assert(text::texts(saves@) =~= Seq::<Seq<char>>::empty());
    }
    match sync.step {
        Step::ListChain | Step::CreateChain => sync.on_chain(reply),
        Step::CheckJump | Step::AddJump => sync.on_jump(reply),
        Step::LoadCache => sync.on_cache(reply, &mut saves),
        Step::CheckPending(_) => sync.recover(Some(reply.ok()), None, &mut saves),
        Step::RestorePending(_) => sync.recover(Some(false), Some(reply.ok()), &mut saves),
        Step::ReadConfig => sync.on_config(reply),
        Step::ListRules => sync.on_rules(reply, &mut saves),
        Step::Resolve(i) => sync.on_address(i, reply, &mut saves),
        Step::CheckRule(i, ip) => sync.looked_up(
            i,
            Lookup { ip: Some(ip), present: reply.ok() },
            &mut saves,
        ),
        Step::AddRule(i) => {
            if reply.ok() {
                sync.tried(i, true, &mut saves);
            } else {
                sync.step = Step::RetryRule(i);
            }
        },
        Step::RetryRule(i) => sync.tried(i, reply.ok(), &mut saves),
        Step::ChangePort(i) => {
            proof {
                assert(i < sync.changes.len());
            }
            sync.to_changes(i + 1, &mut saves);
        },
        Step::DeleteRule(i) => sync.on_deleted(i, reply, &mut saves),
        Step::DeleteDrop(i) => {
            proof {
                assert(i < sync.stale_ports.len());
            }
            sync.to_stale_ports(i + 1, &mut saves);
        },
        Step::ListInput(full) => {
            sync.on_input(full, reply, &mut saves);
        },
        Step::DeleteLegacy(i, full) => {
            proof {
                assert(i < sync.legacy.len());
            }
            sync.to_legacy(i + 1, full, &mut saves);
        },
        Step::Finished(_) => {},
    }
    let request = sync.request();
    Command { saves, request }
}

} // verus!
