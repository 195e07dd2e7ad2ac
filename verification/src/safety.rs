//! A run keeps every configured port within reach of those who are admitted to it.

use crate::addr::Rule;
use crate::cache::CacheView;
use crate::chain;
use crate::command;
use crate::config::EntryView;
use crate::firewall;
use crate::firewall::ChainRule;
use crate::firewall::InputRule;
use crate::plan;
use crate::plan::Findings;
use crate::plan::Lookup;
use crate::plan::PortChange;
use crate::plan_laws;
use crate::progress;
use crate::run;
use crate::run::Outcome;
use crate::run::ReplyView;
use crate::run::RequestView;
use crate::run::Step;
use crate::run::SyncView;
use vstd::prelude::*;

verus! {

/// What the reply says about the chain is true: what is read from a listing is in the chain, whatever
/// else the listing holds or leaves out, and a rule that is said to be in force is in the chain.
/// Nothing is expected of names, files and failures.
pub open spec fn honest(kernel: Seq<ChainRule>, request: RequestView, reply: ReplyView) -> bool {
    match request {
        RequestView::ListRules => match run::listing_in(reply) {
            Some(output) => firewall::shows_truly(output, kernel),
            None => true,
        },
        RequestView::CheckRule(rule) => run::succeeded(reply) ==> kernel.contains(
            ChainRule::Accept(rule),
        ),
        _ => true,
    }
}

/// The chain after the request of a state was performed.
pub open spec fn moved(s: SyncView, kernel: Seq<ChainRule>, reply: ReplyView) -> Seq<ChainRule> {
    firewall::performed(kernel, run::request_of(s), run::succeeded(reply))
}

/// Every rule that is taken to be in force is in the chain.
#[verifier::opaque]
pub open spec fn all_held(f: Findings, kernel: Seq<ChainRule>) -> bool {
    forall|rule: Rule| #[trigger]
        plan::in_force(f, rule) ==> kernel.contains(ChainRule::Accept(rule))
}

/// Every rule that is taken to be in force and is to stay so is in the chain.
#[verifier::opaque]
pub open spec fn desired_held(f: Findings, kernel: Seq<ChainRule>) -> bool {
    forall|rule: Rule| #[trigger]
        plan::in_force(f, rule) && plan::desired(f, rule) ==> kernel.contains(
            ChainRule::Accept(rule),
        )
}

/// The run adds rules, or finds out which ones to add.
pub open spec fn adding(step: Step) -> bool {
    step is Resolve || step is CheckRule || step is AddRule || step is RetryRule
}

/// The run has added what it could.
pub open spec fn added(step: Step) -> bool {
    ||| step is ChangePort
    ||| step is DeleteRule
    ||| step is DeleteDrop
    ||| step == Step::ListInput(true)
    ||| (step matches Step::DeleteLegacy(_, full) && full)
    ||| step == Step::Finished(Outcome::Complete)
}

/// What the run takes to be in force is in force.
pub open spec fn secure(s: SyncView, kernel: Seq<ChainRule>) -> bool {
    &&& adding(s.step) ==> all_held(run::facts(s), kernel)
    &&& added(s.step) ==> desired_held(run::facts(s), kernel) && plan::complete(run::facts(s))
}

// ---------------------------------------------------------------------------
// What a run takes to be in force
// ---------------------------------------------------------------------------

/// What holds of all rules that are in force holds of those that are to stay.
proof fn lemma_held_desired(f: Findings, kernel: Seq<ChainRule>)
    requires
        all_held(f, kernel),
    ensures
        desired_held(f, kernel),
{
    reveal(all_held);
    reveal(desired_held);
}

/// A rule that is taken to be in force is in the chain.
pub proof fn lemma_held(s: SyncView, kernel: Seq<ChainRule>, rule: Rule)
    requires
        secure(s, kernel),
        adding(s.step) || added(s.step) && plan::desired(run::facts(s), rule),
        plan::in_force(run::facts(s), rule),
    ensures
        kernel.contains(ChainRule::Accept(rule)),
{
    reveal(all_held);
    reveal(desired_held);
}

/// A chain that lost no rule holds what it held.
proof fn lemma_held_grown(f: Findings, kernel: Seq<ChainRule>, grown: Seq<ChainRule>)
    requires
        all_held(f, kernel),
        forall|rule: Rule| #[trigger]
            kernel.contains(ChainRule::Accept(rule)) ==> grown.contains(ChainRule::Accept(rule)),
    ensures
        all_held(f, grown),
{
    reveal(all_held);
}

proof fn lemma_secure_adds(s: SyncView, i: int, saves: Seq<Seq<char>>, kernel: Seq<ChainRule>)
    requires
        all_held(run::facts(s), kernel),
        run::valid(run::to_adds(s, i, saves).state),
        i >= plan::to_add(run::facts(s)).len() ==> plan::complete(run::facts(s)),
    ensures
        secure(run::to_adds(s, i, saves).state, kernel),
{
    lemma_held_desired(run::facts(s), kernel);
    let t = run::to_adds(s, i, saves).state;
    progress::lemma_same_facts(s, t);
}

proof fn lemma_secure_lookups(s: SyncView, i: int, saves: Seq<Seq<char>>, kernel: Seq<ChainRule>)
    requires
        all_held(run::facts(s), kernel),
        run::valid(run::to_lookups(s, i, saves).state),
        i >= s.entries.len() ==> run::resolving_done(s) && s.added.len() == 0,
    ensures
        secure(run::to_lookups(s, i, saves).state, kernel),
{
    lemma_held_desired(run::facts(s), kernel);
    let t = run::to_lookups(s, i, saves).state;
    progress::lemma_same_facts(s, t);
    if i >= s.entries.len() {
        lemma_secure_adds(s, 0, saves, kernel);
    }
}

/// One more entry was looked up.
proof fn lemma_held_lookup(f: Findings, g: Findings, lookup: Lookup, kernel: Seq<ChainRule>)
    requires
        all_held(f, kernel),
        g == (Findings { lookups: f.lookups.push(lookup), ..f }),
        f.added.len() == 0,
        f.lookups.len() < f.entries.len(),
        lookup.present ==> lookup.ip is Some && kernel.contains(
            ChainRule::Accept(Rule { ip: lookup.ip->0, port: f.entries[f.lookups.len() as int].port }),
        ),
    ensures
        all_held(g, kernel),
{
    reveal(all_held);
    assert forall|rule: Rule| #[trigger] plan::in_force(g, rule) implies kernel.contains(
        ChainRule::Accept(rule),
    ) by {
        if g.existing.accept.contains(rule) {
            assert(plan::in_force(f, rule));
        } else if exists|i: int| plan::present_at(g, i, rule) {
            let i = choose|i: int| plan::present_at(g, i, rule);
            if i < f.lookups.len() {
                assert(plan::present_at(f, i, rule));
                assert(plan::in_force(f, rule));
            } else {
                assert(lookup.ip == Some(rule.ip));
            }
        } else {
            let k = choose|k: int| plan::added_at(g, k, rule);
            assert(k < g.added.len());
        }
    }
}

/// One more rule was tried.
proof fn lemma_held_tried(f: Findings, g: Findings, ok: bool, kernel: Seq<ChainRule>)
    requires
        all_held(f, kernel),
        g == (Findings { added: f.added.push(ok), ..f }),
        f.added.len() < plan::to_add(f).len(),
        ok ==> kernel.contains(ChainRule::Accept(plan::to_add(f)[f.added.len() as int])),
    ensures
        all_held(g, kernel),
{
    reveal(all_held);
    plan::lemma_to_add_early(f, g);
    assert forall|rule: Rule| #[trigger] plan::in_force(g, rule) implies kernel.contains(
        ChainRule::Accept(rule),
    ) by {
        if g.existing.accept.contains(rule) {
            assert(plan::in_force(f, rule));
        } else if exists|i: int| plan::present_at(g, i, rule) {
            let i = choose|i: int| plan::present_at(g, i, rule);
            assert(plan::present_at(f, i, rule));
            assert(plan::in_force(f, rule));
        } else {
            let k = choose|k: int| plan::added_at(g, k, rule);
            if k < f.added.len() {
                assert(plan::added_at(f, k, rule));
                assert(plan::in_force(f, rule));
            }
        }
    }
}

/// Nothing but the listing is known yet.
proof fn lemma_held_listed(f: Findings, kernel: Seq<ChainRule>)
    requires
        forall|rule: Rule| #[trigger]
            f.existing.accept.contains(rule) ==> kernel.contains(ChainRule::Accept(rule)),
        f.lookups.len() == 0,
        f.added.len() == 0,
    ensures
        all_held(f, kernel),
{
    reveal(all_held);
    assert forall|rule: Rule| #[trigger] plan::in_force(f, rule) implies kernel.contains(
        ChainRule::Accept(rule),
    ) by {
        if exists|i: int| plan::present_at(f, i, rule) {
            let i = choose|i: int| plan::present_at(f, i, rule);
            assert(i < f.lookups.len());
        }
        if exists|k: int| plan::added_at(f, k, rule) {
            let k = choose|k: int| plan::added_at(f, k, rule);
            assert(k < f.added.len());
        }
        assert(f.existing.accept.contains(rule));
    }
}

proof fn lemma_secure_listed(s: SyncView, kernel: Seq<ChainRule>, reply: ReplyView)
    requires
        run::valid(s),
        s.step is ListRules,
        honest(kernel, run::request_of(s), reply),
    ensures
        secure(run::next(s, reply).state, kernel),
{
    let existing = chain::chain_of(run::listing_in(reply));
    let c = CacheView { rules: existing.accept, ..s.cache };
    let t = SyncView { existing, cache: c, ..s };
    progress::law_progress(s, reply);
    lemma_held_listed(run::facts(t), kernel);
    lemma_secure_lookups(t, 0, seq![crate::cache::cache_text(c)], kernel);
}

proof fn lemma_secure_looked_up(s: SyncView, lookup: Lookup, kernel: Seq<ChainRule>)
    requires
        run::valid(s),
        secure(s, kernel),
        s.step is Resolve || s.step is CheckRule,
        run::valid(run::looked_up(s, s.lookups.len() as int, lookup).state),
        lookup.present ==> lookup.ip is Some && kernel.contains(
            ChainRule::Accept(run::entry_rule(s, s.lookups.len() as int, lookup.ip->0)),
        ),
    ensures
        secure(run::looked_up(s, s.lookups.len() as int, lookup).state, kernel),
{
    let i = s.lookups.len() as int;
    let t = SyncView { lookups: s.lookups.push(lookup), ..s };
    lemma_held_lookup(run::facts(s), run::facts(t), lookup, kernel);
    lemma_secure_lookups(t, i + 1, Seq::<Seq<char>>::empty(), kernel);
}

#[verifier::rlimit(40)]
proof fn lemma_secure_resolved(s: SyncView, kernel: Seq<ChainRule>, reply: ReplyView)
    requires
        run::valid(s),
        secure(s, kernel),
        s.step is Resolve || s.step is CheckRule,
        honest(kernel, run::request_of(s), reply),
    ensures
        secure(run::next(s, reply).state, kernel),
{
    let i = s.lookups.len() as int;
    progress::law_progress(s, reply);
    match s.step {
        Step::Resolve(_) => match run::address_in(reply) {
            None => lemma_secure_looked_up(s, Lookup { ip: None, present: false }, kernel),
            Some(ip) => {
                let rule = run::entry_rule(s, i, ip);
                if s.existing.accept.contains(rule) {
                    assert(plan::in_force(run::facts(s), rule));
                    lemma_held(s, kernel, rule);
                    lemma_secure_looked_up(s, Lookup { ip: Some(ip), present: true }, kernel);
                } else {
                    progress::lemma_same_facts(s, run::next(s, reply).state);
                }
            },
        },
        Step::CheckRule(_, ip) => {
            lemma_secure_looked_up(
                s,
                Lookup { ip: Some(ip), present: run::succeeded(reply) },
                kernel,
            );
        },
        _ => {},
    }
}

proof fn lemma_secure_tried(s: SyncView, kernel: Seq<ChainRule>, ok: bool)
    requires
        run::valid(s),
        all_held(run::facts(s), kernel),
        s.step is AddRule || s.step is RetryRule,
        run::valid(run::tried(s, s.added.len() as int, ok).state),
        ok ==> kernel.contains(
            ChainRule::Accept(plan::to_add(run::facts(s))[s.added.len() as int]),
        ),
    ensures
        secure(run::tried(s, s.added.len() as int, ok).state, kernel),
{
    let i = s.added.len() as int;
    let rule = plan::to_add(run::facts(s))[i];
    let c = if ok {
        crate::cache::with_rule(s.cache, rule)
    } else {
        crate::cache::idle(s.cache)
    };
    let t = SyncView { cache: c, added: s.added.push(ok), ..s };
    lemma_held_tried(run::facts(s), run::facts(t), ok, kernel);
    plan::lemma_to_add_early(run::facts(s), run::facts(t));
    lemma_secure_adds(t, i + 1, seq![crate::cache::cache_text(c)], kernel);
}

#[verifier::rlimit(40)]
proof fn lemma_secure_added(s: SyncView, kernel: Seq<ChainRule>, reply: ReplyView)
    requires
        run::valid(s),
        secure(s, kernel),
        s.step is AddRule || s.step is RetryRule,
    ensures
        secure(run::next(s, reply).state, moved(s, kernel, reply)),
{
    let i = s.added.len() as int;
    let ok = run::succeeded(reply);
    let rule = plan::to_add(run::facts(s))[i];
    let grown = moved(s, kernel, reply);
    progress::law_progress(s, reply);
    firewall::lemma_in_front(kernel, ChainRule::Accept(rule));
    lemma_held_grown(run::facts(s), kernel, grown);
    if s.step is AddRule && !ok {
        progress::lemma_same_facts(s, run::next(s, reply).state);
    } else {
        lemma_secure_tried(s, grown, ok);
    }
}

/// A request of the later phases takes no rule away that is to stay.
proof fn lemma_desired_held(s: SyncView, kernel: Seq<ChainRule>, reply: ReplyView)
    requires
        run::valid(s),
        secure(s, kernel),
        added(s.step),
    ensures
        desired_held(run::facts(s), moved(s, kernel, reply)),
{
    reveal(desired_held);
    let f = run::facts(s);
    match s.step {
        Step::ChangePort(i) => match plan::changes(f)[i as int] {
            PortChange::Block(port) => firewall::lemma_at_end(kernel, ChainRule::Drop(port)),
            PortChange::Unblock(port) => firewall::lemma_removed(kernel, ChainRule::Drop(port)),
        },
        Step::DeleteRule(i) => {
            let rule = plan::stale(f)[i as int];
            assert(plan::stale(f).contains(rule));
            plan_laws::lemma_stale(f, rule);
            firewall::lemma_removed(kernel, ChainRule::Accept(rule));
        },
        Step::DeleteDrop(i) => {
            firewall::lemma_removed(kernel, ChainRule::Drop(plan::stale_ports(f)[i as int]));
        },
        _ => {},
    }
}

#[verifier::rlimit(40)]
proof fn lemma_secure_later(s: SyncView, kernel: Seq<ChainRule>, reply: ReplyView)
    requires
        run::valid(s),
        secure(s, kernel),
        s.step is ChangePort || s.step is DeleteRule || s.step is DeleteDrop || s.step is ListInput
            || s.step is DeleteLegacy || s.step is Finished,
    ensures
        secure(run::next(s, reply).state, moved(s, kernel, reply)),
{
    let t = run::next(s, reply).state;
    progress::lemma_same_facts(s, t);
    if added(s.step) {
        lemma_desired_held(s, kernel, reply);
    }
}

/// At the beginning of a run nothing is taken to be in force.
pub proof fn law_secure_start(kernel: Seq<ChainRule>)
    ensures
        secure(run::start(), kernel),
{
}

/// Throughout a run, every rule that the run relies on is in the chain, whatever fails.
#[verifier::rlimit(40)]
pub proof fn law_secure_kept(s: SyncView, kernel: Seq<ChainRule>, reply: ReplyView)
    requires
        run::valid(s),
        secure(s, kernel),
        honest(kernel, run::request_of(s), reply),
    ensures
        secure(run::next(s, reply).state, moved(s, kernel, reply)),
{
    match s.step {
        Step::ListRules => lemma_secure_listed(s, kernel, reply),
        Step::Resolve(_) | Step::CheckRule(_, _) => lemma_secure_resolved(s, kernel, reply),
        Step::AddRule(_) | Step::RetryRule(_) => lemma_secure_added(s, kernel, reply),
        Step::ChangePort(_) | Step::DeleteRule(_) | Step::DeleteDrop(_) => {
            lemma_secure_later(s, kernel, reply);
        },
        Step::ListInput(_) | Step::DeleteLegacy(_, _) | Step::Finished(_) => {
            lemma_secure_later(s, kernel, reply);
        },
        _ => {},
    }
}

// ---------------------------------------------------------------------------
// What follows
// ---------------------------------------------------------------------------

/// Somebody is admitted to the port by the chain.
pub open spec fn within_reach(kernel: Seq<ChainRule>, port: u16) -> bool {
    exists|rule: Rule| rule.port == port && #[trigger] kernel.contains(ChainRule::Accept(rule))
}

/// The port is not blocked for everyone.
pub open spec fn open_to_someone(kernel: Seq<ChainRule>, port: u16) -> bool {
    kernel.contains(ChainRule::Drop(port)) ==> within_reach(kernel, port)
}

/// A port is only blocked while the chain admits somebody to it.
pub proof fn law_blocked_when_admitted(s: SyncView, kernel: Seq<ChainRule>, port: u16)
    requires
        run::valid(s),
        secure(s, kernel),
        run::request_of(s) == RequestView::AddDrop(port),
    ensures
        within_reach(kernel, port),
        plan::ports_of(s.entries).contains(port),
{
    let f = run::facts(s);
    assert(s.step is ChangePort);
    assert(plan::changes(f).contains(PortChange::Block(port)));
    plan_laws::lemma_changes(f, port);
    let rule = choose|rule: Rule| plan::kept_for(f, rule, port);
    lemma_held(s, kernel, rule);
}

/// A rule for a configured port is only deleted while the chain holds another one for the port.
pub proof fn law_deleted_when_replaced(s: SyncView, kernel: Seq<ChainRule>, rule: Rule)
    requires
        run::valid(s),
        secure(s, kernel),
        run::request_of(s) == RequestView::DeleteRule(rule),
        plan::ports_of(s.entries).contains(rule.port),
    ensures
        exists|other: Rule|
            other.port == rule.port && other != rule && #[trigger] kernel.contains(
                ChainRule::Accept(other),
            ),
{
    let f = run::facts(s);
    assert(plan::stale(f).contains(rule));
    plan_laws::law_replacement(f, rule);
    let other = choose|other: Rule| other != rule && #[trigger] plan::kept_for(f, other, rule.port);
    lemma_held(s, kernel, other);
}

/// A configured port to which somebody was admitted when the run listed the chain is within
/// somebody's reach in every later state of the run.
pub proof fn law_access_kept(s: SyncView, kernel: Seq<ChainRule>, rule: Rule)
    requires
        run::valid(s),
        secure(s, kernel),
        adding(s.step) || added(s.step),
        s.existing.accept.contains(rule),
        plan::ports_of(s.entries).contains(rule.port),
    ensures
        within_reach(kernel, rule.port),
{
    let f = run::facts(s);
    if adding(s.step) {
        lemma_held(s, kernel, rule);
    } else {
        plan_laws::law_admission_kept(f, rule);
        let other = choose|other: Rule| plan::kept_for(f, other, rule.port);
        lemma_held(s, kernel, other);
    }
}

/// No request of a run makes a configured port blocked for everyone.
pub proof fn law_no_lockout(s: SyncView, kernel: Seq<ChainRule>, reply: ReplyView, port: u16)
    requires
        run::valid(s),
        secure(s, kernel),
        adding(s.step) || added(s.step),
        plan::ports_of(s.entries).contains(port),
        open_to_someone(kernel, port),
    ensures
        open_to_someone(moved(s, kernel, reply), port),
{
    let after = moved(s, kernel, reply);
    if kernel.contains(ChainRule::Drop(port)) {
        lemma_reach_survives(s, kernel, reply, port);
    } else if after.contains(ChainRule::Drop(port)) {
        match run::request_of(s) {
            RequestView::AddRule(rule) | RequestView::RetryRule(rule) => {
                firewall::lemma_in_front(kernel, ChainRule::Accept(rule));
            },
            RequestView::AddDrop(blocked) => {
                firewall::lemma_at_end(kernel, ChainRule::Drop(blocked));
                law_blocked_when_admitted(s, kernel, blocked);
                lemma_reach_survives(s, kernel, reply, port);
            },
            RequestView::LiftDrop(lifted) | RequestView::DeleteDrop(lifted) => {
                firewall::lemma_removed(kernel, ChainRule::Drop(lifted));
            },
            RequestView::DeleteRule(rule) => {
                firewall::lemma_removed(kernel, ChainRule::Accept(rule));
            },
            _ => {},
        }
    }
}

/// A configured port that the chain admits somebody to is one that it admits somebody to after the
/// next request.
proof fn lemma_reach_survives(s: SyncView, kernel: Seq<ChainRule>, reply: ReplyView, port: u16)
    requires
        run::valid(s),
        secure(s, kernel),
        adding(s.step) || added(s.step),
        plan::ports_of(s.entries).contains(port),
        within_reach(kernel, port),
    ensures
        within_reach(moved(s, kernel, reply), port),
{
    let after = moved(s, kernel, reply);
    if run::succeeded(reply) {
        match run::request_of(s) {
            RequestView::AddRule(rule) | RequestView::RetryRule(rule) => {
                firewall::lemma_in_front(kernel, ChainRule::Accept(rule));
                lemma_reach_kept(kernel, after, port);
            },
            RequestView::AddDrop(blocked) => {
                firewall::lemma_at_end(kernel, ChainRule::Drop(blocked));
                lemma_reach_kept(kernel, after, port);
            },
            RequestView::LiftDrop(lifted) | RequestView::DeleteDrop(lifted) => {
                firewall::lemma_removed(kernel, ChainRule::Drop(lifted));
                lemma_reach_kept(kernel, after, port);
            },
            RequestView::DeleteRule(rule) => {
                firewall::lemma_removed(kernel, ChainRule::Accept(rule));
                if rule.port == port {
                    law_deleted_when_replaced(s, kernel, rule);
                    let other = choose|other: Rule|
                        other.port == rule.port && other != rule && #[trigger] kernel.contains(
                            ChainRule::Accept(other),
                        );
                    assert(after.contains(ChainRule::Accept(other)));
                } else {
                    let other = choose|other: Rule|
                        other.port == port && #[trigger] kernel.contains(ChainRule::Accept(other));
                    assert(after.contains(ChainRule::Accept(other)));
                }
            },
            _ => {},
        }
    }
}

proof fn lemma_reach_kept(kernel: Seq<ChainRule>, after: Seq<ChainRule>, port: u16)
    requires
        forall|rule: Rule| #[trigger]
            kernel.contains(ChainRule::Accept(rule)) ==> after.contains(ChainRule::Accept(rule)),
    ensures
        within_reach(kernel, port) ==> within_reach(after, port),
{
    if within_reach(kernel, port) {
        let rule = choose|rule: Rule|
            rule.port == port && #[trigger] kernel.contains(ChainRule::Accept(rule));
        assert(after.contains(ChainRule::Accept(rule)));
    }
}

/// A rule of an earlier release is only removed from `INPUT` when nothing is lost by it.
pub proof fn law_legacy_replaced(s: SyncView, rule: Rule)
    requires
        run::valid(s),
        run::request_of(s) == RequestView::DeleteLegacy(rule),
    ensures
        plan::replaced(run::facts(s), rule),
{
    match s.step {
        Step::DeleteLegacy(i, _) => {
            assert(s.legacy[i as int] == rule);
        },
        _ => {},
    }
}

/// A rule of an earlier release for a configured port is only removed from `INPUT` while the chain
/// admits the same address to the port, or while it admits all the addresses that the names for the
/// port give; either way it admits somebody.
pub proof fn law_legacy_when_admitted(s: SyncView, kernel: Seq<ChainRule>, rule: Rule)
    requires
        run::valid(s),
        secure(s, kernel),
        run::request_of(s) == RequestView::DeleteLegacy(rule),
        plan::ports_of(s.entries).contains(rule.port),
    ensures
        within_reach(kernel, rule.port),
        kernel.contains(ChainRule::Accept(rule)) || forall|i: int|
            0 <= i < s.entries.len() && (#[trigger] s.entries[i]).port == rule.port
                ==> s.lookups[i].ip is Some && kernel.contains(
                ChainRule::Accept(Rule { ip: s.lookups[i].ip->0, port: rule.port }),
            ),
{
    let f = run::facts(s);
    let port = rule.port;
    plan_laws::lemma_ports(s.entries, port);
    law_legacy_replaced(s, rule);
    plan_laws::law_migration(f, rule);
    assert(added(s.step));
    let kept = choose|kept: Rule| plan::kept_for(f, kept, port);
    lemma_held(s, kernel, kept);
    if plan::kept_for(f, rule, port) {
        lemma_held(s, kernel, rule);
    } else {
        assert forall|i: int|
            0 <= i < s.entries.len() && (#[trigger] s.entries[i]).port
                == port implies s.lookups[i].ip is Some && kernel.contains(
            ChainRule::Accept(Rule { ip: s.lookups[i].ip->0, port }),
        ) by {
            assert(f.entries[i].port == port);
            lemma_held(s, kernel, Rule { ip: s.lookups[i].ip->0, port });
        }
    }
}

/// Somebody is admitted to the port, by the chain or by a rule of an earlier release.
pub open spec fn somehow_in_reach(
    input: Seq<InputRule>,
    kernel: Seq<ChainRule>,
    port: u16,
) -> bool {
    within_reach(kernel, port) || exists|rule: Rule|
        rule.port == port && #[trigger] input.contains(InputRule::Legacy(rule))
}

/// `INPUT` after the request of a state was performed.
pub open spec fn input_moved(s: SyncView, input: Seq<InputRule>, reply: ReplyView) -> Seq<
    InputRule,
> {
    firewall::input_performed(input, run::request_of(s), run::succeeded(reply))
}

/// A configured port to which somebody is admitted, by the chain or by a rule of an earlier release,
/// is one to which somebody is admitted after the next request.
pub proof fn law_admission_never_lost(
    s: SyncView,
    input: Seq<InputRule>,
    kernel: Seq<ChainRule>,
    reply: ReplyView,
    port: u16,
)
    requires
        run::valid(s),
        secure(s, kernel),
        adding(s.step) || added(s.step),
        plan::ports_of(s.entries).contains(port),
        somehow_in_reach(input, kernel, port),
    ensures
        somehow_in_reach(input_moved(s, input, reply), moved(s, kernel, reply), port),
{
    if within_reach(kernel, port) {
        lemma_reach_survives(s, kernel, reply, port);
    } else {
        let after = input_moved(s, input, reply);
        let rule = choose|rule: Rule|
            rule.port == port && #[trigger] input.contains(InputRule::Legacy(rule));
        match run::request_of(s) {
            RequestView::DeleteLegacy(gone) => {
                if gone.port == port {
                    law_legacy_when_admitted(s, kernel, gone);
                } else {
                    firewall::lemma_removed(input, InputRule::Legacy(gone));
                    assert(after.contains(InputRule::Legacy(rule)));
                }
            },
            _ => {
                assert(after == input);
            },
        }
    }
}

/// What a run asks for concerns configured ports and what was found in the chain: rules are added
/// and ports blocked for configured ports only, and only what was found is taken away.
pub proof fn law_only_managed(s: SyncView)
    requires
        run::valid(s),
    ensures
        match run::request_of(s) {
            RequestView::AddRule(rule) => plan::ports_of(s.entries).contains(rule.port)
                && plan::resolved(run::facts(s), rule),
            RequestView::RetryRule(rule) => plan::ports_of(s.entries).contains(rule.port)
                && plan::resolved(run::facts(s), rule),
            RequestView::AddDrop(port) => plan::ports_of(s.entries).contains(port),
            RequestView::LiftDrop(port) => s.existing.drop.contains(port),
            RequestView::DeleteRule(rule) => s.existing.accept.contains(rule),
            RequestView::DeleteDrop(port) => s.existing.drop.contains(port) && !plan::ports_of(
                s.entries,
            ).contains(port),
            _ => true,
        },
{
    let f = run::facts(s);
    match s.step {
        Step::AddRule(i) | Step::RetryRule(i) => {
            let rule = plan::to_add(f)[i as int];
            assert(plan::to_add(f).contains(rule));
            plan_laws::lemma_to_add(f, rule);
            let k = choose|k: int| #[trigger] plan::asks_for(f, k, rule) && !f.lookups[k].present;
            assert(f.entries[k].port == rule.port);
            plan_laws::lemma_ports(f.entries, rule.port);
        },
        Step::ChangePort(i) => {
            assert(plan::changes(f).contains(plan::changes(f)[i as int]));
            match plan::changes(f)[i as int] {
                PortChange::Block(port) => plan_laws::lemma_changes(f, port),
                PortChange::Unblock(port) => plan_laws::lemma_changes(f, port),
            }
        },
        Step::DeleteRule(i) => {
            let rule = plan::stale(f)[i as int];
            assert(plan::stale(f).contains(rule));
            plan_laws::lemma_stale(f, rule);
        },
        Step::DeleteDrop(i) => {
            let port = plan::stale_ports(f)[i as int];
            assert(plan::stale_ports(f).contains(port));
            plan_laws::lemma_stale_ports(f, port);
        },
        _ => {},
    }
}

/// The command of every request that needs one: what it does, where, and with which rule. Whoever is
/// let through is put in front of the chain, and blocked ports behind all other rules.
pub proof fn law_command_lines(rule: Rule, port: u16, entry: EntryView, outcome: Outcome)
    ensures
        run::command_line(RequestView::ListChain) == Some(seq!["-S"@, "DDNS-FW"@]),
        run::command_line(RequestView::ListRules) == Some(seq!["-S"@, "DDNS-FW"@]),
        run::command_line(RequestView::ListInput) == Some(seq!["-S"@, "INPUT"@]),
        run::command_line(RequestView::CreateChain) == Some(seq!["-N"@, "DDNS-FW"@]),
        run::command_line(RequestView::CheckJump) == Some(
            seq!["-C"@, "INPUT"@] + command::jump_rule(),
        ),
        run::command_line(RequestView::AddJump) == Some(
            seq!["-I"@, "INPUT"@, "1"@] + command::jump_rule(),
        ),
        forall|request: RequestView|
            request == RequestView::CheckRule(rule) || request == RequestView::CheckPending(rule)
                ==> #[trigger] run::command_line(request) == Some(
                seq!["-C"@, "DDNS-FW"@] + command::accept_rule(rule),
            ),
        forall|request: RequestView|
            request == RequestView::AddRule(rule) || request == RequestView::RetryRule(rule)
                || request == RequestView::RestorePending(rule) ==> #[trigger] run::command_line(
                request,
            ) == Some(seq!["-I"@, "DDNS-FW"@, "1"@] + command::accept_rule(rule)),
        run::command_line(RequestView::DeleteRule(rule)) == Some(
            seq!["-D"@, "DDNS-FW"@] + command::accept_rule(rule),
        ),
        run::command_line(RequestView::DeleteLegacy(rule)) == Some(
            seq!["-D"@, "INPUT"@] + command::accept_rule(rule),
        ),
        run::command_line(RequestView::AddDrop(port)) == Some(
            seq!["-A"@, "DDNS-FW"@] + command::drop_rule(port),
        ),
        forall|request: RequestView|
            request == RequestView::LiftDrop(port) || request == RequestView::DeleteDrop(port)
                ==> #[trigger] run::command_line(request) == Some(
                seq!["-D"@, "DDNS-FW"@] + command::drop_rule(port),
            ),
        forall|request: RequestView|
            request == RequestView::LoadCache || request == RequestView::ReadConfig || request
                == RequestView::Resolve(entry) || request == RequestView::Finish(outcome)
                ==> #[trigger] run::command_line(request) is None,
{
}

/// A rule that could not be added is tried once more at once, and nothing is kept in between.
pub proof fn law_second_attempt(s: SyncView, rule: Rule, reply: ReplyView)
    requires
        run::valid(s),
        !run::succeeded(reply),
    ensures
        run::request_of(s) == RequestView::AddRule(rule) ==> run::request_of(
            run::next(s, reply).state,
        ) == RequestView::RetryRule(rule) && run::next(s, reply).saves.len() == 0
            && run::next(s, reply).state.cache == s.cache,
{
    match s.step {
        Step::AddRule(i) => {
            progress::lemma_same_facts(s, run::at(s, Step::RetryRule(i)));
        },
        _ => {},
    }
}

/// Every command that changes anything names the chain, but for two: the one that makes `INPUT` lead
/// to the chain, and the one that removes from `INPUT` a rule of an earlier release.
pub proof fn law_confined(request: RequestView)
    requires
        firewall::changing(request),
    ensures
        match (request, run::command_line(request)) {
            (RequestView::AddJump, Some(args)) => args == command::add_jump_args(),
            (RequestView::DeleteLegacy(rule), Some(args)) => args == command::delete_legacy_args(
                rule,
            ),
            (_, Some(args)) => args.len() >= 2 && args[1] == command::CHAIN_NAME@,
            (_, None) => false,
        },
{
}

// ---------------------------------------------------------------------------
// Whole runs
// ---------------------------------------------------------------------------

/// The chain that a reply leads to.
#[verifier::opaque]
pub open spec fn reached(s: SyncView, kernel: Seq<ChainRule>, reply: ReplyView) -> Seq<ChainRule> {
    moved(s, kernel, reply)
}

/// The chain after some replies, when the run began with the chain `kernel`.
pub open spec fn chain_after(kernel: Seq<ChainRule>, replies: Seq<ReplyView>) -> Seq<ChainRule>
    decreases replies.len(),
{
    if replies.len() == 0 {
        kernel
    } else {
        let before = replies.drop_last();
        reached(progress::after(before), chain_after(kernel, before), replies.last())
    }
}

/// What the replies say about the chain is true.
pub open spec fn all_honest(kernel: Seq<ChainRule>, replies: Seq<ReplyView>) -> bool
    decreases replies.len(),
{
    replies.len() == 0 || {
        let before = replies.drop_last();
        &&& all_honest(kernel, before)
        &&& honest(
            chain_after(kernel, before),
            run::request_of(progress::after(before)),
            replies.last(),
        )
    }
}

proof fn lemma_reached(s: SyncView, kernel: Seq<ChainRule>, reply: ReplyView)
    requires
        run::valid(s),
        secure(s, kernel),
        honest(kernel, run::request_of(s), reply),
    ensures
        secure(progress::reached(s, reply), reached(s, kernel, reply)),
        firewall::ordered(kernel) ==> firewall::ordered(reached(s, kernel, reply)),
{
    reveal(progress::reached);
    reveal(reached);
    law_secure_kept(s, kernel, reply);
    if firewall::ordered(kernel) {
        firewall::law_order_kept(kernel, run::request_of(s), run::succeeded(reply));
    }
}

/// Whatever fails in a run, every rule that the run relies on is in the chain, and the order of the
/// rules of the chain is kept.
pub proof fn law_run_secure(kernel: Seq<ChainRule>, replies: Seq<ReplyView>)
    requires
        all_honest(kernel, replies),
    ensures
        secure(progress::after(replies), chain_after(kernel, replies)),
        firewall::ordered(kernel) ==> firewall::ordered(chain_after(kernel, replies)),
    decreases replies.len(),
{
    if replies.len() == 0 {
        law_secure_start(kernel);
    } else {
        let before = replies.drop_last();
        law_run_secure(kernel, before);
        progress::law_always_valid(before);
        lemma_reached(progress::after(before), chain_after(kernel, before), replies.last());
    }
}

/// Whatever fails in a run: a configured port to which somebody was admitted when the run listed the
/// chain is within somebody's reach ever after.
pub proof fn law_run_access_kept(kernel: Seq<ChainRule>, replies: Seq<ReplyView>, rule: Rule)
    requires
        all_honest(kernel, replies),
        adding(progress::after(replies).step) || added(progress::after(replies).step),
        progress::after(replies).existing.accept.contains(rule),
        plan::ports_of(progress::after(replies).entries).contains(rule.port),
    ensures
        within_reach(chain_after(kernel, replies), rule.port),
{
    law_run_secure(kernel, replies);
    progress::law_always_valid(replies);
    law_access_kept(progress::after(replies), chain_after(kernel, replies), rule);
}

/// Whatever fails in a run: a configured port that is not blocked for everyone is not blocked for
/// everyone after the next reply.
pub proof fn law_run_no_lockout(
    kernel: Seq<ChainRule>,
    replies: Seq<ReplyView>,
    reply: ReplyView,
    port: u16,
)
    requires
        all_honest(kernel, replies),
        adding(progress::after(replies).step) || added(progress::after(replies).step),
        plan::ports_of(progress::after(replies).entries).contains(port),
        open_to_someone(chain_after(kernel, replies), port),
    ensures
        open_to_someone(chain_after(kernel, replies.push(reply)), port),
{
    let s = progress::after(replies);
    reveal(reached);
    law_run_secure(kernel, replies);
    progress::law_always_valid(replies);
    law_no_lockout(s, chain_after(kernel, replies), reply, port);
    assert(replies.push(reply).drop_last() =~= replies);
}

/// `INPUT` that a reply leads to.
#[verifier::opaque]
pub open spec fn input_reached(s: SyncView, input: Seq<InputRule>, reply: ReplyView) -> Seq<
    InputRule,
> {
    input_moved(s, input, reply)
}

/// `INPUT` after some replies, when it was `input` at the beginning of the run.
pub open spec fn input_after(input: Seq<InputRule>, replies: Seq<ReplyView>) -> Seq<InputRule>
    decreases replies.len(),
{
    if replies.len() == 0 {
        input
    } else {
        let before = replies.drop_last();
        input_reached(progress::after(before), input_after(input, before), replies.last())
    }
}

/// Whatever fails in a run: a configured port to which somebody is admitted, by the chain or by a
/// rule of an earlier release, is one to which somebody is admitted after the next reply.
pub proof fn law_run_admission_never_lost(
    input: Seq<InputRule>,
    kernel: Seq<ChainRule>,
    replies: Seq<ReplyView>,
    reply: ReplyView,
    port: u16,
)
    requires
        all_honest(kernel, replies),
        adding(progress::after(replies).step) || added(progress::after(replies).step),
        plan::ports_of(progress::after(replies).entries).contains(port),
        somehow_in_reach(input_after(input, replies), chain_after(kernel, replies), port),
    ensures
        somehow_in_reach(
            input_after(input, replies.push(reply)),
            chain_after(kernel, replies.push(reply)),
            port,
        ),
{
    reveal(reached);
    reveal(input_reached);
    law_run_secure(kernel, replies);
    progress::law_always_valid(replies);
    law_admission_never_lost(
        progress::after(replies),
        input_after(input, replies),
        chain_after(kernel, replies),
        reply,
        port,
    );
    assert(replies.push(reply).drop_last() =~= replies);
}

} // verus!
