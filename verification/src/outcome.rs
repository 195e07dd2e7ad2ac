//! What a run comes to, told by the configuration, the names, the chain and `INPUT` alone.

use crate::addr::Ipv4Addr;
use crate::addr::Rule;
use crate::beginning;
use crate::chain;
use crate::config;
use crate::config::EntryView;
use crate::convergence;
use crate::dns;
use crate::firewall;
use crate::firewall::ChainRule;
use crate::firewall::Verdict;
use crate::plan;
use crate::plan::Lookup;
use crate::plan_laws;
use crate::progress;
use crate::run;
use crate::run::Outcome;
use crate::run::ReplyView;
use crate::run::RequestView;
use crate::run::Step;
use crate::run::SyncView;
use crate::safety;
use vstd::prelude::*;

verus! {

/// What is outside while a run goes on: the entries that the configuration was written for, and the
/// address of every name, if it has one.
pub struct World {
    pub entries: Seq<EntryView>,
    pub names: spec_fn(Seq<char>) -> Option<Ipv4Addr>,
}

/// The configuration can be written and read: there are no more than 100 entries, and each is one that
/// its line denotes.
pub open spec fn sound(w: World) -> bool {
    w.entries.len() <= 100 && forall|i: int|
        0 <= i < w.entries.len() ==> config::storable(#[trigger] w.entries[i])
}

/// The reply gives the address, or none.
pub open spec fn tells(reply: ReplyView, found: Option<Ipv4Addr>) -> bool {
    match (reply, found) {
        (ReplyView::Response(Some(response)), Some(ip)) => dns::gives(response, ip),
        (ReplyView::Response(Some(response)), None) => forall|ip: Ipv4Addr| !dns::gives(response, ip),
        (_, Some(_)) => false,
        (_, None) => true,
    }
}

/// What is replied about the configuration and about names is as it is outside. Nothing is expected of
/// commands.
pub open spec fn informed(w: World, request: RequestView, reply: ReplyView) -> bool {
    match request {
        RequestView::ReadConfig => reply == ReplyView::Config(Some(config::config_text(w.entries))),
        RequestView::Resolve(entry) => tells(reply, (w.names)(entry.hostname)),
        _ => true,
    }
}

/// Every reply about the configuration and about names is as it is outside.
pub open spec fn all_informed(w: World, replies: Seq<ReplyView>) -> bool
    decreases replies.len(),
{
    replies.len() == 0 || {
        let before = replies.drop_last();
        &&& all_informed(w, before)
        &&& informed(w, run::request_of(progress::after(before)), replies.last())
    }
}

/// An entry gives the address for the port.
pub open spec fn named(w: World, rule: Rule) -> bool {
    exists|i: int|
        0 <= i < w.entries.len() && (#[trigger] w.entries[i]).port == rule.port && (w.names)(
            w.entries[i].hostname,
        ) == Some(rule.ip)
}

/// An entry for the port has a name without an address.
pub open spec fn silent(w: World, port: u16) -> bool {
    exists|i: int|
        0 <= i < w.entries.len() && (#[trigger] w.entries[i]).port == port && (w.names)(
            w.entries[i].hostname,
        ) is None
}

/// An entry is for the port.
pub open spec fn configured(w: World, port: u16) -> bool {
    exists|i: int| 0 <= i < w.entries.len() && (#[trigger] w.entries[i]).port == port
}

// ---------------------------------------------------------------------------
// What a run goes by
// ---------------------------------------------------------------------------

/// The run goes by all the entries, and found the addresses that there are.
pub open spec fn knows(w: World, s: SyncView) -> bool {
    &&& s.entries == w.entries
    &&& s.lookups.len() <= w.entries.len()
    &&& forall|i: int|
        0 <= i < s.lookups.len() ==> (#[trigger] s.lookups[i]).ip == (w.names)(
            w.entries[i].hostname,
        )
}

/// What a run goes by at each step.
pub open spec fn goes_by(w: World, s: SyncView) -> bool {
    &&& s.step is ListRules ==> s.entries == w.entries
    &&& safety::adding(s.step) || safety::added(s.step) ==> knows(w, s)
    &&& match s.step {
        Step::CheckRule(i, ip) => (w.names)(w.entries[i as int].hostname) == Some(ip),
        Step::ListInput(full) => full || w.entries.len() == 0,
        Step::DeleteLegacy(_, full) => full || w.entries.len() == 0,
        Step::Finished(Outcome::NoEntries) => w.entries.len() == 0,
        _ => true,
    }
}

proof fn lemma_tells(reply: ReplyView, found: Option<Ipv4Addr>)
    requires
        tells(reply, found),
    ensures
        run::address_in(reply) == found,
{
    match reply {
        ReplyView::Response(Some(response)) => {
            match found {
                Some(ip) => dns::law_address(response, ip),
                None => {
                    if let Some(ip) = dns::address_in(response) {
                        dns::law_address(response, ip);
                    }
                },
            }
        },
        _ => {},
    }
}

/// Once the chain was listed, the entries and what was found stay.
#[verifier::rlimit(40)]
proof fn lemma_stays(s: SyncView, reply: ReplyView)
    requires
        safety::adding(s.step) || safety::added(s.step),
    ensures
        run::next(s, reply).state.entries == s.entries,
        run::next(s, reply).state.existing == s.existing,
        !(s.step is Resolve) && !(s.step is CheckRule) ==> run::next(s, reply).state.lookups
            == s.lookups,
{
}

/// The configuration is read.
proof fn lemma_goes_config(w: World, s: SyncView, reply: ReplyView)
    requires
        sound(w),
        s.step is ReadConfig,
        informed(w, run::request_of(s), reply),
    ensures
        goes_by(w, run::next(s, reply).state),
{
    config::law_config_round_trip(w.entries);
}

proof fn lemma_goes_looked_up(w: World, s: SyncView, lookup: Lookup)
    requires
        s.entries == w.entries,
        s.lookups.len() < w.entries.len(),
        knows(w, s),
        lookup.ip == (w.names)(w.entries[s.lookups.len() as int].hostname),
    ensures
        goes_by(w, run::looked_up(s, s.lookups.len() as int, lookup).state),
{
    let t = SyncView { lookups: s.lookups.push(lookup), ..s };
    let u = run::looked_up(s, s.lookups.len() as int, lookup).state;
    assert(u.entries == t.entries && u.lookups == t.lookups);
    assert forall|i: int| 0 <= i < t.lookups.len() implies (#[trigger] t.lookups[i]).ip == (
    w.names)(w.entries[i].hostname) by {
        if i < s.lookups.len() {
            assert(t.lookups[i] == s.lookups[i]);
        }
    }
}

/// An entry is looked up.
#[verifier::rlimit(40)]
proof fn lemma_goes_lookup(w: World, s: SyncView, reply: ReplyView)
    requires
        run::valid(s),
        goes_by(w, s),
        s.step is Resolve || s.step is CheckRule,
        informed(w, run::request_of(s), reply),
    ensures
        goes_by(w, run::next(s, reply).state),
{
    let i = s.lookups.len() as int;
    match s.step {
        Step::Resolve(_) => {
            lemma_tells(reply, (w.names)(w.entries[i].hostname));
            match run::address_in(reply) {
                None => lemma_goes_looked_up(w, s, Lookup { ip: None, present: false }),
                Some(ip) => lemma_goes_looked_up(w, s, Lookup { ip: Some(ip), present: true }),
            }
        },
        Step::CheckRule(_, ip) => {
            lemma_goes_looked_up(
                w,
                s,
                Lookup { ip: Some(ip), present: run::succeeded(reply) },
            );
        },
        _ => {},
    }
}

#[verifier::rlimit(60)]
proof fn lemma_goes_later(w: World, s: SyncView, reply: ReplyView)
    requires
        run::valid(s),
        goes_by(w, s),
        !(s.step is Resolve),
        !(s.step is CheckRule),
        !(s.step is ReadConfig),
    ensures
        goes_by(w, run::next(s, reply).state),
{
    if safety::adding(s.step) || safety::added(s.step) {
        lemma_stays(s, reply);
    }
}

proof fn lemma_goes_by(w: World, s: SyncView, reply: ReplyView)
    requires
        sound(w),
        run::valid(s),
        goes_by(w, s),
        informed(w, run::request_of(s), reply),
    ensures
        goes_by(w, progress::reached(s, reply)),
{
    reveal(progress::reached);
    match s.step {
        Step::ReadConfig => lemma_goes_config(w, s, reply),
        Step::Resolve(_) | Step::CheckRule(_, _) => lemma_goes_lookup(w, s, reply),
        _ => lemma_goes_later(w, s, reply),
    }
}

/// Whatever fails in a run: from the listing of the chain on it goes by exactly the entries that the
/// configuration was written for, all of them and in their order, and by the addresses that their names
/// have.
pub proof fn law_run_informed(w: World, replies: Seq<ReplyView>)
    requires
        sound(w),
        all_informed(w, replies),
    ensures
        goes_by(w, progress::after(replies)),
    decreases replies.len(),
{
    if replies.len() > 0 {
        let before = replies.drop_last();
        law_run_informed(w, before);
        progress::law_always_valid(before);
        lemma_goes_by(w, progress::after(before), replies.last());
    }
}

/// With nothing configured, a run goes by no entries and does not come to list the chain.
pub open spec fn unconfigured(s: SyncView) -> bool {
    s.entries.len() == 0 && !(s.step is ListRules) && !safety::adding(s.step) && !safety::added(
        s.step,
    )
}

#[verifier::rlimit(60)]
proof fn lemma_unconfigured(w: World, s: SyncView, reply: ReplyView)
    requires
        w.entries.len() == 0,
        unconfigured(s),
        informed(w, run::request_of(s), reply),
    ensures
        unconfigured(progress::reached(s, reply)),
{
    reveal(progress::reached);
    config::law_config_round_trip(w.entries);
}

/// With nothing configured, every state of a run is such a state.
pub proof fn lemma_run_unconfigured(w: World, replies: Seq<ReplyView>)
    requires
        w.entries.len() == 0,
        all_informed(w, replies),
    ensures
        unconfigured(progress::after(replies)),
    decreases replies.len(),
{
    if replies.len() > 0 {
        lemma_run_unconfigured(w, replies.drop_last());
        lemma_unconfigured(w, progress::after(replies.drop_last()), replies.last());
    }
}

// ---------------------------------------------------------------------------
// The chain as it was listed
// ---------------------------------------------------------------------------

/// The chain at the time of the last request for its rules.
pub open spec fn chain_listed(kernel: Seq<ChainRule>, replies: Seq<ReplyView>) -> Seq<ChainRule>
    decreases replies.len(),
{
    if replies.len() == 0 {
        kernel
    } else {
        let before = replies.drop_last();
        if progress::after(before).step is ListRules {
            safety::chain_after(kernel, before)
        } else {
            chain_listed(kernel, before)
        }
    }
}

/// Every listing of the rules of the chain shows exactly what the chain lets through and blocks.
pub open spec fn all_shown(kernel: Seq<ChainRule>, replies: Seq<ReplyView>) -> bool
    decreases replies.len(),
{
    replies.len() == 0 || {
        let before = replies.drop_last();
        &&& all_shown(kernel, before)
        &&& progress::after(before).step is ListRules ==> match run::listing_in(replies.last()) {
            Some(output) => firewall::shows_whole(output, safety::chain_after(kernel, before)),
            None => true,
        }
    }
}

/// What the run takes to have been in the chain was there when it was listed.
pub open spec fn remembers(s: SyncView, listed: Seq<ChainRule>) -> bool {
    safety::adding(s.step) || safety::added(s.step) ==> {
        &&& forall|rule: Rule| #[trigger]
            s.existing.accept.contains(rule) <==> listed.contains(ChainRule::Accept(rule))
        &&& forall|port: u16| #[trigger]
            s.existing.drop.contains(port) <==> listed.contains(ChainRule::Drop(port))
    }
}

#[verifier::rlimit(40)]
proof fn lemma_remembers_listing(s: SyncView, kernel: Seq<ChainRule>, reply: ReplyView)
    requires
        s.step is ListRules,
        match run::listing_in(reply) {
            Some(output) => firewall::shows_whole(output, kernel),
            None => true,
        },
    ensures
        remembers(run::next(s, reply).state, kernel),
{
    if let Some(output) = run::listing_in(reply) {
        assert(run::next(s, reply).state.existing == chain::chain_of(Some(output)));
    }
}

#[verifier::rlimit(40)]
proof fn lemma_remembers(s: SyncView, listed: Seq<ChainRule>, reply: ReplyView)
    requires
        run::valid(s),
        remembers(s, listed),
        !(s.step is ListRules),
    ensures
        remembers(progress::reached(s, reply), listed),
{
    reveal(progress::reached);
    if safety::adding(s.step) || safety::added(s.step) {
        lemma_stays(s, reply);
    } else {
        lemma_not_yet(s, reply);
    }
}

/// Only the listing of the chain leads on to the lookups.
#[verifier::rlimit(60)]
proof fn lemma_not_yet(s: SyncView, reply: ReplyView)
    requires
        !safety::adding(s.step),
        !safety::added(s.step),
        !(s.step is ListRules),
    ensures
        !safety::adding(run::next(s, reply).state.step),
        !safety::added(run::next(s, reply).state.step),
{
}

proof fn lemma_run_remembers(kernel: Seq<ChainRule>, replies: Seq<ReplyView>)
    requires
        all_shown(kernel, replies),
    ensures
        remembers(progress::after(replies), chain_listed(kernel, replies)),
    decreases replies.len(),
{
    if replies.len() > 0 {
        let before = replies.drop_last();
        let s = progress::after(before);
        lemma_run_remembers(kernel, before);
        progress::law_always_valid(before);
        if s.step is ListRules {
            reveal(progress::reached);
            lemma_remembers_listing(s, safety::chain_after(kernel, before), replies.last());
        } else {
            lemma_remembers(s, chain_listed(kernel, before), replies.last());
        }
    }
}

// ---------------------------------------------------------------------------
// When no command fails
// ---------------------------------------------------------------------------

/// When no command fails and the configuration is read, a run ends complete, or with nothing
/// configured.
#[verifier::rlimit(60)]
proof fn lemma_ends_well(w: World, s: SyncView, kernel: Seq<ChainRule>, reply: ReplyView)
    requires
        s.step matches Step::Finished(o) ==> o == Outcome::Complete || o == Outcome::NoEntries,
        convergence::faithful(kernel, run::request_of(s), reply),
        informed(w, run::request_of(s), reply),
    ensures
        progress::reached(s, reply).step matches Step::Finished(o) ==> o == Outcome::Complete || o
            == Outcome::NoEntries,
{
    reveal(progress::reached);
}

pub proof fn lemma_run_ends_well(w: World, kernel: Seq<ChainRule>, replies: Seq<ReplyView>)
    requires
        convergence::all_faithful(kernel, replies),
        all_informed(w, replies),
    ensures
        progress::after(replies).step matches Step::Finished(o) ==> o == Outcome::Complete || o
            == Outcome::NoEntries,
        all_shown(kernel, replies),
    decreases replies.len(),
{
    if replies.len() > 0 {
        let before = replies.drop_last();
        lemma_run_ends_well(w, kernel, before);
        lemma_ends_well(
            w,
            progress::after(before),
            safety::chain_after(kernel, before),
            replies.last(),
        );
    }
}

/// What the decisions speak of, told by what is outside.
pub proof fn lemma_told(w: World, s: SyncView, rule: Rule)
    requires
        knows(w, s),
        plan::complete(run::facts(s)),
    ensures
        plan::resolved(run::facts(s), rule) <==> named(w, rule),
        plan::unresolved(run::facts(s), rule.port) <==> silent(w, rule.port),
        plan::ports_of(s.entries).contains(rule.port) <==> configured(w, rule.port),
{
    let f = run::facts(s);
    let port = rule.port;
    plan_laws::lemma_ports(s.entries, port);
    if plan::resolved(f, rule) {
        let i = choose|i: int| plan::asks_for(f, i, rule);
        assert(s.lookups[i].ip == (w.names)(w.entries[i].hostname));
        assert(w.entries[i].port == port);
    }
    if named(w, rule) {
        let i = choose|i: int|
            0 <= i < w.entries.len() && (#[trigger] w.entries[i]).port == port && (w.names)(
                w.entries[i].hostname,
            ) == Some(rule.ip);
        assert(s.lookups[i].ip == (w.names)(w.entries[i].hostname));
        assert(plan::asks_for(f, i, rule));
    }
    if plan::unresolved(f, port) {
        let i = choose|i: int| plan::unresolved_at(f, i, port);
        assert(s.lookups[i].ip == (w.names)(w.entries[i].hostname));
        assert(w.entries[i].port == port);
    }
    if silent(w, port) {
        let i = choose|i: int|
            0 <= i < w.entries.len() && (#[trigger] w.entries[i]).port == port && (w.names)(
                w.entries[i].hostname,
            ) is None;
        assert(s.lookups[i].ip == (w.names)(w.entries[i].hostname));
        assert(plan::unresolved_at(f, i, port));
    }
}

/// No rule was refused.
pub proof fn lemma_unrefused(s: SyncView, port: u16)
    requires
        convergence::unrefused(run::facts(s)),
    ensures
        !plan::refused(run::facts(s), port),
{
    if plan::refused(run::facts(s), port) {
        let k = choose|k: int| plan::refused_at(run::facts(s), k, port);
        assert(run::facts(s).added[k]);
    }
}

/// The chain that a run is to leave: it admits the addresses that the entries give for their ports, and
/// for a port with a name without an address also whoever was admitted when the chain was listed; and
/// it blocks the configured ports to which somebody is admitted.
pub open spec fn as_configured(
    w: World,
    listed: Seq<ChainRule>,
    kernel: Seq<ChainRule>,
) -> bool {
    &&& forall|rule: Rule| #[trigger]
        kernel.contains(ChainRule::Accept(rule)) <==> named(w, rule) || (listed.contains(
            ChainRule::Accept(rule),
        ) && silent(w, rule.port))
    &&& forall|port: u16| #[trigger]
        kernel.contains(ChainRule::Drop(port)) <==> configured(w, port) && safety::within_reach(
            kernel,
            port,
        )
}

proof fn lemma_as_configured(
    w: World,
    s: SyncView,
    listed: Seq<ChainRule>,
    kernel: Seq<ChainRule>,
)
    requires
        knows(w, s),
        s.step == Step::Finished(Outcome::Complete),
        remembers(s, listed),
        plan::complete(run::facts(s)),
        convergence::unrefused(run::facts(s)),
        convergence::settled(run::facts(s), kernel),
    ensures
        as_configured(w, listed, kernel),
{
    let f = run::facts(s);
    assert forall|rule: Rule| #[trigger] kernel.contains(ChainRule::Accept(rule)) <==> named(
        w,
        rule,
    ) || (listed.contains(ChainRule::Accept(rule)) && silent(w, rule.port)) by {
        lemma_told(w, s, rule);
        lemma_unrefused(s, rule.port);
        assert(s.existing.accept.contains(rule) <==> listed.contains(ChainRule::Accept(rule)));
    }
    assert forall|port: u16| #[trigger] kernel.contains(ChainRule::Drop(port)) <==> configured(
        w,
        port,
    ) && safety::within_reach(kernel, port) by {
        lemma_told(w, s, Rule { ip: arbitrary(), port });
        if plan::wanted(f, port) {
            let rule = choose|rule: Rule| plan::wanted_for(f, rule, port);
            assert(kernel.contains(ChainRule::Accept(rule)));
        }
        if safety::within_reach(kernel, port) {
            let rule = choose|rule: Rule|
                rule.port == port && #[trigger] kernel.contains(ChainRule::Accept(rule));
            assert(plan::wanted_for(f, rule, port));
        }
    }
}

/// A run in which no command fails, for a configuration that was written for some entries, comes to
/// its end complete, and then the chain is as the entries and their names ask for.
pub proof fn law_run_outcome(w: World, kernel: Seq<ChainRule>, replies: Seq<ReplyView>)
    requires
        sound(w),
        w.entries.len() > 0,
        kernel.no_duplicates(),
        convergence::all_faithful(kernel, replies),
        all_informed(w, replies),
        replies.len() >= progress::MAX_REQUESTS || progress::after(replies).step is Finished,
    ensures
        progress::after(replies).step == Step::Finished(Outcome::Complete),
        as_configured(
            w,
            chain_listed(kernel, replies),
            safety::chain_after(kernel, replies),
        ),
{
    let s = progress::after(replies);
    if replies.len() >= progress::MAX_REQUESTS {
        progress::law_termination(replies);
    }
    law_run_informed(w, replies);
    lemma_run_ends_well(w, kernel, replies);
    lemma_run_remembers(kernel, replies);
    convergence::law_run_converges(kernel, replies);
    lemma_as_configured(
        w,
        s,
        chain_listed(kernel, replies),
        safety::chain_after(kernel, replies),
    );
}

/// A run in which no command fails and every name has an address, for a configuration that was written
/// for some entries, locks each configured port down: exactly the addresses that the entries for the
/// port give get through to it, and everyone else is blocked. Ports that are not configured are not
/// affected.
pub proof fn law_configuration_enforced(
    w: World,
    kernel: Seq<ChainRule>,
    replies: Seq<ReplyView>,
    ip: Ipv4Addr,
    port: u16,
)
    requires
        sound(w),
        w.entries.len() > 0,
        forall|i: int|
            0 <= i < w.entries.len() ==> (w.names)((#[trigger] w.entries[i]).hostname) is Some,
        kernel.no_duplicates(),
        firewall::ordered(kernel),
        convergence::all_faithful(kernel, replies),
        all_informed(w, replies),
        replies.len() >= progress::MAX_REQUESTS || progress::after(replies).step is Finished,
    ensures
        firewall::verdict(safety::chain_after(kernel, replies), ip, port) == if !configured(
            w,
            port,
        ) {
            Verdict::Passed
        } else if named(w, Rule { ip, port }) {
            Verdict::Accepted
        } else {
            Verdict::Blocked
        },
{
    let end = safety::chain_after(kernel, replies);
    let rule = Rule { ip, port };
    law_run_outcome(w, kernel, replies);
    convergence::law_run_converges(kernel, replies);
    firewall::law_verdict(end, ip, port);
    assert(end.contains(ChainRule::Accept(rule)) <==> named(w, rule) || (chain_listed(
        kernel,
        replies,
    ).contains(ChainRule::Accept(rule)) && silent(w, port)));
    if configured(w, port) {
        let i = choose|i: int| 0 <= i < w.entries.len() && (#[trigger] w.entries[i]).port == port;
        let other = Rule { ip: (w.names)(w.entries[i].hostname)->0, port };
        assert(named(w, other));
        assert(end.contains(ChainRule::Accept(other)));
    }
}

// ---------------------------------------------------------------------------
// When commands fail
// ---------------------------------------------------------------------------

/// Whatever commands fail: while a name for a port has no address, whoever was admitted to the port
/// when the chain was listed stays admitted.
pub proof fn law_silent_name_keeps(
    w: World,
    kernel: Seq<ChainRule>,
    replies: Seq<ReplyView>,
    rule: Rule,
)
    requires
        sound(w),
        safety::all_honest(kernel, replies),
        all_informed(w, replies),
        all_shown(kernel, replies),
        safety::adding(progress::after(replies).step) || safety::added(
            progress::after(replies).step,
        ),
        chain_listed(kernel, replies).contains(ChainRule::Accept(rule)),
        silent(w, rule.port),
    ensures
        safety::chain_after(kernel, replies).contains(ChainRule::Accept(rule)),
{
    let s = progress::after(replies);
    safety::law_run_secure(kernel, replies);
    law_run_informed(w, replies);
    lemma_run_remembers(kernel, replies);
    assert(s.existing.accept.contains(rule));
    if safety::added(s.step) {
        lemma_told(w, s, rule);
    }
    safety::lemma_held(s, safety::chain_after(kernel, replies), rule);
}

/// Whatever commands fail: when a run is through with its additions and the chain still lacks a rule
/// that an entry asks for, whoever was admitted to the port when the chain was listed stays admitted.
pub proof fn law_refused_rule_keeps(
    w: World,
    kernel: Seq<ChainRule>,
    replies: Seq<ReplyView>,
    wanted: Rule,
    rule: Rule,
)
    requires
        sound(w),
        safety::all_honest(kernel, replies),
        all_informed(w, replies),
        all_shown(kernel, replies),
        safety::added(progress::after(replies).step),
        named(w, wanted),
        !safety::chain_after(kernel, replies).contains(ChainRule::Accept(wanted)),
        wanted.port == rule.port,
        chain_listed(kernel, replies).contains(ChainRule::Accept(rule)),
    ensures
        safety::chain_after(kernel, replies).contains(ChainRule::Accept(rule)),
{
    let s = progress::after(replies);
    let f = run::facts(s);
    let end = safety::chain_after(kernel, replies);
    safety::law_run_secure(kernel, replies);
    law_run_informed(w, replies);
    lemma_run_remembers(kernel, replies);
    assert(s.existing.accept.contains(rule));
    lemma_told(w, s, wanted);
    let i = choose|i: int| plan::asks_for(f, i, wanted);
    if !plan::refused(f, wanted.port) {
        plan_laws::lemma_resolved_kept(f, i);
        safety::lemma_held(s, end, wanted);
    }
    safety::lemma_held(s, end, rule);
}

/// Whatever commands fail: a configured port to which somebody was admitted when the chain was listed
/// is one to which somebody is admitted ever after.
pub proof fn law_configured_access_kept(
    w: World,
    kernel: Seq<ChainRule>,
    replies: Seq<ReplyView>,
    rule: Rule,
)
    requires
        sound(w),
        safety::all_honest(kernel, replies),
        all_informed(w, replies),
        all_shown(kernel, replies),
        safety::adding(progress::after(replies).step) || safety::added(
            progress::after(replies).step,
        ),
        chain_listed(kernel, replies).contains(ChainRule::Accept(rule)),
        configured(w, rule.port),
    ensures
        safety::within_reach(safety::chain_after(kernel, replies), rule.port),
{
    let s = progress::after(replies);
    law_run_informed(w, replies);
    lemma_run_remembers(kernel, replies);
    assert(s.existing.accept.contains(rule));
    plan_laws::lemma_ports(s.entries, rule.port);
    safety::law_run_access_kept(kernel, replies, rule);
}

// ---------------------------------------------------------------------------
// Only what is missing is added
// ---------------------------------------------------------------------------

/// Reply `i` said that the rule is not in force.
pub open spec fn found_missing(replies: Seq<ReplyView>, i: int, rule: Rule) -> bool {
    0 <= i < replies.len() && beginning::asked(replies, i) == RequestView::CheckRule(rule)
        && replies[i] != ReplyView::Status(true)
}

/// What the run takes to be missing was found to be missing.
#[verifier::opaque]
pub open spec fn checked(s: SyncView, replies: Seq<ReplyView>) -> bool {
    forall|j: int|
        0 <= j < s.lookups.len() && (#[trigger] s.lookups[j]).ip is Some && !s.lookups[j].present
            ==> exists|i: int|
            found_missing(replies, i, Rule { ip: s.lookups[j].ip->0, port: s.entries[j].port })
}

proof fn lemma_lookup_noted(s: SyncView, i: int, lookup: Lookup)
    ensures
        run::looked_up(s, i, lookup).state.entries == s.entries,
        run::looked_up(s, i, lookup).state.lookups == s.lookups.push(lookup),
{
}

/// What a reply adds to what was found out.
proof fn lemma_lookups(s: SyncView, reply: ReplyView)
    requires
        run::valid(s),
    ensures
        ({
            let t = progress::reached(s, reply);
            ||| t.lookups == s.lookups && (t.entries == s.entries || s.lookups.len() == 0)
            ||| {
                &&& t.entries == s.entries
                &&& t.lookups.len() == s.lookups.len() + 1
                &&& t.lookups.drop_last() == s.lookups
                &&& t.lookups.last().ip is None || t.lookups.last().present || (reply
                    != ReplyView::Status(true) && run::request_of(s) == RequestView::CheckRule(
                    Rule { ip: t.lookups.last().ip->0, port: s.entries[s.lookups.len() as int].port },
                ))
            }
        }),
{
    reveal(progress::reached);
    match s.step {
        Step::Resolve(i) => {
            match run::address_in(reply) {
                None => {
                    let lookup = Lookup { ip: None, present: false };
                    lemma_lookup_noted(s, i as int, lookup);
                    assert(s.lookups.push(lookup).drop_last() =~= s.lookups);
                },
                Some(ip) => {
                    let lookup = Lookup { ip: Some(ip), present: true };
                    lemma_lookup_noted(s, i as int, lookup);
                    assert(s.lookups.push(lookup).drop_last() =~= s.lookups);
                },
            }
        },
        Step::CheckRule(i, ip) => {
            let lookup = Lookup { ip: Some(ip), present: run::succeeded(reply) };
            lemma_lookup_noted(s, i as int, lookup);
            assert(s.lookups.push(lookup).drop_last() =~= s.lookups);
        },
        _ => {
            if safety::adding(s.step) || safety::added(s.step) {
                lemma_stays(s, reply);
            } else {
                lemma_unlisted(s, reply);
            }
        },
    }
}

proof fn lemma_unlisted(s: SyncView, reply: ReplyView)
    requires
        run::valid(s),
        !safety::adding(s.step),
        !safety::added(s.step),
    ensures
        run::next(s, reply).state.lookups == s.lookups,
        run::next(s, reply).state.entries == s.entries || s.lookups.len() == 0,
{
}

proof fn lemma_checked(replies: Seq<ReplyView>)
    ensures
        checked(progress::after(replies), replies),
    decreases replies.len(),
{
    reveal(checked);
    if replies.len() > 0 {
        let before = replies.drop_last();
        let last = replies.len() - 1;
        let s = progress::after(before);
        let t = progress::after(replies);
        lemma_checked(before);
        progress::law_always_valid(before);
        lemma_lookups(s, replies.last());
        assert(replies.take(last) =~= before);
        assert forall|j: int|
            0 <= j < t.lookups.len() && (#[trigger] t.lookups[j]).ip is Some
                && !t.lookups[j].present implies exists|i: int|
            found_missing(replies, i, Rule { ip: t.lookups[j].ip->0, port: t.entries[j].port }) by {
            let rule = Rule { ip: t.lookups[j].ip->0, port: t.entries[j].port };
            if j < s.lookups.len() {
                assert(t.lookups[j] == s.lookups[j]) by {
                    if t.lookups.len() > s.lookups.len() {
                        assert(t.lookups.drop_last()[j] == t.lookups[j]);
                    }
                }
                let i = choose|i: int| found_missing(before, i, rule);
                assert(before.take(i) =~= replies.take(i));
                assert(found_missing(replies, i, rule));
            } else {
                assert(found_missing(replies, last, rule));
            }
        }
    }
}

/// A rule is added only when the run has asked whether it is in force and was told that it is not.
pub proof fn law_added_when_missing(replies: Seq<ReplyView>, rule: Rule)
    requires
        run::request_of(progress::after(replies)) == RequestView::AddRule(rule) || run::request_of(
            progress::after(replies),
        ) == RequestView::RetryRule(rule),
    ensures
        exists|i: int| found_missing(replies, i, rule),
{
    let s = progress::after(replies);
    let f = run::facts(s);
    progress::law_always_valid(replies);
    lemma_checked(replies);
    reveal(checked);
    plan_laws::lemma_to_add(f, rule);
    assert(plan::to_add(f).contains(rule));
    let j = choose|j: int| #[trigger] plan::asks_for(f, j, rule) && !f.lookups[j].present;
    assert(s.lookups[j].ip == Some(rule.ip));
    assert(s.entries[j].port == rule.port);
}

} // verus!
