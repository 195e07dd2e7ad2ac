//! When no command fails, a run leaves the chain as the names ask for it, and a second one leaves
//! it alone.

use crate::addr::Ipv4Addr;
use crate::addr::Rule;
use crate::cache;
use crate::cache::CacheView;
use crate::chain;
use crate::config;
use crate::firewall;
use crate::firewall::ChainRule;
use crate::firewall::Verdict;
use crate::lists;
use crate::plan;
use crate::plan::Findings;
use crate::plan::Lookup;
use crate::plan::PortChange;
use crate::plan_laws;
use crate::progress;
use crate::run;
use crate::run::Outcome;
use crate::run::ReplyView;
use crate::run::RequestView;
use crate::run::Step;
use crate::run::SyncView;
use crate::safety;
use vstd::prelude::*;

verus! {

/// No command fails and every reply about the chain is true. What is read from a listing is exactly
/// what the chain lets through and blocks, whatever else the listing holds. Nothing is expected of
/// names and files.
pub open spec fn faithful(kernel: Seq<ChainRule>, request: RequestView, reply: ReplyView) -> bool {
    &&& firewall::changing(request) ==> reply == ReplyView::Status(true)
    &&& match request {
        RequestView::ListRules => match run::listing_in(reply) {
            Some(output) => firewall::shows_whole(output, kernel),
            None => false,
        },
        RequestView::CheckRule(rule) => reply == ReplyView::Status(
            kernel.contains(ChainRule::Accept(rule)),
        ),
        RequestView::CheckPending(rule) => reply == ReplyView::Status(
            kernel.contains(ChainRule::Accept(rule)),
        ),
        _ => true,
    }
}

/// How much of what was decided is done.
pub struct Done {
    pub adds: int,
    pub changes: int,
    pub deletes: int,
    pub lifts: int,
}

/// Everything that was decided is done.
pub open spec fn all_done(f: Findings) -> Done {
    Done {
        adds: plan::to_add(f).len() as int,
        changes: plan::changes(f).len() as int,
        deletes: plan::stale(f).len() as int,
        lifts: plan::stale_ports(f).len() as int,
    }
}

/// How much of what was decided is done at a step.
pub open spec fn done_at(f: Findings, step: Step) -> Done {
    match step {
        Step::Resolve(_) => Done { adds: 0, changes: 0, deletes: 0, lifts: 0 },
        Step::CheckRule(_, _) => Done { adds: 0, changes: 0, deletes: 0, lifts: 0 },
        Step::AddRule(i) => Done { adds: i as int, changes: 0, deletes: 0, lifts: 0 },
        Step::RetryRule(i) => Done { adds: i as int, changes: 0, deletes: 0, lifts: 0 },
        Step::ChangePort(i) => Done { changes: i as int, deletes: 0, lifts: 0, ..all_done(f) },
        Step::DeleteRule(i) => Done { deletes: i as int, lifts: 0, ..all_done(f) },
        Step::DeleteDrop(i) => Done { lifts: i as int, ..all_done(f) },
        _ => all_done(f),
    }
}

/// The rule is in force when so much is done.
pub open spec fn admits(f: Findings, done: Done, rule: Rule) -> bool {
    &&& f.existing.accept.contains(rule) || plan::to_add(f).take(done.adds).contains(rule)
    &&& !plan::stale(f).take(done.deletes).contains(rule)
}

/// The port is blocked when so much is done.
pub open spec fn blocks(f: Findings, done: Done, port: u16) -> bool {
    let changed = plan::changes(f).take(done.changes);
    &&& f.existing.drop.contains(port) && !changed.contains(PortChange::Unblock(port))
        || changed.contains(PortChange::Block(port))
    &&& !plan::stale_ports(f).take(done.lifts).contains(port)
}

/// What was found out about the entries is true of the chain as it was found.
pub open spec fn accurate(f: Findings) -> bool {
    forall|i: int|
        0 <= i < f.lookups.len() && i < f.entries.len() && (#[trigger] f.lookups[i]).ip is Some
            ==> f.lookups[i].present == f.existing.accept.contains(
            Rule { ip: f.lookups[i].ip->0, port: f.entries[i].port },
        )
}

/// No rule was refused.
pub open spec fn unrefused(f: Findings) -> bool {
    forall|k: int| 0 <= k < f.added.len() ==> #[trigger] f.added[k]
}

/// The chain is as it was found, but for what is done.
#[verifier::opaque]
pub open spec fn follows(f: Findings, done: Done, kernel: Seq<ChainRule>) -> bool {
    &&& accurate(f)
    &&& unrefused(f)
    &&& forall|rule: Rule| #[trigger]
        kernel.contains(ChainRule::Accept(rule)) <==> admits(f, done, rule)
    &&& forall|port: u16| #[trigger]
        kernel.contains(ChainRule::Drop(port)) <==> blocks(f, done, port)
}

/// The run knows the chain: it holds no rule twice, and from its listing on it is as it was found,
/// but for what is done.
pub open spec fn tracks(s: SyncView, kernel: Seq<ChainRule>) -> bool {
    &&& kernel.no_duplicates()
    &&& match s.step {
        Step::RestorePending(rule) => !kernel.contains(ChainRule::Accept(rule)),
        _ => true,
    }
    &&& safety::adding(s.step) || safety::added(s.step) ==> follows(
        run::facts(s),
        done_at(run::facts(s), s.step),
        kernel,
    )
}

// ---------------------------------------------------------------------------
// The effect of a request
// ---------------------------------------------------------------------------

/// One more rule is added.
proof fn lemma_follows_add(f: Findings, g: Findings, i: int, kernel: Seq<ChainRule>)
    requires
        f.lookups.len() == f.entries.len(),
        0 <= i < plan::to_add(f).len(),
        f.added.len() == i,
        g == (Findings { added: f.added.push(true), ..f }),
        kernel.no_duplicates(),
        follows(f, Done { adds: i, changes: 0, deletes: 0, lifts: 0 }, kernel),
    ensures
        (seq![ChainRule::Accept(plan::to_add(f)[i])] + kernel).no_duplicates(),
        follows(
            g,
            Done { adds: i + 1, changes: 0, deletes: 0, lifts: 0 },
            seq![ChainRule::Accept(plan::to_add(f)[i])] + kernel,
        ),
{
    reveal(follows);
    let rule = plan::to_add(f)[i];
    plan::lemma_to_add_early(f, g);
    plan_laws::lemma_to_add(f, rule);
    lists::lemma_take_more(plan::to_add(f), i);
    assert(plan::to_add(f).contains(rule));
    let j = choose|j: int| #[trigger] plan::asks_for(f, j, rule) && !f.lookups[j].present;
    assert(!f.existing.accept.contains(rule));
    assert(!admits(f, Done { adds: i, changes: 0, deletes: 0, lifts: 0 }, rule));
    firewall::lemma_in_front(kernel, ChainRule::Accept(rule));
}

/// The changes of blocking are decided once for each port.
proof fn lemma_changes_distinct(f: Findings)
    ensures
        plan::changes(f).no_duplicates(),
{
    let g = |port: u16| plan::change_of(f, port);
    plan_laws::lemma_ports(f.entries, arbitrary());
    lists::lemma_filter_map_distinct(plan::ports_of(f.entries), g);
}

/// One more change of blocking is made.
proof fn lemma_follows_change(f: Findings, done: Done, kernel: Seq<ChainRule>)
    requires
        0 <= done.changes < plan::changes(f).len(),
        done.lifts == 0,
        kernel.no_duplicates(),
        follows(f, done, kernel),
    ensures
        match plan::changes(f)[done.changes] {
            PortChange::Block(port) => {
                &&& kernel.push(ChainRule::Drop(port)).no_duplicates()
                &&& follows(
                    f,
                    Done { changes: done.changes + 1, ..done },
                    kernel.push(ChainRule::Drop(port)),
                )
            },
            PortChange::Unblock(port) => {
                &&& firewall::removed(kernel, ChainRule::Drop(port)).no_duplicates()
                &&& follows(
                    f,
                    Done { changes: done.changes + 1, ..done },
                    firewall::removed(kernel, ChainRule::Drop(port)),
                )
            },
        },
{
    reveal(follows);
    let change = plan::changes(f)[done.changes];
    let more = Done { changes: done.changes + 1, ..done };
    lemma_changes_distinct(f);
    lists::lemma_take_more(plan::changes(f), done.changes);
    assert(plan::changes(f).contains(change));
    match change {
        PortChange::Block(port) => {
            plan_laws::lemma_changes(f, port);
            lemma_taken(plan::changes(f), done.changes, PortChange::Unblock(port));
            assert(!blocks(f, done, port));
            firewall::lemma_at_end(kernel, ChainRule::Drop(port));
        },
        PortChange::Unblock(port) => {
            plan_laws::lemma_changes(f, port);
            lemma_taken(plan::changes(f), done.changes + 1, PortChange::Block(port));
            assert(!blocks(f, more, port));
            firewall::lemma_removed(kernel, ChainRule::Drop(port));
        },
    }
}

proof fn lemma_taken<A>(s: Seq<A>, n: int, x: A)
    requires
        0 <= n <= s.len(),
    ensures
        s.take(n).contains(x) ==> s.contains(x),
{
    if s.take(n).contains(x) {
        let i = choose|i: int| 0 <= i < n && s.take(n)[i] == x;
        assert(s[i] == x);
    }
}

/// One more rule is deleted.
proof fn lemma_follows_delete(f: Findings, done: Done, kernel: Seq<ChainRule>)
    requires
        0 <= done.deletes < plan::stale(f).len(),
        kernel.no_duplicates(),
        follows(f, done, kernel),
    ensures
        firewall::removed(
            kernel,
            ChainRule::Accept(plan::stale(f)[done.deletes]),
        ).no_duplicates(),
        follows(
            f,
            Done { deletes: done.deletes + 1, ..done },
            firewall::removed(kernel, ChainRule::Accept(plan::stale(f)[done.deletes])),
        ),
{
    reveal(follows);
    let rule = plan::stale(f)[done.deletes];
    lists::lemma_take_more(plan::stale(f), done.deletes);
    firewall::lemma_removed(kernel, ChainRule::Accept(rule));
}

/// One more blocking of an unconfigured port ends.
proof fn lemma_follows_lift(f: Findings, done: Done, kernel: Seq<ChainRule>)
    requires
        0 <= done.lifts < plan::stale_ports(f).len(),
        kernel.no_duplicates(),
        follows(f, done, kernel),
    ensures
        firewall::removed(
            kernel,
            ChainRule::Drop(plan::stale_ports(f)[done.lifts]),
        ).no_duplicates(),
        follows(
            f,
            Done { lifts: done.lifts + 1, ..done },
            firewall::removed(kernel, ChainRule::Drop(plan::stale_ports(f)[done.lifts])),
        ),
{
    reveal(follows);
    let port = plan::stale_ports(f)[done.lifts];
    lists::lemma_take_more(plan::stale_ports(f), done.lifts);
    firewall::lemma_removed(kernel, ChainRule::Drop(port));
}

/// One more entry was looked up.
proof fn lemma_follows_lookup(f: Findings, g: Findings, lookup: Lookup, kernel: Seq<ChainRule>)
    requires
        f.added.len() == 0,
        f.lookups.len() < f.entries.len(),
        g == (Findings { lookups: f.lookups.push(lookup), ..f }),
        lookup.ip is Some ==> lookup.present == f.existing.accept.contains(
            Rule { ip: lookup.ip->0, port: f.entries[f.lookups.len() as int].port },
        ),
        follows(f, Done { adds: 0, changes: 0, deletes: 0, lifts: 0 }, kernel),
    ensures
        follows(g, Done { adds: 0, changes: 0, deletes: 0, lifts: 0 }, kernel),
{
    reveal(follows);
    lemma_untouched(f);
    lemma_untouched(g);
    assert forall|i: int|
        0 <= i < g.lookups.len() && i < g.entries.len() && (#[trigger] g.lookups[i]).ip
            is Some implies g.lookups[i].present == g.existing.accept.contains(
        Rule { ip: g.lookups[i].ip->0, port: g.entries[i].port },
    ) by {
        if i < f.lookups.len() {
            assert(g.lookups[i] == f.lookups[i]);
        }
    }
}

/// As long as nothing is done, the chain is as it was found.
proof fn lemma_untouched(f: Findings)
    ensures
        forall|rule: Rule| #[trigger]
            admits(f, Done { adds: 0, changes: 0, deletes: 0, lifts: 0 }, rule)
                <==> f.existing.accept.contains(rule),
        forall|port: u16| #[trigger]
            blocks(f, Done { adds: 0, changes: 0, deletes: 0, lifts: 0 }, port)
                <==> f.existing.drop.contains(port),
{
    assert(plan::to_add(f).take(0) =~= Seq::<Rule>::empty());
    assert(plan::stale(f).take(0) =~= Seq::<Rule>::empty());
    assert(plan::changes(f).take(0) =~= Seq::<PortChange>::empty());
    assert(plan::stale_ports(f).take(0) =~= Seq::<u16>::empty());
}

/// The chain was listed.
proof fn lemma_follows_listing(f: Findings, output: Seq<char>, kernel: Seq<ChainRule>)
    requires
        firewall::shows_whole(output, kernel),
        f.existing == chain::chain_of(Some(output)),
        f.lookups.len() == 0,
        f.added.len() == 0,
    ensures
        follows(f, Done { adds: 0, changes: 0, deletes: 0, lifts: 0 }, kernel),
{
    let nothing = Done { adds: 0, changes: 0, deletes: 0, lifts: 0 };
    reveal(follows);
    lemma_untouched(f);
    assert forall|rule: Rule| #[trigger] kernel.contains(ChainRule::Accept(rule)) <==> admits(
        f,
        nothing,
        rule,
    ) by {
        assert(f.existing.accept.contains(rule) <==> kernel.contains(ChainRule::Accept(rule)));
    }
    assert forall|port: u16| #[trigger] kernel.contains(ChainRule::Drop(port)) <==> blocks(
        f,
        nothing,
        port,
    ) by {
        assert(f.existing.drop.contains(port) <==> kernel.contains(ChainRule::Drop(port)));
    }
}

// ---------------------------------------------------------------------------
// The course of a run
// ---------------------------------------------------------------------------

proof fn lemma_tracks_lifts(s: SyncView, i: int, saves: Seq<Seq<char>>, kernel: Seq<ChainRule>)
    requires
        kernel.no_duplicates(),
        0 <= i <= plan::stale_ports(run::facts(s)).len() <= config::MAX_LOOP_ITERATIONS,
        follows(run::facts(s), Done { lifts: i, ..all_done(run::facts(s)) }, kernel),
    ensures
        tracks(run::to_stale_ports(s, i, saves).state, kernel),
{
    progress::lemma_same_facts(s, run::to_stale_ports(s, i, saves).state);
}

proof fn lemma_tracks_deletes(s: SyncView, i: int, saves: Seq<Seq<char>>, kernel: Seq<ChainRule>)
    requires
        kernel.no_duplicates(),
        0 <= i <= plan::stale(run::facts(s)).len() <= config::MAX_LOOP_ITERATIONS,
        plan::stale_ports(run::facts(s)).len() <= config::MAX_LOOP_ITERATIONS,
        follows(run::facts(s), Done { deletes: i, lifts: 0, ..all_done(run::facts(s)) }, kernel),
    ensures
        tracks(run::to_stale(s, i, saves).state, kernel),
{
    let f = run::facts(s);
    if i < plan::stale(f).len() {
        progress::lemma_same_facts(s, run::to_stale(s, i, saves).state);
    } else {
        lemma_tracks_lifts(s, 0, saves, kernel);
    }
}

proof fn lemma_tracks_changes(s: SyncView, i: int, saves: Seq<Seq<char>>, kernel: Seq<ChainRule>)
    requires
        kernel.no_duplicates(),
        0 <= i <= plan::changes(run::facts(s)).len() <= config::MAX_LOOP_ITERATIONS,
        plan::stale(run::facts(s)).len() <= config::MAX_LOOP_ITERATIONS,
        plan::stale_ports(run::facts(s)).len() <= config::MAX_LOOP_ITERATIONS,
        follows(
            run::facts(s),
            Done { changes: i, deletes: 0, lifts: 0, ..all_done(run::facts(s)) },
            kernel,
        ),
    ensures
        tracks(run::to_changes(s, i, saves).state, kernel),
{
    let f = run::facts(s);
    if i < plan::changes(f).len() {
        progress::lemma_same_facts(s, run::to_changes(s, i, saves).state);
    } else {
        lemma_tracks_deletes(s, 0, saves, kernel);
    }
}

proof fn lemma_tracks_adds(s: SyncView, i: int, saves: Seq<Seq<char>>, kernel: Seq<ChainRule>)
    requires
        run::bounded(s),
        run::resolving_done(s),
        kernel.no_duplicates(),
        0 <= i <= plan::to_add(run::facts(s)).len(),
        follows(run::facts(s), Done { adds: i, changes: 0, deletes: 0, lifts: 0 }, kernel),
    ensures
        tracks(run::to_adds(s, i, saves).state, kernel),
{
    let f = run::facts(s);
    progress::lemma_lists_bounded(s);
    if i < plan::to_add(f).len() {
        progress::lemma_same_facts(s, run::to_adds(s, i, saves).state);
    } else {
        lemma_tracks_changes(s, 0, saves, kernel);
    }
}

proof fn lemma_tracks_lookups(s: SyncView, i: int, saves: Seq<Seq<char>>, kernel: Seq<ChainRule>)
    requires
        run::bounded(s),
        kernel.no_duplicates(),
        i == s.lookups.len() <= s.entries.len(),
        follows(run::facts(s), Done { adds: 0, changes: 0, deletes: 0, lifts: 0 }, kernel),
    ensures
        tracks(run::to_lookups(s, i, saves).state, kernel),
{
    if i < s.entries.len() {
        progress::lemma_same_facts(s, run::to_lookups(s, i, saves).state);
    } else {
        lemma_tracks_adds(s, 0, saves, kernel);
    }
}

proof fn lemma_tracks_looked_up(s: SyncView, lookup: Lookup, kernel: Seq<ChainRule>)
    requires
        run::bounded(s),
        s.lookups.len() < s.entries.len(),
        s.added.len() == 0,
        kernel.no_duplicates(),
        follows(run::facts(s), Done { adds: 0, changes: 0, deletes: 0, lifts: 0 }, kernel),
        lookup.ip is Some ==> lookup.present == s.existing.accept.contains(
            run::entry_rule(s, s.lookups.len() as int, lookup.ip->0),
        ),
    ensures
        tracks(run::looked_up(s, s.lookups.len() as int, lookup).state, kernel),
{
    let t = SyncView { lookups: s.lookups.push(lookup), ..s };
    lemma_follows_lookup(run::facts(s), run::facts(t), lookup, kernel);
    lemma_tracks_lookups(t, s.lookups.len() as int + 1, Seq::<Seq<char>>::empty(), kernel);
}

/// As long as nothing is done, the chain is as it was found.
pub proof fn lemma_found(s: SyncView, kernel: Seq<ChainRule>)
    requires
        tracks(s, kernel),
        s.step is Resolve || s.step is CheckRule,
    ensures
        forall|rule: Rule| #[trigger]
            s.existing.accept.contains(rule) <==> kernel.contains(ChainRule::Accept(rule)),
        forall|port: u16| #[trigger]
            s.existing.drop.contains(port) <==> kernel.contains(ChainRule::Drop(port)),
{
    reveal(follows);
    lemma_untouched(run::facts(s));
    let nothing = Done { adds: 0, changes: 0, deletes: 0, lifts: 0 };
    assert forall|rule: Rule| #[trigger] s.existing.accept.contains(rule) <==> kernel.contains(
        ChainRule::Accept(rule),
    ) by {
        assert(admits(run::facts(s), nothing, rule) <==> s.existing.accept.contains(rule));
    }
    assert forall|port: u16| #[trigger] s.existing.drop.contains(port) <==> kernel.contains(
        ChainRule::Drop(port),
    ) by {
        assert(blocks(run::facts(s), nothing, port) <==> s.existing.drop.contains(port));
    }
}

#[verifier::rlimit(40)]
proof fn lemma_tracks_listed(s: SyncView, kernel: Seq<ChainRule>, reply: ReplyView)
    requires
        run::valid(s),
        tracks(s, kernel),
        s.step is ListRules,
        faithful(kernel, run::request_of(s), reply),
    ensures
        tracks(run::next(s, reply).state, kernel),
{
    let existing = chain::chain_of(run::listing_in(reply));
    let c = CacheView { rules: existing.accept, ..s.cache };
    let t = SyncView { existing, cache: c, ..s };
    chain::lemma_chain_bounded(run::listing_in(reply));
    lemma_follows_listing(run::facts(t), run::listing_in(reply)->0, kernel);
    lemma_tracks_lookups(t, 0, seq![cache::cache_text(c)], kernel);
}

#[verifier::rlimit(40)]
proof fn lemma_tracks_resolved(s: SyncView, kernel: Seq<ChainRule>, reply: ReplyView)
    requires
        run::valid(s),
        tracks(s, kernel),
        s.step is Resolve || s.step is CheckRule,
        faithful(kernel, run::request_of(s), reply),
    ensures
        tracks(run::next(s, reply).state, kernel),
{
    let i = s.lookups.len() as int;
    match s.step {
        Step::Resolve(_) => match run::address_in(reply) {
            None => lemma_tracks_looked_up(s, Lookup { ip: None, present: false }, kernel),
            Some(ip) => if s.existing.accept.contains(run::entry_rule(s, i, ip)) {
                lemma_tracks_looked_up(s, Lookup { ip: Some(ip), present: true }, kernel);
            } else {
                progress::lemma_same_facts(s, run::next(s, reply).state);
            },
        },
        Step::CheckRule(_, ip) => {
            lemma_found(s, kernel);
            lemma_tracks_looked_up(
                s,
                Lookup { ip: Some(ip), present: run::succeeded(reply) },
                kernel,
            );
        },
        _ => {},
    }
}

#[verifier::rlimit(40)]
proof fn lemma_tracks_added(s: SyncView, kernel: Seq<ChainRule>, reply: ReplyView)
    requires
        run::valid(s),
        tracks(s, kernel),
        s.step is AddRule || s.step is RetryRule,
        faithful(kernel, run::request_of(s), reply),
    ensures
        tracks(run::next(s, reply).state, safety::moved(s, kernel, reply)),
{
    let f = run::facts(s);
    let i = s.added.len() as int;
    let rule = plan::to_add(f)[i];
    let c = cache::with_rule(s.cache, rule);
    let t = SyncView { cache: c, added: s.added.push(true), ..s };
    cache::lemma_changes_valid(s.cache, rule);
    plan::lemma_to_add_early(f, run::facts(t));
    lemma_follows_add(f, run::facts(t), i, kernel);
    lemma_tracks_adds(
        t,
        i + 1,
        seq![cache::cache_text(c)],
        seq![ChainRule::Accept(rule)] + kernel,
    );
}

#[verifier::rlimit(40)]
proof fn lemma_tracks_changed(s: SyncView, kernel: Seq<ChainRule>, reply: ReplyView)
    requires
        run::valid(s),
        tracks(s, kernel),
        s.step is ChangePort,
        faithful(kernel, run::request_of(s), reply),
    ensures
        tracks(run::next(s, reply).state, safety::moved(s, kernel, reply)),
{
    let f = run::facts(s);
    progress::lemma_lists_bounded(s);
    match s.step {
        Step::ChangePort(i) => {
            lemma_follows_change(f, done_at(f, s.step), kernel);
            lemma_tracks_changes(
                s,
                i + 1,
                Seq::<Seq<char>>::empty(),
                safety::moved(s, kernel, reply),
            );
        },
        _ => {},
    }
}

#[verifier::rlimit(40)]
proof fn lemma_tracks_deleted(s: SyncView, kernel: Seq<ChainRule>, reply: ReplyView)
    requires
        run::valid(s),
        tracks(s, kernel),
        s.step is DeleteRule || s.step is DeleteDrop,
        faithful(kernel, run::request_of(s), reply),
    ensures
        tracks(run::next(s, reply).state, safety::moved(s, kernel, reply)),
{
    let f = run::facts(s);
    let after = safety::moved(s, kernel, reply);
    progress::lemma_lists_bounded(s);
    match s.step {
        Step::DeleteRule(i) => {
            let c = cache::without_rule(s.cache, plan::stale(f)[i as int]);
            let t = run::caching(s, c);
            progress::lemma_same_facts(s, t);
            lemma_follows_delete(f, done_at(f, s.step), kernel);
            lemma_tracks_deletes(t, i + 1, seq![cache::cache_text(c)], after);
        },
        Step::DeleteDrop(i) => {
            lemma_follows_lift(f, done_at(f, s.step), kernel);
            lemma_tracks_lifts(s, i + 1, Seq::<Seq<char>>::empty(), after);
        },
        _ => {},
    }
}

#[verifier::rlimit(40)]
proof fn lemma_tracks_last(s: SyncView, kernel: Seq<ChainRule>, reply: ReplyView)
    requires
        run::valid(s),
        tracks(s, kernel),
        s.step is ListInput || s.step is DeleteLegacy || s.step is Finished,
    ensures
        tracks(run::next(s, reply).state, safety::moved(s, kernel, reply)),
{
    progress::lemma_same_facts(s, run::next(s, reply).state);
}

#[verifier::rlimit(40)]
proof fn lemma_tracks_first(s: SyncView, kernel: Seq<ChainRule>, reply: ReplyView)
    requires
        run::valid(s),
        tracks(s, kernel),
        !safety::adding(s.step),
        !safety::added(s.step),
        !(s.step is ListRules),
        faithful(kernel, run::request_of(s), reply),
    ensures
        tracks(run::next(s, reply).state, safety::moved(s, kernel, reply)),
{
    match s.step {
        Step::RestorePending(rule) => {
            firewall::lemma_in_front(kernel, ChainRule::Accept(rule));
        },
        _ => {},
    }
}

/// A run may begin with any chain that holds no rule twice.
pub proof fn law_tracks_start(kernel: Seq<ChainRule>)
    requires
        kernel.no_duplicates(),
    ensures
        tracks(run::start(), kernel),
{
}

/// Throughout a run in which no command fails, the chain is as it was found, but for the part of
/// what was decided that is done; and it never holds a rule twice.
#[verifier::rlimit(60)]
pub proof fn law_tracks_kept(s: SyncView, kernel: Seq<ChainRule>, reply: ReplyView)
    requires
        run::valid(s),
        tracks(s, kernel),
        faithful(kernel, run::request_of(s), reply),
    ensures
        tracks(run::next(s, reply).state, safety::moved(s, kernel, reply)),
{
    match s.step {
        Step::ListRules => lemma_tracks_listed(s, kernel, reply),
        Step::Resolve(_) | Step::CheckRule(_, _) => lemma_tracks_resolved(s, kernel, reply),
        Step::AddRule(_) | Step::RetryRule(_) => lemma_tracks_added(s, kernel, reply),
        Step::ChangePort(_) => lemma_tracks_changed(s, kernel, reply),
        Step::DeleteRule(_) | Step::DeleteDrop(_) => lemma_tracks_deleted(s, kernel, reply),
        Step::ListInput(_) | Step::DeleteLegacy(_, _) | Step::Finished(_) => {
            lemma_tracks_last(s, kernel, reply);
        },
        _ => lemma_tracks_first(s, kernel, reply),
    }
}

// ---------------------------------------------------------------------------
// The end of a run
// ---------------------------------------------------------------------------

/// The chain admits exactly what is to be admitted, and blocks exactly the configured ports to
/// which somebody is to be admitted.
pub open spec fn settled(f: Findings, kernel: Seq<ChainRule>) -> bool {
    &&& forall|rule: Rule| #[trigger]
        kernel.contains(ChainRule::Accept(rule)) <==> plan::desired(f, rule)
    &&& forall|port: u16| #[trigger]
        kernel.contains(ChainRule::Drop(port)) <==> plan::ports_of(f.entries).contains(port)
            && plan::wanted(f, port)
}

/// When everything is done, the rules in force are those that are to be in force.
proof fn lemma_admits_all(f: Findings, rule: Rule)
    requires
        plan::complete(f),
        accurate(f),
        unrefused(f),
    ensures
        admits(f, all_done(f), rule) == plan::desired(f, rule),
{
    let adds = plan::to_add(f);
    assert(adds.take(adds.len() as int) =~= adds);
    assert(plan::stale(f).take(plan::stale(f).len() as int) =~= plan::stale(f));
    plan_laws::lemma_to_add(f, rule);
    plan_laws::lemma_stale(f, rule);
    if adds.contains(rule) {
        let i = choose|i: int| #[trigger] plan::asks_for(f, i, rule) && !f.lookups[i].present;
        assert(plan::resolved(f, rule));
    }
    if plan::resolved(f, rule) {
        let i = choose|i: int| plan::asks_for(f, i, rule);
        if f.lookups[i].present {
            assert(f.existing.accept.contains(rule));
        } else {
            assert(plan::asks_for(f, i, rule) && !f.lookups[i].present);
        }
    }
}

/// When no rule was refused, whoever is to be admitted to a port is admitted to it.
proof fn lemma_wanted_admitted(f: Findings, port: u16)
    requires
        plan::complete(f),
        unrefused(f),
    ensures
        plan::wanted(f, port) == plan::admitted(f, port),
{
    plan_laws::lemma_admitted_wanted(f, port);
    if plan::wanted(f, port) {
        let rule = choose|rule: Rule| plan::wanted_for(f, rule, port);
        assert(!plan::refused(f, port)) by {
            if plan::refused(f, port) {
                let k = choose|k: int| plan::refused_at(f, k, port);
                assert(f.added[k]);
            }
        }
        if plan::resolved(f, rule) {
            let i = choose|i: int| plan::asks_for(f, i, rule);
            plan_laws::lemma_resolved_kept(f, i);
        }
        assert(plan::kept_for(f, rule, port));
    }
}

/// When everything is done, the blocked ports are those to which somebody is to be admitted.
proof fn lemma_blocks_all(f: Findings, port: u16)
    requires
        plan::complete(f),
        unrefused(f),
    ensures
        blocks(f, all_done(f), port) == (plan::ports_of(f.entries).contains(port) && plan::wanted(
            f,
            port,
        )),
{
    let changes = plan::changes(f);
    assert(changes.take(changes.len() as int) =~= changes);
    assert(plan::stale_ports(f).take(plan::stale_ports(f).len() as int) =~= plan::stale_ports(f));
    plan_laws::lemma_changes(f, port);
    plan_laws::lemma_stale_ports(f, port);
    lemma_wanted_admitted(f, port);
}

/// A run in which no command fails leaves the chain as it is to be: whatever the chain was, it
/// admits exactly what is to be admitted and blocks exactly the configured ports to which somebody
/// is to be admitted.
pub proof fn law_converged(s: SyncView, kernel: Seq<ChainRule>)
    requires
        tracks(s, kernel),
        safety::secure(s, kernel),
        s.step == Step::Finished(Outcome::Complete),
    ensures
        settled(run::facts(s), kernel),
{
    let f = run::facts(s);
    reveal(follows);
    assert forall|rule: Rule| #[trigger] kernel.contains(ChainRule::Accept(rule))
        <==> plan::desired(f, rule) by {
        lemma_admits_all(f, rule);
    }
    assert forall|port: u16| #[trigger] kernel.contains(ChainRule::Drop(port)) <==> plan::ports_of(
        f.entries,
    ).contains(port) && plan::wanted(f, port) by {
        lemma_blocks_all(f, port);
    }
}

/// What becomes of a connection attempt by the managed rules of a settled chain: an address gets
/// through to a port when it is to be admitted; a configured port to which somebody is admitted is
/// blocked for everyone else; all other attempts are passed on.
pub proof fn law_settled_verdict(f: Findings, kernel: Seq<ChainRule>, ip: Ipv4Addr, port: u16)
    requires
        settled(f, kernel),
        firewall::ordered(kernel),
    ensures
        firewall::verdict(kernel, ip, port) == if plan::desired(f, Rule { ip, port }) {
            Verdict::Accepted
        } else if plan::ports_of(f.entries).contains(port) && plan::wanted(f, port) {
            Verdict::Blocked
        } else {
            Verdict::Passed
        },
{
    firewall::law_verdict(kernel, ip, port);
}

/// When every name was resolved, each configured port is locked down: exactly the resolved
/// addresses get through, and everyone else is blocked. Ports that are not configured are not
/// affected.
pub proof fn law_locked_down(f: Findings, kernel: Seq<ChainRule>, ip: Ipv4Addr, port: u16)
    requires
        settled(f, kernel),
        firewall::ordered(kernel),
        plan::complete(f),
        unrefused(f),
        forall|i: int| 0 <= i < f.lookups.len() ==> (#[trigger] f.lookups[i]).ip is Some,
    ensures
        firewall::verdict(kernel, ip, port) == if !plan::ports_of(f.entries).contains(port) {
            Verdict::Passed
        } else if plan::resolved(f, Rule { ip, port }) {
            Verdict::Accepted
        } else {
            Verdict::Blocked
        },
{
    let rule = Rule { ip, port };
    law_settled_verdict(f, kernel, ip, port);
    plan_laws::lemma_ports(f.entries, port);
    assert(!plan::unresolved(f, port)) by {
        if plan::unresolved(f, port) {
            let i = choose|i: int| plan::unresolved_at(f, i, port);
            assert(f.lookups[i].ip is Some);
        }
    }
    assert(!plan::refused(f, port)) by {
        if plan::refused(f, port) {
            let k = choose|k: int| plan::refused_at(f, k, port);
            assert(f.added[k]);
        }
    }
    if plan::resolved(f, rule) {
        let i = choose|i: int| plan::asks_for(f, i, rule);
        assert(f.entries[i].port == port);
    }
    if plan::ports_of(f.entries).contains(port) {
        let i = choose|i: int| 0 <= i < f.entries.len() && (#[trigger] f.entries[i]).port == port;
        assert(f.lookups[i].ip is Some);
        let other = Rule { ip: f.lookups[i].ip->0, port };
        assert(plan::asks_for(f, i, other));
        assert(plan::wanted_for(f, other, port));
    }
}

/// No command fails, and every reply about the chain is true.
pub open spec fn all_faithful(kernel: Seq<ChainRule>, replies: Seq<ReplyView>) -> bool
    decreases replies.len(),
{
    replies.len() == 0 || {
        let before = replies.drop_last();
        &&& all_faithful(kernel, before)
        &&& faithful(
            safety::chain_after(kernel, before),
            run::request_of(progress::after(before)),
            replies.last(),
        )
    }
}

/// Who never fails says the truth.
proof fn lemma_faithful_honest(kernel: Seq<ChainRule>, request: RequestView, reply: ReplyView)
    requires
        faithful(kernel, request, reply),
    ensures
        safety::honest(kernel, request, reply),
{
}

proof fn lemma_reached(s: SyncView, kernel: Seq<ChainRule>, reply: ReplyView)
    requires
        run::valid(s),
        tracks(s, kernel),
        faithful(kernel, run::request_of(s), reply),
    ensures
        tracks(progress::reached(s, reply), safety::reached(s, kernel, reply)),
{
    reveal(progress::reached);
    reveal(safety::reached);
    law_tracks_kept(s, kernel, reply);
}

proof fn lemma_run_tracks(kernel: Seq<ChainRule>, replies: Seq<ReplyView>)
    requires
        kernel.no_duplicates(),
        all_faithful(kernel, replies),
    ensures
        tracks(progress::after(replies), safety::chain_after(kernel, replies)),
        safety::all_honest(kernel, replies),
    decreases replies.len(),
{
    if replies.len() == 0 {
        law_tracks_start(kernel);
    } else {
        let before = replies.drop_last();
        let s = progress::after(before);
        let current = safety::chain_after(kernel, before);
        lemma_run_tracks(kernel, before);
        progress::law_always_valid(before);
        lemma_faithful_honest(current, run::request_of(s), replies.last());
        lemma_reached(s, current, replies.last());
    }
}

/// A whole run in which no command fails, from whatever chain it begins with, be it empty after a
/// restart: when it is complete, the chain admits and blocks what it is to admit and block.
pub proof fn law_run_converges(kernel: Seq<ChainRule>, replies: Seq<ReplyView>)
    requires
        kernel.no_duplicates(),
        all_faithful(kernel, replies),
        progress::after(replies).step == Step::Finished(Outcome::Complete),
    ensures
        settled(run::facts(progress::after(replies)), safety::chain_after(kernel, replies)),
        plan::complete(run::facts(progress::after(replies))),
        unrefused(run::facts(progress::after(replies))),
        safety::chain_after(kernel, replies).no_duplicates(),
        firewall::ordered(kernel) ==> firewall::ordered(safety::chain_after(kernel, replies)),
{
    reveal(follows);
    lemma_run_tracks(kernel, replies);
    safety::law_run_secure(kernel, replies);
    law_converged(progress::after(replies), safety::chain_after(kernel, replies));
}

/// A whole run in which no command fails and every name is resolved locks each configured port down:
/// exactly the resolved addresses get through to it, and everyone else is blocked. Ports that are
/// not configured are not affected.
pub proof fn law_run_locks_down(
    kernel: Seq<ChainRule>,
    replies: Seq<ReplyView>,
    ip: Ipv4Addr,
    port: u16,
)
    requires
        kernel.no_duplicates(),
        firewall::ordered(kernel),
        all_faithful(kernel, replies),
        progress::after(replies).step == Step::Finished(Outcome::Complete),
        forall|i: int|
            0 <= i < progress::after(replies).lookups.len() ==> (
            #[trigger] progress::after(replies).lookups[i]).ip is Some,
    ensures
        firewall::verdict(safety::chain_after(kernel, replies), ip, port) == if !plan::ports_of(
            progress::after(replies).entries,
        ).contains(port) {
            Verdict::Passed
        } else if plan::resolved(run::facts(progress::after(replies)), Rule { ip, port }) {
            Verdict::Accepted
        } else {
            Verdict::Blocked
        },
{
    let f = run::facts(progress::after(replies));
    law_run_converges(kernel, replies);
    law_locked_down(f, safety::chain_after(kernel, replies), ip, port);
}

/// What a second run finds: the same entries, the same addresses for them, and the chain that the
/// first run left.
pub open spec fn found_again(f: Findings, g: Findings, kernel: Seq<ChainRule>) -> bool {
    &&& g.entries == f.entries
    &&& g.lookups.len() == f.lookups.len()
    &&& forall|i: int| 0 <= i < f.lookups.len() ==> (#[trigger] g.lookups[i]).ip == f.lookups[i].ip
    &&& accurate(g)
    &&& forall|rule: Rule| #[trigger]
        g.existing.accept.contains(rule) <==> kernel.contains(ChainRule::Accept(rule))
    &&& forall|port: u16| #[trigger]
        g.existing.drop.contains(port) <==> kernel.contains(ChainRule::Drop(port))
}

/// A second run that finds the same addresses changes nothing, even when some names cannot be
/// resolved.
pub proof fn law_idempotent(f: Findings, g: Findings, kernel: Seq<ChainRule>)
    requires
        plan::complete(f),
        unrefused(f),
        settled(f, kernel),
        found_again(f, g, kernel),
    ensures
        plan::to_add(g).len() == 0,
        plan::changes(g).len() == 0,
        plan::stale(g).len() == 0,
        plan::stale_ports(g).len() == 0,
{
    if plan::to_add(g).len() > 0 {
        let rule = plan::to_add(g)[0];
        assert(plan::to_add(g).contains(rule));
        plan_laws::lemma_to_add(g, rule);
        let i = choose|i: int| #[trigger] plan::asks_for(g, i, rule) && !g.lookups[i].present;
        assert(plan::asks_for(f, i, rule));
        assert(plan::desired(f, rule));
        assert(kernel.contains(ChainRule::Accept(rule)));
        assert(g.existing.accept.contains(rule));
    }
    if plan::stale(g).len() > 0 {
        let rule = plan::stale(g)[0];
        assert(plan::stale(g).contains(rule));
        plan_laws::lemma_stale(g, rule);
        assert(kernel.contains(ChainRule::Accept(rule)));
        lemma_desired_again(f, g, kernel, rule);
    }
    if plan::stale_ports(g).len() > 0 {
        let port = plan::stale_ports(g)[0];
        assert(plan::stale_ports(g).contains(port));
        plan_laws::lemma_stale_ports(g, port);
        assert(kernel.contains(ChainRule::Drop(port)));
    }
    if plan::changes(g).len() > 0 {
        let change = plan::changes(g)[0];
        assert(plan::changes(g).contains(change));
        match change {
            PortChange::Block(port) => {
                plan_laws::lemma_changes(g, port);
                let rule = choose|rule: Rule| plan::kept_for(g, rule, port);
                if plan::resolved(g, rule) {
                    let i = choose|i: int| plan::asks_for(g, i, rule);
                    assert(plan::asks_for(f, i, rule));
                } else {
                    assert(kernel.contains(ChainRule::Accept(rule)));
                }
                assert(plan::wanted_for(f, rule, port));
                assert(kernel.contains(ChainRule::Drop(port)));
            },
            PortChange::Unblock(port) => {
                plan_laws::lemma_changes(g, port);
                assert(kernel.contains(ChainRule::Drop(port)));
                let rule = choose|rule: Rule| plan::wanted_for(f, rule, port);
                lemma_desired_again(f, g, kernel, rule);
                assert(plan::wanted_for(g, rule, port));
            },
        }
    }
}

/// What was to be in force in the first run is to be in force in the second.
proof fn lemma_desired_again(f: Findings, g: Findings, kernel: Seq<ChainRule>, rule: Rule)
    requires
        plan::complete(f),
        unrefused(f),
        settled(f, kernel),
        found_again(f, g, kernel),
        plan::desired(f, rule),
    ensures
        plan::desired(g, rule),
{
    assert(kernel.contains(ChainRule::Accept(rule)));
    assert(g.existing.accept.contains(rule));
    if plan::resolved(f, rule) {
        let i = choose|i: int| plan::asks_for(f, i, rule);
        assert(plan::asks_for(g, i, rule));
    } else if plan::unresolved(f, rule.port) {
        let i = choose|i: int| plan::unresolved_at(f, i, rule.port);
        assert(plan::unresolved_at(g, i, rule.port));
    } else {
        let k = choose|k: int| plan::refused_at(f, k, rule.port);
        assert(f.added[k]);
    }
}

/// When nothing is to be done, a run asks for no change of the chain from its listing on.
pub proof fn law_nothing_asked(s: SyncView)
    requires
        run::valid(s),
        safety::adding(s.step) || safety::added(s.step),
        plan::to_add(run::facts(s)).len() == 0,
        plan::changes(run::facts(s)).len() == 0,
        plan::stale(run::facts(s)).len() == 0,
        plan::stale_ports(run::facts(s)).len() == 0,
    ensures
        firewall::changing(run::request_of(s)) ==> run::request_of(s) is DeleteLegacy,
{
}

/// When every name is resolved to an address that the chain admits already, when the chain admits
/// nobody else and blocks exactly the configured ports, a run asks for no change of the chain.
pub proof fn law_unchanged_run(s: SyncView, kernel: Seq<ChainRule>)
    requires
        run::valid(s),
        tracks(s, kernel),
        safety::adding(s.step) || safety::added(s.step),
        run::resolving_done(s),
        forall|i: int| 0 <= i < s.lookups.len() ==> (#[trigger] s.lookups[i]).ip is Some,
        forall|rule: Rule| #[trigger]
            s.existing.accept.contains(rule) <==> plan::resolved(run::facts(s), rule),
        forall|port: u16| #[trigger]
            s.existing.drop.contains(port) <==> plan::ports_of(s.entries).contains(port),
    ensures
        firewall::changing(run::request_of(s)) ==> run::request_of(s) is DeleteLegacy,
{
    let f = run::facts(s);
    reveal(follows);
    assert forall|i: int| 0 <= i < f.entries.len() implies (#[trigger] f.lookups[i]).ip is Some
        && f.lookups[i].present by {
        let rule = Rule { ip: f.lookups[i].ip->0, port: f.entries[i].port };
        assert(plan::asks_for(f, i, rule));
        assert(f.existing.accept.contains(rule));
    }
    plan_laws::law_unchanged(f);
    law_nothing_asked(s);
}

/// A run that finds the chain as a run left it in which no command failed, and the same entries with
/// the same addresses, asks for no change of the chain.
pub proof fn law_second_run(
    f: Findings,
    left: Seq<ChainRule>,
    s: SyncView,
    kernel: Seq<ChainRule>,
)
    requires
        plan::complete(f),
        unrefused(f),
        settled(f, left),
        run::valid(s),
        tracks(s, kernel),
        safety::adding(s.step) || safety::added(s.step),
        s.entries == f.entries,
        s.lookups.len() == f.lookups.len(),
        forall|i: int|
            0 <= i < f.lookups.len() ==> (#[trigger] s.lookups[i]).ip == f.lookups[i].ip,
        forall|rule: Rule| #[trigger]
            s.existing.accept.contains(rule) <==> left.contains(ChainRule::Accept(rule)),
        forall|port: u16| #[trigger]
            s.existing.drop.contains(port) <==> left.contains(ChainRule::Drop(port)),
    ensures
        firewall::changing(run::request_of(s)) ==> run::request_of(s) is DeleteLegacy,
{
    reveal(follows);
    law_idempotent(f, run::facts(s), left);
    law_nothing_asked(s);
}

} // verus!
