//! Every run keeps to its limits and comes to an end.

use crate::addr::Rule;
use crate::cache;
use crate::cache::CacheView;
use crate::chain;
use crate::config;
use crate::plan;
use crate::plan::Lookup;
use crate::plan_laws;
use crate::run;
use crate::run::ReplyView;
use crate::run::Step;
use crate::run::SyncView;
use vstd::prelude::*;

verus! {

/// The most requests that a run makes.
pub const MAX_REQUESTS: usize = 1010;

/// A bound on how many requests a run still makes. Each phase is given the most requests that the
/// limits on entries and rules allow; an entry and a missing rule may each take two.
pub open spec fn remaining(s: SyncView) -> int {
    let f = run::facts(s);
    match s.step {
        Step::ListChain => 1010,
        Step::CreateChain => 1009,
        Step::CheckJump => 1008,
        Step::AddJump => 1007,
        Step::LoadCache => 1006,
        Step::CheckPending(_) => 1005,
        Step::RestorePending(_) => 1004,
        Step::ReadConfig => 1003,
        Step::ListRules => 1002,
        Step::Resolve(i) => 801 + 2 * (s.entries.len() - i),
        Step::CheckRule(i, _) => 800 + 2 * (s.entries.len() - i),
        Step::AddRule(i) => 601 + 2 * (plan::to_add(f).len() - i),
        Step::RetryRule(i) => 600 + 2 * (plan::to_add(f).len() - i),
        Step::ChangePort(i) => 501 + plan::changes(f).len() - i,
        Step::DeleteRule(i) => 401 + plan::stale(f).len() - i,
        Step::DeleteDrop(i) => 201 + plan::stale_ports(f).len() - i,
        Step::ListInput(_) => 201,
        Step::DeleteLegacy(i, _) => s.legacy.len() - i,
        Step::Finished(_) => 0,
    }
}

/// The decided lists keep to the limits.
pub proof fn lemma_lists_bounded(s: SyncView)
    requires
        run::bounded(s),
        s.lookups.len() == s.entries.len(),
    ensures
        plan::to_add(run::facts(s)).len() <= config::MAX_ENTRIES,
        plan::changes(run::facts(s)).len() <= config::MAX_ENTRIES,
        plan::stale(run::facts(s)).len() <= chain::MAX_RULES,
        plan::stale_ports(run::facts(s)).len() <= config::MAX_LOOP_ITERATIONS,
{
    let f = run::facts(s);
    let rule: Rule = arbitrary();
    plan_laws::lemma_to_add(f, rule);
    plan_laws::lemma_changes(f, rule.port);
    plan_laws::lemma_stale(f, rule);
    plan_laws::lemma_stale_ports(f, rule.port);
}

/// Changing the cache or the step changes nothing else.
pub proof fn lemma_same_facts(s: SyncView, t: SyncView)
    requires
        t.entries == s.entries,
        t.existing == s.existing,
        t.lookups == s.lookups,
        t.added == s.added,
    ensures
        run::facts(t) == run::facts(s),
{
}

proof fn lemma_to_legacy(s: SyncView, i: int, full: bool, saves: Seq<Seq<char>>)
    requires
        run::bounded(s),
        plan::complete(run::facts(s)),
        full || s.entries.len() == 0,
        forall|k: int|
            0 <= k < s.legacy.len() ==> plan::replaced(run::facts(s), #[trigger] s.legacy[k]),
        0 <= i <= config::MAX_LOOP_ITERATIONS,
    ensures
        run::valid(run::to_legacy(s, i, full, saves).state),
        remaining(run::to_legacy(s, i, full, saves).state) <= if i < s.legacy.len() {
            s.legacy.len() - i
        } else {
            0
        },
{
    let t = run::to_legacy(s, i, full, saves).state;
    lemma_same_facts(s, t);
}

proof fn lemma_to_stale_ports(s: SyncView, i: int, saves: Seq<Seq<char>>)
    requires
        run::bounded(s),
        plan::complete(run::facts(s)),
        0 <= i <= config::MAX_LOOP_ITERATIONS,
    ensures
        run::valid(run::to_stale_ports(s, i, saves).state),
        remaining(run::to_stale_ports(s, i, saves).state) <= 201 + if i < plan::stale_ports(
            run::facts(s),
        ).len() {
            plan::stale_ports(run::facts(s)).len() - i
        } else {
            0
        },
{
    let t = run::to_stale_ports(s, i, saves).state;
    lemma_same_facts(s, t);
}

proof fn lemma_to_stale(s: SyncView, i: int, saves: Seq<Seq<char>>)
    requires
        run::bounded(s),
        plan::complete(run::facts(s)),
        0 <= i <= config::MAX_LOOP_ITERATIONS,
    ensures
        run::valid(run::to_stale(s, i, saves).state),
        remaining(run::to_stale(s, i, saves).state) <= 401 + if i < plan::stale(
            run::facts(s),
        ).len() {
            plan::stale(run::facts(s)).len() - i
        } else {
            0
        },
{
    let t = run::to_stale(s, i, saves).state;
    lemma_same_facts(s, t);
    lemma_lists_bounded(s);
    if i < plan::stale(run::facts(s)).len() {
        cache::lemma_changes_valid(s.cache, plan::stale(run::facts(s))[i]);
    } else {
        lemma_to_stale_ports(s, 0, saves);
    }
}

proof fn lemma_to_changes(s: SyncView, i: int, saves: Seq<Seq<char>>)
    requires
        run::bounded(s),
        plan::complete(run::facts(s)),
        0 <= i <= config::MAX_LOOP_ITERATIONS,
    ensures
        run::valid(run::to_changes(s, i, saves).state),
        remaining(run::to_changes(s, i, saves).state) <= 501 + if i < plan::changes(
            run::facts(s),
        ).len() {
            plan::changes(run::facts(s)).len() - i
        } else {
            0
        },
{
    let t = run::to_changes(s, i, saves).state;
    lemma_same_facts(s, t);
    lemma_lists_bounded(s);
    if i >= plan::changes(run::facts(s)).len() {
        lemma_to_stale(s, 0, saves);
    }
}

proof fn lemma_to_adds(s: SyncView, i: int, saves: Seq<Seq<char>>)
    requires
        run::bounded(s),
        run::resolving_done(s),
        s.added.len() == i,
        0 <= i <= plan::to_add(run::facts(s)).len(),
    ensures
        run::valid(run::to_adds(s, i, saves).state),
        remaining(run::to_adds(s, i, saves).state) <= 601 + 2 * (plan::to_add(run::facts(s)).len()
            - i),
{
    let t = run::to_adds(s, i, saves).state;
    lemma_same_facts(s, t);
    lemma_lists_bounded(s);
    if i < plan::to_add(run::facts(s)).len() {
        cache::lemma_changes_valid(s.cache, plan::to_add(run::facts(s))[i]);
    } else {
        lemma_to_changes(s, 0, saves);
    }
}

proof fn lemma_to_lookups(s: SyncView, i: int, saves: Seq<Seq<char>>)
    requires
        run::bounded(s),
        s.lookups.len() == i,
        s.added.len() == 0,
        0 <= i <= s.entries.len(),
    ensures
        run::valid(run::to_lookups(s, i, saves).state),
        remaining(run::to_lookups(s, i, saves).state) <= 801 + 2 * (s.entries.len() - i),
{
    let t = run::to_lookups(s, i, saves).state;
    lemma_same_facts(s, t);
    if i >= s.entries.len() {
        lemma_lists_bounded(s);
        lemma_to_adds(s, 0, saves);
    }
}

/// A run begins in a valid state.
pub proof fn law_valid_start()
    ensures
        run::valid(run::start()),
        remaining(run::start()) == MAX_REQUESTS,
{
}

proof fn lemma_recovering(s: SyncView, checked: Option<bool>, added: Option<bool>)
    requires
        run::bounded(s),
        run::fresh(s),
        added is Some ==> checked is Some,
    ensures
        run::valid(run::recovering(s, checked, added).state),
        remaining(run::recovering(s, checked, added).state) <= if checked is None {
            1005int
        } else if added is None {
            1004int
        } else {
            1003int
        },
{
    let t = run::recovering(s, checked, added).state;
    lemma_same_facts(s, t);
    if let Some(rule) = s.cache.pending {
        cache::lemma_changes_valid(s.cache, rule);
    }
    cache::lemma_changes_valid(s.cache, arbitrary());
}

proof fn lemma_looked_up(s: SyncView, i: int, lookup: Lookup)
    requires
        run::bounded(s),
        0 <= i < s.entries.len(),
        s.lookups.len() == i,
        s.added.len() == 0,
    ensures
        run::valid(run::looked_up(s, i, lookup).state),
        remaining(run::looked_up(s, i, lookup).state) <= 801 + 2 * (s.entries.len() - i - 1),
{
    let t = SyncView { lookups: s.lookups.push(lookup), ..s };
    lemma_to_lookups(t, i + 1, Seq::<Seq<char>>::empty());
}

proof fn lemma_tried(s: SyncView, i: int, ok: bool)
    requires
        run::bounded(s),
        run::resolving_done(s),
        0 <= i < plan::to_add(run::facts(s)).len(),
        s.added.len() == i,
    ensures
        run::valid(run::tried(s, i, ok).state),
        remaining(run::tried(s, i, ok).state) <= 601 + 2 * (plan::to_add(run::facts(s)).len() - i
            - 1),
{
    let rule = plan::to_add(run::facts(s))[i];
    let c = if ok {
        cache::with_rule(s.cache, rule)
    } else {
        cache::idle(s.cache)
    };
    let t = SyncView { cache: c, added: s.added.push(ok), ..s };
    cache::lemma_changes_valid(s.cache, rule);
    plan::lemma_to_add_early(run::facts(s), run::facts(t));
    lemma_to_adds(t, i + 1, seq![cache::cache_text(c)]);
}

/// Each reply leads from a valid state to a valid state that is nearer to the end.
pub open spec fn advances(s: SyncView, t: SyncView) -> bool {
    &&& run::valid(t)
    &&& if s.step is Finished {
        t.step == s.step
    } else {
        remaining(t) < remaining(s)
    }
    &&& 0 <= remaining(s) <= MAX_REQUESTS
    &&& remaining(s) == 0 <==> s.step is Finished
}

#[verifier::rlimit(30)]
proof fn lemma_advances_first(s: SyncView, reply: ReplyView)
    requires
        run::valid(s),
        s.step is LoadCache || s.step is CheckPending || s.step is RestorePending || s.step
            is ReadConfig || s.step is ListRules,
    ensures
        advances(s, run::next(s, reply).state),
{
    match s.step {
        Step::LoadCache => {
            let lines = run::cache_lines_in(reply);
            cache::lemma_cache_of_valid(lines);
            lemma_recovering(run::caching(s, cache::cache_of(lines)), None, None);
        },
        Step::CheckPending(_) => {
            lemma_recovering(s, Some(run::succeeded(reply)), None);
        },
        Step::RestorePending(_) => {
            lemma_recovering(s, Some(false), Some(run::succeeded(reply)));
        },
        Step::ListRules => {
            let output = run::listing_in(reply);
            chain::lemma_chain_bounded(output);
            let existing = chain::chain_of(output);
            let c = CacheView { rules: existing.accept, ..s.cache };
            let t = SyncView { existing, cache: c, ..s };
            lemma_to_lookups(t, 0, seq![cache::cache_text(c)]);
        },
        _ => {},
    }
}

proof fn lemma_advances_lookup(s: SyncView, reply: ReplyView)
    requires
        run::valid(s),
        s.step is Resolve || s.step is CheckRule,
    ensures
        advances(s, run::next(s, reply).state),
{
    let i = s.lookups.len() as int;
    match s.step {
        Step::Resolve(_) => match run::address_in(reply) {
            None => lemma_looked_up(s, i, Lookup { ip: None, present: false }),
            Some(ip) => lemma_looked_up(s, i, Lookup { ip: Some(ip), present: true }),
        },
        Step::CheckRule(_, ip) => {
            lemma_looked_up(s, i, Lookup { ip: Some(ip), present: run::succeeded(reply) });
        },
        _ => {},
    }
}

proof fn lemma_advances_add(s: SyncView, reply: ReplyView)
    requires
        run::valid(s),
        s.step is AddRule || s.step is RetryRule,
    ensures
        advances(s, run::next(s, reply).state),
{
    let i = s.added.len() as int;
    lemma_lists_bounded(s);
    lemma_tried(s, i, run::succeeded(reply));
    lemma_same_facts(s, run::at(s, Step::RetryRule(i as usize)));
}

proof fn lemma_advances_change(s: SyncView, reply: ReplyView)
    requires
        run::valid(s),
        s.step is ChangePort || s.step is DeleteRule || s.step is DeleteDrop,
    ensures
        advances(s, run::next(s, reply).state),
{
    lemma_lists_bounded(s);
    match s.step {
        Step::ChangePort(i) => {
            lemma_to_changes(s, i + 1, Seq::<Seq<char>>::empty());
        },
        Step::DeleteRule(i) => {
            let rule = plan::stale(run::facts(s))[i as int];
            cache::lemma_changes_valid(s.cache, rule);
            let c = if run::succeeded(reply) {
                cache::without_rule(s.cache, rule)
            } else {
                cache::idle(s.cache)
            };
            let t = run::caching(s, c);
            lemma_same_facts(s, t);
            lemma_to_stale(t, i + 1, seq![cache::cache_text(c)]);
        },
        Step::DeleteDrop(i) => {
            lemma_to_stale_ports(s, i + 1, Seq::<Seq<char>>::empty());
        },
        _ => {},
    }
}

/// Whatever the replies are, every state of a run keeps to the limits on entries, rules and
/// results and to the order of the phases, and each reply brings the run nearer to its end.
pub proof fn law_progress(s: SyncView, reply: ReplyView)
    requires
        run::valid(s),
    ensures
        advances(s, run::next(s, reply).state),
{
    match s.step {
        Step::LoadCache
        | Step::CheckPending(_)
        | Step::RestorePending(_)
        | Step::ReadConfig
        | Step::ListRules => lemma_advances_first(s, reply),
        Step::Resolve(_) | Step::CheckRule(_, _) => lemma_advances_lookup(s, reply),
        Step::AddRule(_) | Step::RetryRule(_) => lemma_advances_add(s, reply),
        Step::ChangePort(_) | Step::DeleteRule(_) | Step::DeleteDrop(_) => {
            lemma_advances_change(s, reply);
        },
        Step::ListInput(full) => {
            let found = chain::legacy_rules(run::listing_in(reply));
            let t = SyncView { legacy: plan::migrated(run::facts(s), found), ..s };
            chain::lemma_chain_bounded(run::listing_in(reply));
            plan_laws::lemma_migrated(run::facts(s), found);
            lemma_same_facts(s, t);
            lemma_to_legacy(t, 0, full, Seq::<Seq<char>>::empty());
        },
        Step::DeleteLegacy(i, full) => {
            lemma_to_legacy(s, i + 1, full, Seq::<Seq<char>>::empty());
        },
        _ => {},
    }
}

/// The state that a reply leads to.
#[verifier::opaque]
pub open spec fn reached(s: SyncView, reply: ReplyView) -> SyncView {
    run::next(s, reply).state
}

/// The state of a run after some replies.
pub open spec fn after(replies: Seq<ReplyView>) -> SyncView
    decreases replies.len(),
{
    if replies.len() == 0 {
        run::start()
    } else {
        reached(after(replies.drop_last()), replies.last())
    }
}

proof fn lemma_reached(s: SyncView, reply: ReplyView)
    requires
        run::valid(s),
    ensures
        advances(s, reached(s, reply)),
{
    reveal(reached);
    law_progress(s, reply);
}

proof fn lemma_after(replies: Seq<ReplyView>)
    ensures
        run::valid(after(replies)),
        after(replies).step is Finished || remaining(after(replies)) <= MAX_REQUESTS
            - replies.len(),
    decreases replies.len(),
{
    if replies.len() == 0 {
        law_valid_start();
    } else {
        lemma_after(replies.drop_last());
        lemma_reached(after(replies.drop_last()), replies.last());
    }
}

/// Every state of every run is valid.
pub proof fn law_always_valid(replies: Seq<ReplyView>)
    ensures
        run::valid(after(replies)),
{
    lemma_after(replies);
}

/// Every run ends after a limited number of requests, whatever it is replied.
pub proof fn law_termination(replies: Seq<ReplyView>)
    requires
        replies.len() >= MAX_REQUESTS,
    ensures
        after(replies).step is Finished,
{
    lemma_after(replies);
    lemma_reached(after(replies), arbitrary());
}

} // verus!
