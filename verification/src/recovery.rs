//! An interrupted run is taken up again from the cache file.

use crate::addr::Rule;
use crate::cache;
use crate::cache::CacheState;
use crate::cache::CacheView;
use crate::chain;
use crate::convergence;
use crate::firewall;
use crate::firewall::ChainRule;
use crate::plan;
use crate::plan::Lookup;
use crate::progress;
use crate::run;
use crate::run::Move;
use crate::run::Outcome;
use crate::run::RecoveryView;
use crate::run::ReplyView;
use crate::run::RequestView;
use crate::run::Step;
use crate::run::SyncView;
use crate::safety;
use crate::text;
use vstd::prelude::*;

verus! {

/// The cache file after some texts were kept in it, one after the other.
pub open spec fn written(disk: Seq<char>, saves: Seq<Seq<char>>) -> Seq<char> {
    if saves.len() == 0 {
        disk
    } else {
        saves.last()
    }
}

/// The cache says what the run is about to do to a rule: nothing, unless it asks for the addition or
/// the deletion of that rule.
pub open spec fn noted(s: SyncView) -> bool {
    match s.step {
        Step::AddRule(i) => s.cache.state == CacheState::Adding && s.cache.pending == Some(
            plan::to_add(run::facts(s))[i as int],
        ),
        Step::RetryRule(i) => s.cache.state == CacheState::Adding && s.cache.pending == Some(
            plan::to_add(run::facts(s))[i as int],
        ),
        Step::DeleteRule(i) => s.cache.state == CacheState::Deleting && s.cache.pending == Some(
            plan::stale(run::facts(s))[i as int],
        ),
        Step::ReadConfig => s.cache.state == CacheState::Idle,
        Step::ListRules => s.cache.state == CacheState::Idle,
        _ => safety::adding(s.step) || safety::added(s.step) ==> s.cache.state == CacheState::Idle,
    }
}

/// The cache says what the run is about to do, and from the listing of the chain on the cache file
/// says what the cache says.
pub open spec fn on_record(s: SyncView, disk: Seq<char>) -> bool {
    &&& noted(s)
    &&& safety::adding(s.step) || safety::added(s.step) ==> disk == cache::cache_text(s.cache)
}

/// A move leaves everything on record.
pub open spec fn recorded(m: Move, disk: Seq<char>) -> bool {
    on_record(m.state, written(disk, m.saves))
}

proof fn lemma_record_legacy(s: SyncView, i: int, full: bool, saves: Seq<Seq<char>>, disk: Seq<char>)
    requires
        full ==> s.cache.state == CacheState::Idle && written(disk, saves) == cache::cache_text(
            s.cache,
        ),
    ensures
        recorded(run::to_legacy(s, i, full, saves), disk),
{
}

proof fn lemma_record_lifts(s: SyncView, i: int, saves: Seq<Seq<char>>, disk: Seq<char>)
    requires
        s.cache.state == CacheState::Idle,
        written(disk, saves) == cache::cache_text(s.cache),
    ensures
        recorded(run::to_stale_ports(s, i, saves), disk),
{
}

proof fn lemma_record_deletes(s: SyncView, i: int, saves: Seq<Seq<char>>, disk: Seq<char>)
    requires
        s.cache.state == CacheState::Idle,
        written(disk, saves) == cache::cache_text(s.cache),
        0 <= i <= plan::stale(run::facts(s)).len() <= chain::MAX_RULES,
    ensures
        recorded(run::to_stale(s, i, saves), disk),
{
    progress::lemma_same_facts(s, run::to_stale(s, i, saves).state);
    if i >= plan::stale(run::facts(s)).len() {
        lemma_record_lifts(s, 0, saves, disk);
    }
}

proof fn lemma_record_changes(s: SyncView, i: int, saves: Seq<Seq<char>>, disk: Seq<char>)
    requires
        s.cache.state == CacheState::Idle,
        written(disk, saves) == cache::cache_text(s.cache),
        plan::stale(run::facts(s)).len() <= chain::MAX_RULES,
    ensures
        recorded(run::to_changes(s, i, saves), disk),
{
    if i >= plan::changes(run::facts(s)).len() {
        lemma_record_deletes(s, 0, saves, disk);
    }
}

proof fn lemma_record_adds(s: SyncView, i: int, saves: Seq<Seq<char>>, disk: Seq<char>)
    requires
        run::bounded(s),
        run::resolving_done(s),
        s.cache.state == CacheState::Idle,
        written(disk, saves) == cache::cache_text(s.cache),
        0 <= i <= plan::to_add(run::facts(s)).len(),
    ensures
        recorded(run::to_adds(s, i, saves), disk),
{
    progress::lemma_lists_bounded(s);
    progress::lemma_same_facts(s, run::to_adds(s, i, saves).state);
    if i >= plan::to_add(run::facts(s)).len() {
        lemma_record_changes(s, 0, saves, disk);
    }
}

proof fn lemma_record_lookups(s: SyncView, i: int, saves: Seq<Seq<char>>, disk: Seq<char>)
    requires
        run::bounded(s),
        i == s.lookups.len() <= s.entries.len(),
        s.cache.state == CacheState::Idle,
        written(disk, saves) == cache::cache_text(s.cache),
    ensures
        recorded(run::to_lookups(s, i, saves), disk),
{
    if i >= s.entries.len() {
        lemma_record_adds(s, 0, saves, disk);
    }
}

#[verifier::rlimit(40)]
proof fn lemma_record_listed(s: SyncView, reply: ReplyView, disk: Seq<char>)
    requires
        run::valid(s),
        on_record(s, disk),
        s.step is ListRules,
    ensures
        recorded(run::next(s, reply), disk),
{
    let existing = chain::chain_of(run::listing_in(reply));
    let c = CacheView { rules: existing.accept, ..s.cache };
    let t = SyncView { existing, cache: c, ..s };
    chain::lemma_chain_bounded(run::listing_in(reply));
    lemma_record_lookups(t, 0, seq![cache::cache_text(c)], disk);
}

proof fn lemma_record_looked_up(s: SyncView, lookup: Lookup, disk: Seq<char>)
    requires
        run::bounded(s),
        s.lookups.len() < s.entries.len(),
        s.cache.state == CacheState::Idle,
        disk == cache::cache_text(s.cache),
    ensures
        recorded(run::looked_up(s, s.lookups.len() as int, lookup), disk),
{
    let t = SyncView { lookups: s.lookups.push(lookup), ..s };
    lemma_record_lookups(t, s.lookups.len() as int + 1, Seq::<Seq<char>>::empty(), disk);
}

#[verifier::rlimit(40)]
proof fn lemma_record_resolved(s: SyncView, reply: ReplyView, disk: Seq<char>)
    requires
        run::valid(s),
        on_record(s, disk),
        s.step is Resolve || s.step is CheckRule,
    ensures
        recorded(run::next(s, reply), disk),
{
    match s.step {
        Step::Resolve(_) => match run::address_in(reply) {
            None => lemma_record_looked_up(s, Lookup { ip: None, present: false }, disk),
            Some(ip) => lemma_record_looked_up(s, Lookup { ip: Some(ip), present: true }, disk),
        },
        Step::CheckRule(_, ip) => {
            lemma_record_looked_up(
                s,
                Lookup { ip: Some(ip), present: run::succeeded(reply) },
                disk,
            );
        },
        _ => {},
    }
}

#[verifier::rlimit(40)]
proof fn lemma_record_added(s: SyncView, reply: ReplyView, disk: Seq<char>)
    requires
        run::valid(s),
        on_record(s, disk),
        s.step is AddRule || s.step is RetryRule,
    ensures
        recorded(run::next(s, reply), disk),
{
    let f = run::facts(s);
    let i = s.added.len() as int;
    let ok = run::succeeded(reply);
    let rule = plan::to_add(f)[i];
    let c = if ok {
        cache::with_rule(s.cache, rule)
    } else {
        cache::idle(s.cache)
    };
    let t = SyncView { cache: c, added: s.added.push(ok), ..s };
    cache::lemma_changes_valid(s.cache, rule);
    plan::lemma_to_add_early(f, run::facts(t));
    lemma_record_adds(t, i + 1, seq![cache::cache_text(c)], disk);
    progress::lemma_same_facts(s, run::at(s, Step::RetryRule(i as usize)));
}

#[verifier::rlimit(40)]
proof fn lemma_record_changed(s: SyncView, reply: ReplyView, disk: Seq<char>)
    requires
        run::valid(s),
        on_record(s, disk),
        s.step is ChangePort || s.step is DeleteRule || s.step is DeleteDrop,
    ensures
        recorded(run::next(s, reply), disk),
{
    let nothing = Seq::<Seq<char>>::empty();
    progress::lemma_lists_bounded(s);
    match s.step {
        Step::ChangePort(i) => lemma_record_changes(s, i + 1, nothing, disk),
        Step::DeleteRule(i) => {
            let rule = plan::stale(run::facts(s))[i as int];
            let c = if run::succeeded(reply) {
                cache::without_rule(s.cache, rule)
            } else {
                cache::idle(s.cache)
            };
            let t = run::caching(s, c);
            progress::lemma_same_facts(s, t);
            lemma_record_deletes(t, i + 1, seq![cache::cache_text(c)], disk);
        },
        Step::DeleteDrop(i) => lemma_record_lifts(s, i + 1, nothing, disk),
        _ => {},
    }
}

proof fn lemma_record_last(s: SyncView, reply: ReplyView, disk: Seq<char>)
    requires
        on_record(s, disk),
        s.step is ListInput || s.step is DeleteLegacy || s.step is Finished,
    ensures
        recorded(run::next(s, reply), disk),
{
    match s.step {
        Step::ListInput(full) => {
            let found = chain::legacy_rules(run::listing_in(reply));
            let t = SyncView { legacy: plan::migrated(run::facts(s), found), ..s };
            lemma_record_legacy(t, 0, full, Seq::<Seq<char>>::empty(), disk);
        },
        Step::DeleteLegacy(i, full) => {
            lemma_record_legacy(s, i + 1, full, Seq::<Seq<char>>::empty(), disk);
        },
        _ => {},
    }
}

proof fn lemma_record_first(s: SyncView, reply: ReplyView, disk: Seq<char>)
    requires
        on_record(s, disk),
        s.step is ListChain || s.step is CreateChain || s.step is CheckJump || s.step is AddJump
            || s.step is LoadCache || s.step is CheckPending || s.step is RestorePending || s.step
            is ReadConfig,
    ensures
        recorded(run::next(s, reply), disk),
{
}

/// Throughout a run, before a rule is added or deleted, the cache file says so; and it says that
/// nothing is going on before the run goes on to anything else.
#[verifier::rlimit(60)]
pub proof fn law_record_kept(s: SyncView, reply: ReplyView, disk: Seq<char>)
    requires
        run::valid(s),
        on_record(s, disk),
    ensures
        recorded(run::next(s, reply), disk),
{
    match s.step {
        Step::ListRules => lemma_record_listed(s, reply, disk),
        Step::Resolve(_) | Step::CheckRule(_, _) => lemma_record_resolved(s, reply, disk),
        Step::AddRule(_) | Step::RetryRule(_) => lemma_record_added(s, reply, disk),
        Step::ChangePort(_) | Step::DeleteRule(_) | Step::DeleteDrop(_) => {
            lemma_record_changed(s, reply, disk);
        },
        Step::ListInput(_) | Step::DeleteLegacy(_, _) | Step::Finished(_) => {
            lemma_record_last(s, reply, disk);
        },
        _ => lemma_record_first(s, reply, disk),
    }
}

/// At the beginning of a run everything is on record, whatever the cache file holds.
pub proof fn law_record_start(disk: Seq<char>)
    ensures
        on_record(run::start(), disk),
{
}

/// The cache file that a reply leads to.
#[verifier::opaque]
pub open spec fn reached(s: SyncView, disk: Seq<char>, reply: ReplyView) -> Seq<char> {
    written(disk, run::next(s, reply).saves)
}

/// The cache file after some replies, when it held `disk` at the beginning of the run.
pub open spec fn disk_after(disk: Seq<char>, replies: Seq<ReplyView>) -> Seq<char>
    decreases replies.len(),
{
    if replies.len() == 0 {
        disk
    } else {
        let before = replies.drop_last();
        reached(progress::after(before), disk_after(disk, before), replies.last())
    }
}

proof fn lemma_reached(s: SyncView, disk: Seq<char>, reply: ReplyView)
    requires
        run::valid(s),
        on_record(s, disk),
    ensures
        on_record(progress::reached(s, reply), reached(s, disk, reply)),
{
    reveal(progress::reached);
    reveal(reached);
    law_record_kept(s, reply, disk);
}

/// In every run, whatever fails and whatever the cache file held, everything is on record at every
/// point.
pub proof fn law_run_on_record(disk: Seq<char>, replies: Seq<ReplyView>)
    ensures
        on_record(progress::after(replies), disk_after(disk, replies)),
    decreases replies.len(),
{
    if replies.len() == 0 {
        law_record_start(disk);
    } else {
        let before = replies.drop_last();
        law_run_on_record(disk, before);
        progress::law_always_valid(before);
        lemma_reached(progress::after(before), disk_after(disk, before), replies.last());
    }
}

// ---------------------------------------------------------------------------
// After an interruption
// ---------------------------------------------------------------------------

/// What a run does that loads the cache file `disk`.
pub open spec fn resumed(disk: Seq<char>) -> Move {
    run::next(run::at(run::start(), Step::LoadCache), ReplyView::CacheLines(text::lines_of(disk)))
}

/// When a run is interrupted while it adds a rule, the next run finds out whether the rule is in
/// force, and adds it when it is not.
pub proof fn law_interrupted_add(s: SyncView, disk: Seq<char>, rule: Rule)
    requires
        run::valid(s),
        on_record(s, disk),
        run::request_of(s) == RequestView::AddRule(rule) || run::request_of(s)
            == RequestView::RetryRule(rule),
    ensures
        run::request_of(resumed(disk).state) == RequestView::CheckPending(rule),
        run::request_of(run::next(resumed(disk).state, ReplyView::Status(false)).state)
            == RequestView::RestorePending(rule),
        resumed(disk).state.cache == s.cache,
{
    cache::law_cache_round_trip(s.cache);
}

/// When a run is interrupted while it deletes a rule, the next run leaves the rule alone until it
/// has listed the chain, and keeps that nothing is going on.
pub proof fn law_interrupted_delete(s: SyncView, disk: Seq<char>, rule: Rule)
    requires
        run::valid(s),
        on_record(s, disk),
        run::request_of(s) == RequestView::DeleteRule(rule),
    ensures
        run::request_of(resumed(disk).state) == RequestView::ReadConfig,
        resumed(disk).state.cache == cache::idle(s.cache),
        resumed(disk).saves == seq![cache::cache_text(cache::idle(s.cache))],
{
    cache::law_cache_round_trip(s.cache);
}

/// When a run is interrupted at another point behind the listing of the chain, the next run has
/// nothing to take up.
pub proof fn law_interrupted_idle(s: SyncView, disk: Seq<char>)
    requires
        run::valid(s),
        on_record(s, disk),
        safety::adding(s.step) || safety::added(s.step),
        !(s.step is AddRule),
        !(s.step is RetryRule),
        !(s.step is DeleteRule),
    ensures
        run::request_of(resumed(disk).state) == RequestView::ReadConfig,
        resumed(disk).state.cache == s.cache,
        resumed(disk).saves.len() == 0,
{
    cache::law_cache_round_trip(s.cache);
}

/// When the next run goes on to the configuration, the rule that was being added is in the chain,
/// unless a command failed; and the cache notes it, within its limit.
pub proof fn law_recovered(s: SyncView, kernel: Seq<ChainRule>, reply: ReplyView, rule: Rule)
    requires
        run::valid(s),
        s.step == Step::CheckPending(rule) || s.step == Step::RestorePending(rule),
        convergence::faithful(kernel, run::request_of(s), reply),
        run::next(s, reply).state.step is ReadConfig,
    ensures
        safety::moved(s, kernel, reply).contains(ChainRule::Accept(rule)),
        run::next(s, reply).state.cache == cache::with_rule(s.cache, rule),
{
    firewall::lemma_in_front(kernel, ChainRule::Accept(rule));
}

/// What is done about a cache that a run left behind: nothing, when nothing was going on; the pending
/// rule is looked for when it was to be added, and added when it is not found; in every other case the
/// cache says that nothing is going on, and notes the rule when it was found or added, within its limit.
pub proof fn law_recovery(c: CacheView, checked: Option<bool>, added: Option<bool>, rule: Rule)
    requires
        cache::valid(c),
    ensures
        run::recovery(c, checked, added) is Nothing <==> c.state == CacheState::Idle,
        run::recovery(c, checked, added) == RecoveryView::Check(rule) <==> c.state
            == CacheState::Adding && c.pending == Some(rule) && checked is None,
        run::recovery(c, checked, added) == RecoveryView::Add(rule) <==> c.state
            == CacheState::Adding && c.pending == Some(rule) && checked == Some(false)
            && added is None,
        run::recovery(c, checked, added) matches RecoveryView::Settled(d) ==> {
            &&& d.state == CacheState::Idle
            &&& d.pending is None
            &&& c.rules.contains(rule) ==> d.rules.contains(rule)
            &&& d.rules.contains(rule) && !c.rules.contains(rule) ==> c.state == CacheState::Adding
                && c.pending == Some(rule) && (checked == Some(true) || added == Some(true))
            &&& c.state == CacheState::Adding && c.pending == Some(rule) && (checked == Some(true)
                || added == Some(true)) ==> d.rules.contains(rule) || c.rules.len() == 100
        },
{
    if let Some(pending) = c.pending {
        cache::law_cache_changes(c, pending, rule);
    }
}

/// When the rule that was being added is not in force and cannot be added, the next run goes on all the
/// same, and keeps that nothing is going on; the rules that the cache noted stay.
pub proof fn law_recovery_failed(s: SyncView, reply: ReplyView, rule: Rule)
    requires
        run::valid(s),
        s.step == Step::RestorePending(rule),
        !run::succeeded(reply),
    ensures
        run::request_of(run::next(s, reply).state) == RequestView::ReadConfig,
        run::next(s, reply).state.cache.state == CacheState::Idle,
        run::next(s, reply).state.cache.pending is None,
        run::next(s, reply).state.cache.rules == s.cache.rules,
        run::next(s, reply).saves == seq![cache::cache_text(run::next(s, reply).state.cache)],
{
}

// ---------------------------------------------------------------------------
// The rules that the cache notes
// ---------------------------------------------------------------------------

/// The rules that the cache notes are those of the chain when it was listed.
#[verifier::rlimit(60)]
pub proof fn law_cache_listed(s: SyncView, reply: ReplyView, output: Seq<char>)
    requires
        run::valid(s),
        s.step is ListRules,
        s.entries.len() > 0,
        run::listing_in(reply) == Some(output),
    ensures
        run::next(s, reply).state.cache.rules == chain::chain_of(Some(output)).accept,
{
    assert(run::next(s, reply).state.step is Resolve);
}

/// The deletion of a rule, as the cache notes it.
#[verifier::rlimit(60)]
pub proof fn law_cache_deleted(s: SyncView, reply: ReplyView, rule: Rule, other: Rule)
    requires
        run::valid(s),
        run::request_of(s) == RequestView::DeleteRule(rule),
    ensures
        run::succeeded(reply) ==> (run::next(s, reply).state.cache.rules.contains(other)
            <==> s.cache.rules.contains(other) && other != rule),
        !run::succeeded(reply) ==> run::next(s, reply).state.cache.rules == s.cache.rules,
{
    cache::law_cache_changes(s.cache, rule, other);
}

/// The addition of a rule, as the cache notes it: within its limit of 100 rules the rule is noted, when
/// it could be added, and the others stay.
#[verifier::rlimit(60)]
pub proof fn law_cache_added(s: SyncView, reply: ReplyView, rule: Rule, other: Rule)
    requires
        run::valid(s),
        run::request_of(s) == RequestView::AddRule(rule) || run::request_of(s)
            == RequestView::RetryRule(rule),
    ensures
        run::succeeded(reply) ==> run::next(s, reply).state.cache.rules.contains(rule)
            || s.cache.rules.len() == 100,
        s.cache.rules.contains(other) ==> run::next(s, reply).state.cache.rules.contains(other),
        !run::succeeded(reply) ==> run::next(s, reply).state.cache.rules == s.cache.rules,
{
    cache::law_cache_changes(s.cache, rule, other);
}

/// A complete run leaves the cache idle.
pub proof fn law_cache_idle(s: SyncView, reply: ReplyView)
    requires
        run::valid(s),
        !(s.step is Finished),
        run::next(s, reply).state.step == Step::Finished(Outcome::Complete),
    ensures
        run::next(s, reply).state.cache == cache::idle(s.cache),
        run::next(s, reply).saves.len() > 0,
        run::next(s, reply).saves.last() == cache::cache_text(cache::idle(s.cache)),
{
}

} // verus!
