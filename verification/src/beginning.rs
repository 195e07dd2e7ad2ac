//! How a run begins and how it may end early: without the chain, and without the rule that leads to it,
//! nothing is done.

use crate::addr::Ipv4Addr;
use crate::addr::Rule;
use crate::cache;
use crate::cache::CacheView;
use crate::chain;
use crate::plan;
use crate::plan::Lookup;
use crate::progress;
use crate::run;
use crate::run::Outcome;
use crate::run::ReplyView;
use crate::run::RequestView;
use crate::run::Step;
use crate::run::SyncView;
use vstd::prelude::*;

verus! {

// ---------------------------------------------------------------------------
// What comes before the configuration
// ---------------------------------------------------------------------------

/// The reply says that a listing was made.
pub open spec fn is_listing(reply: ReplyView) -> bool {
    match reply {
        ReplyView::Listing(Some(_)) => true,
        _ => false,
    }
}

/// The reply says that the chain is there, or that it was created.
pub open spec fn shows_chain(request: RequestView, reply: ReplyView) -> bool {
    match request {
        RequestView::ListChain => is_listing(reply),
        RequestView::CreateChain => reply == ReplyView::Status(true),
        _ => false,
    }
}

/// The reply says that `INPUT` leads to the chain, or was made to lead to it.
pub open spec fn shows_jump(request: RequestView, reply: ReplyView) -> bool {
    match request {
        RequestView::CheckJump => reply == ReplyView::Status(true),
        RequestView::AddJump => reply == ReplyView::Status(true),
        _ => false,
    }
}

/// The request that reply `i` was given to.
pub open spec fn asked(replies: Seq<ReplyView>, i: int) -> RequestView {
    run::request_of(progress::after(replies.take(i)))
}

/// Reply `i` said that the chain is there, or that it was created.
pub open spec fn chain_there(replies: Seq<ReplyView>, i: int) -> bool {
    0 <= i < replies.len() && shows_chain(asked(replies, i), replies[i])
}

/// Reply `i` said that `INPUT` leads to the chain, or was made to lead to it.
pub open spec fn jump_there(replies: Seq<ReplyView>, i: int) -> bool {
    0 <= i < replies.len() && shows_jump(asked(replies, i), replies[i])
}

/// Reply `i` gave the cache that an earlier run left behind.
pub open spec fn cache_there(replies: Seq<ReplyView>, i: int) -> bool {
    0 <= i < replies.len() && asked(replies, i) == RequestView::LoadCache
}

/// A request that is made only when there is the chain.
pub open spec fn needs_chain(request: RequestView) -> bool {
    !(request is ListChain) && !(request is CreateChain) && request != RequestView::Finish(
        Outcome::ChainFailed,
    )
}

/// A request that is made only when `INPUT` leads to the chain.
pub open spec fn needs_jump(request: RequestView) -> bool {
    needs_chain(request) && !(request is CheckJump) && !(request is AddJump) && request
        != RequestView::Finish(Outcome::JumpFailed)
}

/// A request that is made only when the cache was read.
pub open spec fn needs_cache(request: RequestView) -> bool {
    needs_jump(request) && !(request is LoadCache)
}

#[verifier::rlimit(40)]
proof fn lemma_needs(s: SyncView, reply: ReplyView)
    ensures
        ({
            let before = run::request_of(s);
            let request = run::request_of(progress::reached(s, reply));
            &&& needs_chain(request) ==> needs_chain(before) || shows_chain(before, reply)
            &&& needs_jump(request) ==> needs_jump(before) || shows_jump(before, reply)
            &&& needs_cache(request) ==> needs_cache(before) || before is LoadCache
        }),
{
    reveal(progress::reached);
}

/// The chain is changed, the configuration is read and anything else is asked for only after the chain
/// was found or created, `INPUT` was found or made to lead to it, and the cache of the run before was
/// read.
pub proof fn law_run_in_place(replies: Seq<ReplyView>)
    ensures
        needs_chain(run::request_of(progress::after(replies))) ==> exists|i: int|
            chain_there(replies, i),
        needs_jump(run::request_of(progress::after(replies))) ==> exists|i: int|
            jump_there(replies, i),
        needs_cache(run::request_of(progress::after(replies))) ==> exists|i: int|
            cache_there(replies, i),
    decreases replies.len(),
{
    if replies.len() > 0 {
        let before = replies.drop_last();
        let last = replies.len() - 1;
        law_run_in_place(before);
        lemma_needs(progress::after(before), replies.last());
        assert(replies.take(last) =~= before);
        assert forall|i: int| 0 <= i < last implies asked(before, i) == #[trigger] asked(
            replies,
            i,
        ) && before[i] == replies[i] by {
            assert(before.take(i) =~= replies.take(i));
        }
        let request = run::request_of(progress::after(replies));
        if needs_chain(request) {
            if needs_chain(run::request_of(progress::after(before))) {
                let i = choose|i: int| chain_there(before, i);
                assert(asked(before, i) == asked(replies, i));
                assert(chain_there(replies, i));
            } else {
                assert(chain_there(replies, last));
            }
        }
        if needs_jump(request) {
            if needs_jump(run::request_of(progress::after(before))) {
                let i = choose|i: int| jump_there(before, i);
                assert(asked(before, i) == asked(replies, i));
                assert(jump_there(replies, i));
            } else {
                assert(jump_there(replies, last));
            }
        }
        if needs_cache(request) {
            if needs_cache(run::request_of(progress::after(before))) {
                let i = choose|i: int| cache_there(before, i);
                assert(asked(before, i) == asked(replies, i));
                assert(cache_there(replies, i));
            } else {
                assert(cache_there(replies, last));
            }
        }
    }
}

// ---------------------------------------------------------------------------
// What is done only when something is missing
// ---------------------------------------------------------------------------

/// A step behind the listing of the rules of the chain, up to the listing of `INPUT`.
pub open spec fn under_way(step: Step) -> bool {
    match step {
        Step::Resolve(_) => true,
        Step::CheckRule(_, _) => true,
        Step::AddRule(_) => true,
        Step::RetryRule(_) => true,
        Step::ChangePort(_) => true,
        Step::DeleteRule(_) => true,
        Step::DeleteDrop(_) => true,
        Step::ListInput(_) => true,
        _ => false,
    }
}

/// A step behind the listing of the rules of the chain, or the end of a run that went through.
pub open spec fn late(step: Step) -> bool {
    match step {
        Step::DeleteLegacy(_, _) => true,
        Step::Finished(outcome) => outcome == Outcome::Complete || outcome == Outcome::NoEntries,
        _ => under_way(step),
    }
}

proof fn lemma_under_way_stale(s: SyncView, i: int, saves: Seq<Seq<char>>)
    ensures
        under_way(run::to_stale(s, i, saves).state.step),
        !(run::to_stale(s, i, saves).state.step is CheckRule),
{
}

proof fn lemma_under_way_changes(s: SyncView, i: int, saves: Seq<Seq<char>>)
    ensures
        under_way(run::to_changes(s, i, saves).state.step),
        !(run::to_changes(s, i, saves).state.step is CheckRule),
{
    lemma_under_way_stale(s, 0, saves);
}

proof fn lemma_under_way_adds(s: SyncView, i: int, saves: Seq<Seq<char>>)
    ensures
        under_way(run::to_adds(s, i, saves).state.step),
        !(run::to_adds(s, i, saves).state.step is CheckRule),
{
    lemma_under_way_changes(s, 0, saves);
}

proof fn lemma_under_way_lookups(s: SyncView, i: int, saves: Seq<Seq<char>>)
    ensures
        under_way(run::to_lookups(s, i, saves).state.step),
        !(run::to_lookups(s, i, saves).state.step is CheckRule),
{
    lemma_under_way_adds(s, 0, saves);
}

/// Only the listing of `INPUT` leads on to the removals and to the end.
pub proof fn lemma_under_way(s: SyncView, reply: ReplyView)
    requires
        under_way(s.step) && !(s.step is ListInput) || s.step is ListRules && is_listing(reply),
    ensures
        under_way(progress::reached(s, reply).step),
{
    reveal(progress::reached);
    let none = Seq::<Seq<char>>::empty();
    match s.step {
        Step::ListRules => {
            let existing = chain::chain_of(run::listing_in(reply));
            let c = CacheView { rules: existing.accept, ..s.cache };
            lemma_under_way_lookups(
                SyncView { existing, cache: c, ..s },
                0,
                seq![cache::cache_text(c)],
            );
        },
        Step::Resolve(i) => {
            if let Some(ip) = run::address_in(reply) {
                let lookup = Lookup { ip: Some(ip), present: true };
                lemma_under_way_lookups(SyncView { lookups: s.lookups.push(lookup), ..s }, i + 1, none);
            } else {
                let lookup = Lookup { ip: None, present: false };
                lemma_under_way_lookups(SyncView { lookups: s.lookups.push(lookup), ..s }, i + 1, none);
            }
        },
        Step::CheckRule(i, ip) => {
            let lookup = Lookup { ip: Some(ip), present: run::succeeded(reply) };
            lemma_under_way_lookups(SyncView { lookups: s.lookups.push(lookup), ..s }, i + 1, none);
        },
        Step::AddRule(i) => {
            lemma_under_way_tried(s, i as int, true);
        },
        Step::RetryRule(i) => {
            lemma_under_way_tried(s, i as int, run::succeeded(reply));
        },
        Step::ChangePort(i) => {
            lemma_under_way_changes(s, i + 1, none);
        },
        Step::DeleteRule(i) => {
            let c = if run::succeeded(reply) {
                cache::without_rule(s.cache, plan::stale(run::facts(s))[i as int])
            } else {
                cache::idle(s.cache)
            };
            lemma_under_way_stale(run::caching(s, c), i + 1, seq![cache::cache_text(c)]);
        },
        _ => {},
    }
}

/// What is late stays late.
proof fn lemma_late(s: SyncView, reply: ReplyView)
    requires
        late(s.step) || s.step is ListRules && is_listing(reply),
    ensures
        late(progress::reached(s, reply).step),
{
    if s.step is ListInput || s.step is DeleteLegacy || s.step is Finished {
        reveal(progress::reached);
    } else {
        lemma_under_way(s, reply);
    }
}


proof fn lemma_under_way_tried(s: SyncView, i: int, ok: bool)
    ensures
        under_way(run::tried(s, i, ok).state.step),
{
    let rule = plan::to_add(run::facts(s))[i];
    let c = if ok {
        cache::with_rule(s.cache, rule)
    } else {
        cache::idle(s.cache)
    };
    lemma_under_way_adds(
        SyncView { cache: c, added: s.added.push(ok), ..s },
        i + 1,
        seq![cache::cache_text(c)],
    );
}

/// The request of a late step is none of the first ones, and does not give up.
proof fn lemma_late_request(s: SyncView)
    requires
        late(s.step),
    ensures
        needs_cache(run::request_of(s)),
        !(run::request_of(s) is ReadConfig),
        !(run::request_of(s) is ListRules),
        run::request_of(s) != RequestView::Finish(Outcome::ConfigUnread),
        run::request_of(s) != RequestView::Finish(Outcome::ListFailed),
{
}

/// The chain is created exactly when it could not be listed, and `INPUT` is made to lead to it exactly
/// when it does not yet.
pub proof fn law_created_when_missing(s: SyncView, reply: ReplyView)
    ensures
        run::request_of(run::start()) == RequestView::ListChain,
        run::request_of(progress::reached(s, reply)) == RequestView::CreateChain
            <==> run::request_of(s) == RequestView::ListChain && !is_listing(reply),
        run::request_of(progress::reached(s, reply)) == RequestView::AddJump <==> run::request_of(s)
            == RequestView::CheckJump && reply != ReplyView::Status(true),
{
    if late(s.step) || s.step is ListRules && is_listing(reply) {
        lemma_late(s, reply);
        lemma_late_request(progress::reached(s, reply));
        if late(s.step) {
            lemma_late_request(s);
        }
    } else {
        lemma_early(s, reply);
    }
}

/// Whether a rule is in force is asked exactly when a name has its address and the listing of the chain
/// did not show it.
pub proof fn law_checked_when_unlisted(s: SyncView, reply: ReplyView, ip: Ipv4Addr)
    requires
        run::valid(s),
        s.step is Resolve,
        run::address_in(reply) == Some(ip),
    ensures
        ({
            let rule = Rule { ip, port: s.entries[s.lookups.len() as int].port };
            if s.existing.accept.contains(rule) {
                !(run::request_of(progress::reached(s, reply)) is CheckRule)
            } else {
                run::request_of(progress::reached(s, reply)) == RequestView::CheckRule(rule)
            }
        }),
{
    reveal(progress::reached);
    if let Step::Resolve(i) = s.step {
        if s.existing.accept.contains(run::entry_rule(s, i as int, ip)) {
            let lookup = Lookup { ip: Some(ip), present: true };
            let t = SyncView { lookups: s.lookups.push(lookup), ..s };
            lemma_under_way_lookups(t, i + 1, Seq::<Seq<char>>::empty());
        }
    }
}

/// A run gives up exactly when one of these cannot be had: the chain, the rule that leads to it, the
/// configuration, or the rules of the chain.
pub proof fn law_given_up(s: SyncView, reply: ReplyView)
    requires
        !(run::request_of(s) is Finish),
    ensures
        run::request_of(progress::reached(s, reply)) == RequestView::Finish(Outcome::ChainFailed)
            <==> run::request_of(s) == RequestView::CreateChain && reply != ReplyView::Status(true),
        run::request_of(progress::reached(s, reply)) == RequestView::Finish(Outcome::JumpFailed)
            <==> run::request_of(s) == RequestView::AddJump && reply != ReplyView::Status(true),
        run::request_of(progress::reached(s, reply)) == RequestView::Finish(Outcome::ConfigUnread)
            <==> run::request_of(s) == RequestView::ReadConfig && !(reply matches ReplyView::Config(
            Some(_),
        )),
        run::request_of(progress::reached(s, reply)) == RequestView::Finish(Outcome::ListFailed)
            <==> run::request_of(s) == RequestView::ListRules && !is_listing(reply),
{
    if late(s.step) || s.step is ListRules && is_listing(reply) {
        lemma_late(s, reply);
        lemma_late_request(progress::reached(s, reply));
        if late(s.step) {
            lemma_late_request(s);
        }
    } else {
        lemma_early(s, reply);
    }
}

/// Where the first steps lead.
pub proof fn lemma_early(s: SyncView, reply: ReplyView)
    requires
        !late(s.step),
        !(s.step is ListRules && is_listing(reply)),
    ensures
        ({
            let t = progress::reached(s, reply).step;
            match s.step {
                Step::ListChain => t == if is_listing(reply) {
                    Step::CheckJump
                } else {
                    Step::CreateChain
                },
                Step::CreateChain => t == if reply == ReplyView::Status(true) {
                    Step::CheckJump
                } else {
                    Step::Finished(Outcome::ChainFailed)
                },
                Step::CheckJump => t == if reply == ReplyView::Status(true) {
                    Step::LoadCache
                } else {
                    Step::AddJump
                },
                Step::AddJump => t == if reply == ReplyView::Status(true) {
                    Step::LoadCache
                } else {
                    Step::Finished(Outcome::JumpFailed)
                },
                Step::ReadConfig => if reply matches ReplyView::Config(Some(_)) {
                    t is ListInput || t is ListRules
                } else {
                    t == Step::Finished(Outcome::ConfigUnread)
                },
                Step::ListRules => t == Step::Finished(Outcome::ListFailed),
                Step::Finished(_) => t == s.step,
                _ => t is CheckPending || t is RestorePending || t is ReadConfig,
            }
        }),
{
    reveal(progress::reached);
}

} // verus!
