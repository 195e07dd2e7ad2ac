//! A run that follows on a complete one, with the same names and addresses, leaves everything alone.

use crate::addr::Rule;
use crate::cache;
use crate::cache::CacheState;
use crate::chain;
use crate::convergence;
use crate::firewall;
use crate::firewall::ChainRule;
use crate::firewall::InputRule;
use crate::plan;
use crate::plan::Lookup;
use crate::plan_laws;
use crate::progress;
use crate::recovery;
use crate::run;
use crate::run::Outcome;
use crate::run::ReplyView;
use crate::run::Step;
use crate::run::SyncView;
use crate::safety;
use crate::text;
use vstd::prelude::*;

verus! {

/// What a run is replied that follows on the run that ended in the state `first` and left the cache
/// file `disk`: no command fails, and every reply about the chain and about `INPUT` is true; the chain
/// is there; the cache file, the entries and their addresses are those of the first run.
pub open spec fn repeats(
    first: SyncView,
    disk: Seq<char>,
    input: Seq<InputRule>,
    kernel: Seq<ChainRule>,
    s: SyncView,
    reply: ReplyView,
) -> bool {
    &&& convergence::faithful(kernel, run::request_of(s), reply)
    &&& match s.step {
        Step::ListChain => run::listing_in(reply) is Some,
        Step::CheckJump => reply == ReplyView::Status(input.contains(InputRule::Jump)),
        Step::LoadCache => reply == ReplyView::CacheLines(text::lines_of(disk)),
        Step::ReadConfig => run::entries_in(reply) == Some(first.entries),
        Step::Resolve(i) => run::address_in(reply) == first.lookups[i as int].ip,
        Step::ListInput(_) => forall|rule: Rule| #[trigger]
            chain::legacy_rules(run::listing_in(reply)).contains(rule) ==> input.contains(
                InputRule::Legacy(rule),
            ),
        _ => true,
    }
}

/// What the first run ended in and left behind: it is complete, no rule was refused, the chain is as
/// it is to be and holds no rule twice, and the cache file says that nothing is going on.
pub open spec fn ended(first: SyncView, disk: Seq<char>, kernel: Seq<ChainRule>) -> bool {
    &&& plan::complete(run::facts(first))
    &&& convergence::unrefused(run::facts(first))
    &&& convergence::settled(run::facts(first), kernel)
    &&& cache::cache_of(text::lines_of(disk)).state == CacheState::Idle
}

/// `INPUT` leads to the chain and holds no rule of an earlier release.
pub open spec fn migrated(input: Seq<InputRule>) -> bool {
    input.contains(InputRule::Jump) && forall|rule: Rule|
        !#[trigger] input.contains(InputRule::Legacy(rule))
}

/// The entries were looked up so far with the addresses of the first run.
pub open spec fn looked_up_alike(first: SyncView, s: SyncView) -> bool {
    &&& s.entries == first.entries
    &&& s.lookups.len() <= first.lookups.len()
    &&& forall|i: int|
        0 <= i < s.lookups.len() ==> (#[trigger] s.lookups[i]).ip == first.lookups[i].ip
}

/// The second run has asked for no change and has found what the first run found.
pub open spec fn quiet(first: SyncView, s: SyncView) -> bool {
    match s.step {
        Step::ListChain => true,
        Step::CheckJump => true,
        Step::LoadCache => true,
        Step::ReadConfig => true,
        Step::ListRules => s.entries == first.entries && s.entries.len() > 0,
        Step::Resolve(_) => looked_up_alike(first, s),
        Step::CheckRule(i, ip) => looked_up_alike(first, s) && Some(ip) == first.lookups[i as int].ip,
        Step::ListInput(_) => true,
        Step::Finished(_) => true,
        _ => false,
    }
}

/// One more entry was looked up, with the address of the first run.
#[verifier::rlimit(40)]
proof fn lemma_quiet_looked_up(
    first: SyncView,
    disk: Seq<char>,
    s: SyncView,
    kernel: Seq<ChainRule>,
    lookup: Lookup,
)
    requires
        ended(first, disk, kernel),
        s.step is Resolve || s.step is CheckRule,
        run::valid(s),
        convergence::tracks(s, kernel),
        looked_up_alike(first, s),
        lookup.ip == first.lookups[s.lookups.len() as int].ip,
        convergence::tracks(
            run::looked_up(s, s.lookups.len() as int, lookup).state,
            kernel,
        ),
    ensures
        quiet(first, run::looked_up(s, s.lookups.len() as int, lookup).state),
{
    let i = s.lookups.len() as int;
    let t = SyncView { lookups: s.lookups.push(lookup), ..s };
    let u = run::looked_up(s, i, lookup).state;
    assert forall|k: int| 0 <= k < t.lookups.len() implies (#[trigger] t.lookups[k]).ip
        == first.lookups[k].ip by {
        if k < i {
            assert(t.lookups[k] == s.lookups[k]);
        }
    }
    assert(looked_up_alike(first, t));
    progress::lemma_same_facts(t, u);
    if i + 1 >= s.entries.len() {
        lemma_nothing_left(first, disk, s, t, u, kernel);
    }
}

/// Once every entry was looked up, nothing is to be done.
proof fn lemma_nothing_left(
    first: SyncView,
    disk: Seq<char>,
    s: SyncView,
    t: SyncView,
    u: SyncView,
    kernel: Seq<ChainRule>,
)
    requires
        ended(first, disk, kernel),
        s.step is Resolve || s.step is CheckRule,
        convergence::tracks(s, kernel),
        t.existing == s.existing,
        looked_up_alike(first, t),
        t.lookups.len() == t.entries.len(),
        run::facts(u) == run::facts(t),
        safety::adding(u.step) || safety::added(u.step),
        convergence::tracks(u, kernel),
    ensures
        plan::to_add(run::facts(t)).len() == 0,
        plan::changes(run::facts(t)).len() == 0,
        plan::stale(run::facts(t)).len() == 0,
        plan::stale_ports(run::facts(t)).len() == 0,
{
    let f = run::facts(first);
    let g = run::facts(t);
    reveal(convergence::follows);
    convergence::lemma_found(s, kernel);
    assert(convergence::accurate(g));
    assert(convergence::found_again(f, g, kernel));
    convergence::law_idempotent(f, g, kernel);
}

#[verifier::rlimit(60)]
proof fn lemma_quiet_lookup(
    first: SyncView,
    disk: Seq<char>,
    input: Seq<InputRule>,
    s: SyncView,
    kernel: Seq<ChainRule>,
    reply: ReplyView,
)
    requires
        ended(first, disk, kernel),
        run::valid(s),
        convergence::tracks(s, kernel),
        quiet(first, s),
        s.step is Resolve || s.step is CheckRule,
        repeats(first, disk, input, kernel, s, reply),
    ensures
        quiet(first, run::next(s, reply).state),
{
    let i = s.lookups.len() as int;
    convergence::law_tracks_kept(s, kernel, reply);
    assert(safety::moved(s, kernel, reply) == kernel);
    match s.step {
        Step::Resolve(_) => match run::address_in(reply) {
            None => {
                lemma_quiet_looked_up(first, disk, s, kernel, Lookup { ip: None, present: false });
            },
            Some(ip) => if s.existing.accept.contains(run::entry_rule(s, i, ip)) {
                lemma_quiet_looked_up(
                    first,
                    disk,
                    s,
                    kernel,
                    Lookup { ip: Some(ip), present: true },
                );
            } else {
            },
        },
        Step::CheckRule(_, ip) => {
            lemma_quiet_looked_up(
                first,
                disk,
                s,
                kernel,
                Lookup { ip: Some(ip), present: run::succeeded(reply) },
            );
        },
        _ => {},
    }
}

#[verifier::rlimit(60)]
proof fn lemma_quiet_other(
    first: SyncView,
    disk: Seq<char>,
    input: Seq<InputRule>,
    s: SyncView,
    kernel: Seq<ChainRule>,
    reply: ReplyView,
)
    requires
        ended(first, disk, kernel),
        migrated(input),
        run::valid(s),
        quiet(first, s),
        !(s.step is Resolve),
        !(s.step is CheckRule),
        !(s.step is ListRules),
        repeats(first, disk, input, kernel, s, reply),
    ensures
        quiet(first, run::next(s, reply).state),
{
    match s.step {
        Step::ListInput(_) => {
            let found = chain::legacy_rules(run::listing_in(reply));
            let gone = plan::migrated(run::facts(s), found);
            plan_laws::lemma_migrated(run::facts(s), found);
            if gone.len() > 0 {
                assert(gone.contains(gone[0]));
                assert(found.contains(gone[0]));
                assert(input.contains(InputRule::Legacy(gone[0])));
            }
        },
        _ => {},
    }
}

#[verifier::rlimit(60)]
proof fn lemma_quiet_listed(
    first: SyncView,
    disk: Seq<char>,
    input: Seq<InputRule>,
    s: SyncView,
    kernel: Seq<ChainRule>,
    reply: ReplyView,
)
    requires
        ended(first, disk, kernel),
        run::valid(s),
        quiet(first, s),
        s.step is ListRules,
        repeats(first, disk, input, kernel, s, reply),
    ensures
        quiet(first, run::next(s, reply).state),
{
}

/// Throughout the second run nothing is asked for that changes anything.
#[verifier::rlimit(40)]
proof fn lemma_quiet(
    first: SyncView,
    disk: Seq<char>,
    input: Seq<InputRule>,
    s: SyncView,
    kernel: Seq<ChainRule>,
    reply: ReplyView,
)
    requires
        ended(first, disk, kernel),
        migrated(input),
        run::valid(s),
        convergence::tracks(s, kernel),
        quiet(first, s),
        repeats(first, disk, input, kernel, s, reply),
    ensures
        quiet(first, progress::reached(s, reply)),
        convergence::tracks(progress::reached(s, reply), kernel),
        safety::reached(s, kernel, reply) == kernel,
        safety::input_reached(s, input, reply) == input,
{
    reveal(progress::reached);
    reveal(safety::reached);
    reveal(safety::input_reached);
    lemma_unchanging(first, s);
    convergence::law_tracks_kept(s, kernel, reply);
    match s.step {
        Step::Resolve(_) | Step::CheckRule(_, _) => {
            lemma_quiet_lookup(first, disk, input, s, kernel, reply);
        },
        Step::ListRules => lemma_quiet_listed(first, disk, input, s, kernel, reply),
        _ => lemma_quiet_other(first, disk, input, s, kernel, reply),
    }
}

/// A state in which nothing was asked for that changes anything asks for no such thing.
proof fn lemma_unchanging(first: SyncView, s: SyncView)
    requires
        quiet(first, s),
    ensures
        !firewall::changing(run::request_of(s)),
{
}

/// What the whole second run is replied.
pub open spec fn all_repeated(
    first: SyncView,
    disk: Seq<char>,
    input: Seq<InputRule>,
    kernel: Seq<ChainRule>,
    replies: Seq<ReplyView>,
) -> bool
    decreases replies.len(),
{
    replies.len() == 0 || {
        let before = replies.drop_last();
        &&& all_repeated(first, disk, input, kernel, before)
        &&& repeats(
            first,
            disk,
            safety::input_after(input, before),
            safety::chain_after(kernel, before),
            progress::after(before),
            replies.last(),
        )
    }
}

proof fn lemma_all_quiet(
    first: SyncView,
    disk: Seq<char>,
    input: Seq<InputRule>,
    kernel: Seq<ChainRule>,
    replies: Seq<ReplyView>,
)
    requires
        ended(first, disk, kernel),
        kernel.no_duplicates(),
        migrated(input),
        all_repeated(first, disk, input, kernel, replies),
    ensures
        quiet(first, progress::after(replies)),
        convergence::tracks(progress::after(replies), kernel),
        safety::chain_after(kernel, replies) == kernel,
        safety::input_after(input, replies) == input,
    decreases replies.len(),
{
    if replies.len() == 0 {
        convergence::law_tracks_start(kernel);
    } else {
        let before = replies.drop_last();
        lemma_all_quiet(first, disk, input, kernel, before);
        progress::law_always_valid(before);
        lemma_quiet(first, disk, input, progress::after(before), kernel, replies.last());
    }
}

/// After a complete run in which no command failed, a run with the same entries and addresses only
/// lists and looks: at no point does it ask for anything that changes something, and the chain and
/// `INPUT` stay as they are, rule for rule. `INPUT` leads to the chain and holds no rule of an earlier
/// release when the second run begins.
pub proof fn law_run_idempotent(
    kernel: Seq<ChainRule>,
    disk: Seq<char>,
    replies: Seq<ReplyView>,
    input: Seq<InputRule>,
    later: Seq<ReplyView>,
)
    requires
        kernel.no_duplicates(),
        convergence::all_faithful(kernel, replies),
        progress::after(replies).step == Step::Finished(Outcome::Complete),
        migrated(input),
        all_repeated(
            progress::after(replies),
            recovery::disk_after(disk, replies),
            input,
            safety::chain_after(kernel, replies),
            later,
        ),
    ensures
        !firewall::changing(run::request_of(progress::after(later))),
        safety::chain_after(safety::chain_after(kernel, replies), later) == safety::chain_after(
            kernel,
            replies,
        ),
        safety::input_after(input, later) == input,
{
    let first = progress::after(replies);
    let left = safety::chain_after(kernel, replies);
    let kept = recovery::disk_after(disk, replies);
    convergence::law_run_converges(kernel, replies);
    recovery::law_run_on_record(disk, replies);
    progress::law_always_valid(replies);
    cache::law_cache_round_trip(first.cache);
    assert(ended(first, kept, left));
    lemma_all_quiet(first, kept, input, left, later);
    lemma_unchanging(first, progress::after(later));
}

} // verus!
