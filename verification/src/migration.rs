//! What becomes of the rules that earlier releases left in `INPUT`.

use crate::addr::Rule;
use crate::beginning;
use crate::chain;
use crate::convergence;
use crate::firewall;
use crate::firewall::ChainRule;
use crate::firewall::InputRule;
use crate::lists;
use crate::outcome;
use crate::outcome::World;
use crate::plan;
use crate::plan_laws;
use crate::progress;
use crate::run;
use crate::run::Outcome;
use crate::run::ReplyView;
use crate::run::RequestView;
use crate::run::Step;
use crate::run::SyncView;
use crate::safety;
use crate::text;
use vstd::prelude::*;

verus! {

// ---------------------------------------------------------------------------
// The listing of `INPUT`
// ---------------------------------------------------------------------------

/// What is read from the listing is every rule of an earlier release that `INPUT` holds, as often as it
/// holds it.
pub open spec fn shows_legacy(output: Seq<char>, input: Seq<InputRule>) -> bool {
    forall|rule: Rule| #[trigger]
        lists::times(chain::legacy_rules(Some(output)), rule) == lists::times(
            input,
            InputRule::Legacy(rule),
        )
}

/// The line is how a listing shows the rule of `INPUT`: a rule of an earlier release in the words in
/// which it was added, any other rule in words that are not taken for such a rule.
pub open spec fn line_shows(line: Seq<char>, x: InputRule) -> bool {
    match x {
        InputRule::Legacy(rule) => line == text::joined(
            firewall::accept_words("INPUT"@, rule),
            ' ',
        ),
        _ => chain::legacy_of(line) is None,
    }
}

/// What one more line of a listing shows.
proof fn lemma_line_more(lines: Seq<Seq<char>>, n: int, rule: Rule)
    requires
        0 <= n < lines.len(),
    ensures
        lists::times(chain::legacy_in(lines.take(n + 1)), rule) == lists::times(
            chain::legacy_in(lines.take(n)),
            rule,
        ) + if chain::legacy_of(lines[n]) == Some(rule) {
            1nat
        } else {
            0nat
        },
{
    let f = |line: Seq<char>| chain::legacy_of(line);
    chain::lemma_filter_map_step(lines, f, n);
    if let Some(found) = chain::legacy_of(lines[n]) {
        lists::lemma_times_push(chain::legacy_in(lines.take(n)), found, rule);
    }
}

proof fn lemma_lines_show(lines: Seq<Seq<char>>, input: Seq<InputRule>, n: int, rule: Rule)
    requires
        lines.len() == input.len() + 1,
        chain::legacy_of(lines[0]) is None,
        forall|i: int| 0 <= i < input.len() ==> line_shows(lines[i + 1], #[trigger] input[i]),
        0 <= n <= input.len(),
    ensures
        lists::times(chain::legacy_in(lines.take(n + 1)), rule) == lists::times(
            input.take(n),
            InputRule::Legacy(rule),
        ),
    decreases n,
{
    lemma_line_more(lines, n, rule);
    if n == 0 {
        assert(lines.take(0) =~= Seq::<Seq<char>>::empty());
        assert(chain::legacy_in(lines.take(0)) =~= Seq::<Rule>::empty());
        assert(input.take(0) =~= Seq::<InputRule>::empty());
    } else {
        lemma_lines_show(lines, input, n - 1, rule);
        let x = input[n - 1];
        assert(line_shows(lines[n], x));
        assert(input.take(n) =~= input.take(n - 1).push(x));
        lists::lemma_times_push(input.take(n - 1), x, InputRule::Legacy(rule));
        if let InputRule::Legacy(other) = x {
            firewall::law_legacy_line(other);
        }
    }
}

/// A listing of `INPUT` with one line for the chain itself and one for each of its rules, and with no
/// more than 200 lines, shows every rule of an earlier release.
pub proof fn law_input_listing(output: Seq<char>, input: Seq<InputRule>)
    requires
        text::lines_of(output).len() == input.len() + 1,
        text::lines_of(output).len() <= 200,
        chain::legacy_of(text::lines_of(output)[0]) is None,
        forall|i: int|
            0 <= i < input.len() ==> line_shows(
                text::lines_of(output)[i + 1],
                #[trigger] input[i],
            ),
    ensures
        shows_legacy(output, input),
{
    let lines = text::lines_of(output);
    assert(lines.take(lines.len() as int) =~= lines);
    assert(input.take(input.len() as int) =~= input);
    assert forall|rule: Rule| #[trigger]
        lists::times(chain::legacy_rules(Some(output)), rule) == lists::times(
            input,
            InputRule::Legacy(rule),
        ) by {
        lemma_lines_show(lines, input, input.len() as int, rule);
    }
}

// ---------------------------------------------------------------------------
// The course of a run
// ---------------------------------------------------------------------------

/// Every listing of `INPUT` shows the rules of an earlier release that it holds.
pub open spec fn all_legacy_shown(input: Seq<InputRule>, replies: Seq<ReplyView>) -> bool
    decreases replies.len(),
{
    replies.len() == 0 || {
        let before = replies.drop_last();
        &&& all_legacy_shown(input, before)
        &&& run::request_of(progress::after(before)) == RequestView::ListInput ==> match run::listing_in(
            replies.last(),
        ) {
            Some(output) => shows_legacy(output, safety::input_after(input, before)),
            None => false,
        }
    }
}

/// How often a rule of an earlier release is to be in `INPUT` when it was there so often at the
/// beginning of the run.
pub open spec fn due(s: SyncView, rule: Rule, first: nat) -> nat {
    match s.step {
        Step::DeleteLegacy(i, _) => if plan::replaced(run::facts(s), rule) {
            lists::times(s.legacy.skip(i as int), rule)
        } else {
            first
        },
        Step::Finished(Outcome::Complete) => if plan::replaced(run::facts(s), rule) {
            0
        } else {
            first
        },
        Step::Finished(Outcome::NoEntries) => if plan::replaced(run::facts(s), rule) {
            0
        } else {
            first
        },
        _ => first,
    }
}

/// The rules of an earlier release are in `INPUT` as often as they are to be.
#[verifier::opaque]
pub open spec fn migrating(s: SyncView, input: Seq<InputRule>, now: Seq<InputRule>) -> bool {
    forall|rule: Rule| #[trigger]
        lists::times(now, InputRule::Legacy(rule)) == due(
            s,
            rule,
            lists::times(input, InputRule::Legacy(rule)),
        )
}

proof fn lemma_times_removed<A>(rules: Seq<A>, x: A, y: A)
    ensures
        lists::times(firewall::removed(rules, x), y) == if x == y && rules.contains(x) {
            (lists::times(rules, y) - 1) as nat
        } else {
            lists::times(rules, y)
        },
    decreases rules.len(),
{
    if rules.len() > 0 {
        let rest = rules.drop_first();
        lists::lemma_times(rules, x);
        lists::lemma_times(rest, x);
        if rules[0] != x {
            lemma_times_removed(rest, x, y);
            let less = seq![rules[0]] + firewall::removed(rest, x);
            assert(less.drop_first() =~= firewall::removed(rest, x));
        }
    }
}

#[verifier::rlimit(60)]
proof fn lemma_listed(
    s: SyncView,
    input: Seq<InputRule>,
    now: Seq<InputRule>,
    reply: ReplyView,
)
    requires
        run::valid(s),
        s.step is ListInput,
        migrating(s, input, now),
        match run::listing_in(reply) {
            Some(output) => shows_legacy(output, now),
            None => false,
        },
    ensures
        migrating(run::next(s, reply).state, input, now),
{
    reveal(migrating);
    let f = run::facts(s);
    let found = chain::legacy_rules(run::listing_in(reply));
    let legacy = plan::migrated(f, found);
    let t = run::next(s, reply).state;
    progress::lemma_same_facts(s, t);
    assert(t.legacy == legacy);
    assert forall|rule: Rule| #[trigger] lists::times(now, InputRule::Legacy(rule)) == due(
        t,
        rule,
        lists::times(input, InputRule::Legacy(rule)),
    ) by {
        lists::lemma_times_filter(found, |r: Rule| plan::replaced(f, r), rule);
        assert(legacy.skip(0) =~= legacy);
        assert(lists::times(found, rule) == lists::times(now, InputRule::Legacy(rule)));
    }
}

/// The removal of rule `i`, where a rule was to be there so often.
proof fn lemma_due_deleted(s: SyncView, reply: ReplyView, i: usize, full: bool, rule: Rule, first: nat)
    requires
        run::valid(s),
        s.step == Step::DeleteLegacy(i, full),
    ensures
        due(run::next(s, reply).state, rule, first) == if rule == s.legacy[i as int] {
            (due(s, rule, first) - 1) as nat
        } else {
            due(s, rule, first)
        },
        due(s, s.legacy[i as int], first) > 0,
{
    let t = run::next(s, reply).state;
    let gone = s.legacy[i as int];
    let rest = s.legacy.skip(i as int);
    let less = s.legacy.skip(i + 1);
    progress::lemma_same_facts(s, t);
    assert(plan::replaced(run::facts(s), gone));
    assert(rest[0] == gone);
    assert(rest.drop_first() =~= less);
    assert(lists::times(rest, rule) == lists::times(less, rule) + if rule == gone {
        1nat
    } else {
        0nat
    });
    assert(lists::times(rest, gone) == lists::times(less, gone) + 1);
    if i + 1 < s.legacy.len() {
        assert(t.step == Step::DeleteLegacy((i + 1) as usize, full));
        assert(t.legacy == s.legacy);
    } else {
        assert(less =~= Seq::<Rule>::empty());
        assert(lists::times(less, rule) == 0);
        assert(t.step == Step::Finished(Outcome::Complete) || t.step == Step::Finished(
            Outcome::NoEntries,
        ));
    }
}

proof fn lemma_deleted(
    s: SyncView,
    input: Seq<InputRule>,
    now: Seq<InputRule>,
    reply: ReplyView,
)
    requires
        run::valid(s),
        s.step is DeleteLegacy,
        migrating(s, input, now),
        run::succeeded(reply),
    ensures
        migrating(run::next(s, reply).state, input, safety::input_moved(s, now, reply)),
{
    match s.step {
        Step::DeleteLegacy(i, full) => {
            let t = run::next(s, reply).state;
            let after = safety::input_moved(s, now, reply);
            let gone = s.legacy[i as int];
            assert(after == firewall::removed(now, InputRule::Legacy(gone)));
            assert forall|rule: Rule| #[trigger]
                lists::times(after, InputRule::Legacy(rule)) == due(
                    t,
                    rule,
                    lists::times(input, InputRule::Legacy(rule)),
                ) by {
                lemma_still_due(s, input, now, rule);
                lemma_still_due(s, input, now, gone);
                lemma_due_deleted(
                    s,
                    reply,
                    i,
                    full,
                    rule,
                    lists::times(input, InputRule::Legacy(rule)),
                );
                lemma_due_deleted(
                    s,
                    reply,
                    i,
                    full,
                    gone,
                    lists::times(input, InputRule::Legacy(gone)),
                );
                lists::lemma_times(now, InputRule::Legacy(gone));
                lemma_times_removed(now, InputRule::Legacy(gone), InputRule::Legacy(rule));
            }
            reveal(migrating);
        },
        _ => {},
    }
}

proof fn lemma_still_due(s: SyncView, input: Seq<InputRule>, now: Seq<InputRule>, rule: Rule)
    requires
        migrating(s, input, now),
    ensures
        lists::times(now, InputRule::Legacy(rule)) == due(
            s,
            rule,
            lists::times(input, InputRule::Legacy(rule)),
        ),
{
    reveal(migrating);
}

/// What the other requests do to the rules of an earlier release: nothing.
#[verifier::rlimit(60)]
proof fn lemma_untouched(
    s: SyncView,
    input: Seq<InputRule>,
    now: Seq<InputRule>,
    reply: ReplyView,
)
    requires
        run::valid(s),
        !(s.step is ListInput),
        !(s.step is DeleteLegacy),
        migrating(s, input, now),
    ensures
        migrating(run::next(s, reply).state, input, safety::input_moved(s, now, reply)),
{
    reveal(migrating);
    let t = run::next(s, reply).state;
    let after = safety::input_moved(s, now, reply);
    lemma_far_from_end(s, reply);
    if s.step is Finished {
        progress::lemma_same_facts(s, t);
    }
    assert forall|rule: Rule| #[trigger] lists::times(after, InputRule::Legacy(rule)) == due(
        t,
        rule,
        lists::times(input, InputRule::Legacy(rule)),
    ) by {
        if s.step is AddJump && run::succeeded(reply) {
            assert(after.drop_first() =~= now);
        }
        assert(lists::times(now, InputRule::Legacy(rule)) == due(
            s,
            rule,
            lists::times(input, InputRule::Legacy(rule)),
        ));
    }
}

/// Only the listing of `INPUT` leads on to the removals and to the end.
proof fn lemma_far_from_end(s: SyncView, reply: ReplyView)
    requires
        !(s.step is ListInput),
        !(s.step is DeleteLegacy),
    ensures
        ({
            let step = run::next(s, reply).state.step;
            &&& !(step is DeleteLegacy)
            &&& !(s.step is Finished) ==> step != Step::Finished(Outcome::Complete) && step
                != Step::Finished(Outcome::NoEntries)
            &&& s.step is Finished ==> step == s.step
        }),
{
    reveal(progress::reached);
    if beginning::under_way(s.step) || s.step is ListRules && beginning::is_listing(reply) {
        beginning::lemma_under_way(s, reply);
    } else if !(s.step is Finished) {
        beginning::lemma_early(s, reply);
    }
}

proof fn lemma_migrating(
    s: SyncView,
    kernel: Seq<ChainRule>,
    input: Seq<InputRule>,
    now: Seq<InputRule>,
    reply: ReplyView,
)
    requires
        run::valid(s),
        migrating(s, input, now),
        convergence::faithful(kernel, run::request_of(s), reply),
        run::request_of(s) == RequestView::ListInput ==> match run::listing_in(reply) {
            Some(output) => shows_legacy(output, now),
            None => false,
        },
    ensures
        migrating(progress::reached(s, reply), input, safety::input_reached(s, now, reply)),
{
    reveal(progress::reached);
    reveal(safety::input_reached);
    match s.step {
        Step::ListInput(_) => {
            assert(safety::input_moved(s, now, reply) == now);
            lemma_listed(s, input, now, reply);
        },
        Step::DeleteLegacy(_, _) => lemma_deleted(s, input, now, reply),
        _ => lemma_untouched(s, input, now, reply),
    }
}

proof fn lemma_run_migrating(
    kernel: Seq<ChainRule>,
    input: Seq<InputRule>,
    replies: Seq<ReplyView>,
)
    requires
        convergence::all_faithful(kernel, replies),
        all_legacy_shown(input, replies),
    ensures
        migrating(progress::after(replies), input, safety::input_after(input, replies)),
    decreases replies.len(),
{
    if replies.len() == 0 {
        reveal(migrating);
    } else {
        let before = replies.drop_last();
        lemma_run_migrating(kernel, input, before);
        progress::law_always_valid(before);
        lemma_migrating(
            progress::after(before),
            safety::chain_after(kernel, before),
            input,
            safety::input_after(input, before),
            replies.last(),
        );
    }
}

// ---------------------------------------------------------------------------
// The end of a run
// ---------------------------------------------------------------------------

/// When is a rule of an earlier release replaced, told by what is outside.
proof fn lemma_replaced_told(w: World, s: SyncView, kernel: Seq<ChainRule>, rule: Rule)
    requires
        outcome::knows(w, s),
        plan::complete(run::facts(s)),
        convergence::unrefused(run::facts(s)),
        convergence::settled(run::facts(s), kernel),
    ensures
        plan::replaced(run::facts(s), rule) <==> kernel.contains(ChainRule::Accept(rule))
            || !outcome::silent(w, rule.port),
{
    let f = run::facts(s);
    outcome::lemma_told(w, s, rule);
    outcome::lemma_unrefused(s, rule.port);
    if plan::desired(f, rule) && !plan::in_force(f, rule) {
        let i = choose|i: int| plan::asks_for(f, i, rule);
        plan_laws::lemma_resolved_kept(f, i);
    }
    if outcome::silent(w, rule.port) {
        let i = choose|i: int|
            0 <= i < w.entries.len() && (#[trigger] w.entries[i]).port == rule.port && (w.names)(
                w.entries[i].hostname,
            ) is None;
        assert(outcome::configured(w, rule.port));
    }
}

/// After a run in which no command fails, for a configuration that was written for some entries, a rule
/// of an earlier release is still in `INPUT` exactly when it was there, a name for its port has no
/// address, and the chain does not admit its address to the port.
pub proof fn law_run_migrates(
    w: World,
    kernel: Seq<ChainRule>,
    input: Seq<InputRule>,
    replies: Seq<ReplyView>,
    rule: Rule,
)
    requires
        outcome::sound(w),
        w.entries.len() > 0,
        kernel.no_duplicates(),
        convergence::all_faithful(kernel, replies),
        outcome::all_informed(w, replies),
        all_legacy_shown(input, replies),
        replies.len() >= progress::MAX_REQUESTS || progress::after(replies).step is Finished,
    ensures
        safety::input_after(input, replies).contains(InputRule::Legacy(rule)) <==> input.contains(
            InputRule::Legacy(rule),
        ) && outcome::silent(w, rule.port) && !safety::chain_after(kernel, replies).contains(
            ChainRule::Accept(rule),
        ),
{
    let s = progress::after(replies);
    let end = safety::input_after(input, replies);
    reveal(migrating);
    outcome::law_run_outcome(w, kernel, replies);
    outcome::law_run_informed(w, replies);
    convergence::law_run_converges(kernel, replies);
    lemma_run_migrating(kernel, input, replies);
    lemma_replaced_told(w, s, safety::chain_after(kernel, replies), rule);
    lists::lemma_times(end, InputRule::Legacy(rule));
    lists::lemma_times(input, InputRule::Legacy(rule));
    assert(lists::times(end, InputRule::Legacy(rule)) == due(
        s,
        rule,
        lists::times(input, InputRule::Legacy(rule)),
    ));
}

/// The migration is complete: after a run in which no command fails and every name has an address, no
/// rule of an earlier release is left in `INPUT`, whatever its address and its port.
pub proof fn law_migration_complete(
    w: World,
    kernel: Seq<ChainRule>,
    input: Seq<InputRule>,
    replies: Seq<ReplyView>,
    rule: Rule,
)
    requires
        outcome::sound(w),
        w.entries.len() > 0,
        forall|i: int|
            0 <= i < w.entries.len() ==> (w.names)((#[trigger] w.entries[i]).hostname) is Some,
        kernel.no_duplicates(),
        convergence::all_faithful(kernel, replies),
        outcome::all_informed(w, replies),
        all_legacy_shown(input, replies),
        replies.len() >= progress::MAX_REQUESTS || progress::after(replies).step is Finished,
    ensures
        !safety::input_after(input, replies).contains(InputRule::Legacy(rule)),
{
    law_run_migrates(w, kernel, input, replies, rule);
}

/// A run with nothing configured, in which no command fails, ends so, and leaves no rule of an earlier
/// release in `INPUT`.
pub proof fn law_nothing_configured(
    w: World,
    kernel: Seq<ChainRule>,
    input: Seq<InputRule>,
    replies: Seq<ReplyView>,
    rule: Rule,
)
    requires
        w.entries.len() == 0,
        convergence::all_faithful(kernel, replies),
        outcome::all_informed(w, replies),
        all_legacy_shown(input, replies),
        replies.len() >= progress::MAX_REQUESTS || progress::after(replies).step is Finished,
    ensures
        progress::after(replies).step == Step::Finished(Outcome::NoEntries),
        !safety::input_after(input, replies).contains(InputRule::Legacy(rule)),
{
    let s = progress::after(replies);
    let end = safety::input_after(input, replies);
    reveal(migrating);
    if replies.len() >= progress::MAX_REQUESTS {
        progress::law_termination(replies);
    }
    outcome::law_run_informed(w, replies);
    outcome::lemma_run_ends_well(w, kernel, replies);
    lemma_run_migrating(kernel, input, replies);
    outcome::lemma_run_unconfigured(w, replies);
    plan_laws::lemma_ports(s.entries, rule.port);
    lists::lemma_times(end, InputRule::Legacy(rule));
    assert(lists::times(end, InputRule::Legacy(rule)) == due(
        s,
        rule,
        lists::times(input, InputRule::Legacy(rule)),
    ));
}

} // verus!
