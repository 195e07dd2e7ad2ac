//! What the decisions of a run guarantee.

use crate::addr::Rule;
use crate::config::EntryView;
use crate::lists;
use crate::plan;
use crate::plan::Findings;
use crate::plan::PortChange;
use vstd::prelude::*;

verus! {

// ---------------------------------------------------------------------------
// What the decided lists hold
// ---------------------------------------------------------------------------

/// A port is configured when an entry names it.
pub proof fn lemma_ports(entries: Seq<EntryView>, port: u16)
    ensures
        plan::ports_of(entries).contains(port) <==> exists|i: int|
            0 <= i < entries.len() && (#[trigger] entries[i]).port == port,
        plan::ports_of(entries).len() <= entries.len(),
        plan::ports_of(entries).no_duplicates(),
{
    let all = entries.map_values(|e: EntryView| e.port);
    lists::lemma_distinct(all);
    if all.contains(port) {
        let i = choose|i: int| 0 <= i < all.len() && all[i] == port;
        assert(entries[i].port == port);
    }
    if exists|i: int| 0 <= i < entries.len() && (#[trigger] entries[i]).port == port {
        let i = choose|i: int| 0 <= i < entries.len() && (#[trigger] entries[i]).port == port;
        assert(all[i] == port);
    }
}

/// A rule is to be added when an entry asks for it and it is not in force.
pub proof fn lemma_to_add(f: Findings, rule: Rule)
    requires
        f.lookups.len() == f.entries.len(),
    ensures
        plan::to_add(f).contains(rule) <==> exists|i: int| #[trigger]
            plan::asks_for(f, i, rule) && !f.lookups[i].present,
        plan::to_add(f).len() <= f.entries.len(),
        plan::to_add(f).no_duplicates(),
{
    let all = plan::missing(f, f.entries.len() as int);
    lists::lemma_distinct(all);
    lemma_missing(f, f.entries.len() as int, rule);
}

proof fn lemma_missing(f: Findings, n: int, rule: Rule)
    requires
        0 <= n <= f.entries.len(),
        f.lookups.len() == f.entries.len(),
    ensures
        plan::missing(f, n).contains(rule) <==> exists|i: int| #[trigger]
            plan::asks_for(f, i, rule) && !f.lookups[i].present && i < n,
        plan::missing(f, n).len() <= n,
    decreases n,
{
    if n > 0 {
        lemma_missing(f, n - 1, rule);
        let before = plan::missing(f, n - 1);
        match plan::missing_rule(f.entries[n - 1], f.lookups[n - 1]) {
            Some(last) => {
                lists::lemma_pushed(before, last);
                if last == rule {
                    assert(plan::asks_for(f, n - 1, rule));
                }
            },
            None => {},
        }
        if exists|i: int| #[trigger]
            plan::asks_for(f, i, rule) && !f.lookups[i].present && i < n {
            let i = choose|i: int| #[trigger]
                plan::asks_for(f, i, rule) && !f.lookups[i].present && i < n;
            if i == n - 1 {
                assert(plan::missing_rule(f.entries[n - 1], f.lookups[n - 1]) == Some(rule));
            } else {
                assert(plan::asks_for(f, i, rule) && !f.lookups[i].present && i < n - 1);
            }
        }
        if exists|i: int| #[trigger]
            plan::asks_for(f, i, rule) && !f.lookups[i].present && i < n - 1 {
            let i = choose|i: int| #[trigger]
                plan::asks_for(f, i, rule) && !f.lookups[i].present && i < n - 1;
            assert(plan::asks_for(f, i, rule) && !f.lookups[i].present && i < n);
        }
    }
}

/// Which changes of the blocking of ports are decided.
pub proof fn lemma_changes(f: Findings, port: u16)
    ensures
        plan::changes(f).contains(PortChange::Block(port)) <==> plan::ports_of(f.entries).contains(
            port,
        ) && plan::admitted(f, port) && !f.existing.drop.contains(port),
        plan::changes(f).contains(PortChange::Unblock(port)) <==> plan::ports_of(
            f.entries,
        ).contains(port) && !plan::wanted(f, port) && f.existing.drop.contains(port),
        plan::changes(f).len() <= f.entries.len(),
{
    let ports = plan::ports_of(f.entries);
    let g = |p: u16| plan::change_of(f, p);
    lemma_ports(f.entries, port);
    lists::lemma_filter_map_holds(ports, g, PortChange::Block(port));
    lists::lemma_filter_map_holds(ports, g, PortChange::Unblock(port));
    lemma_admitted_wanted(f, port);
    if plan::changes(f).contains(PortChange::Block(port)) {
        let p = choose|p: u16| #[trigger] ports.contains(p) && g(p) == Some(
            PortChange::Block(port),
        );
        assert(p == port);
    }
    if plan::changes(f).contains(PortChange::Unblock(port)) {
        let p = choose|p: u16| #[trigger] ports.contains(p) && g(p) == Some(
            PortChange::Unblock(port),
        );
        assert(p == port);
    }
    if ports.contains(port) && plan::admitted(f, port) && !f.existing.drop.contains(port) {
        assert(g(port) == Some(PortChange::Block(port)));
    }
    if ports.contains(port) && !plan::wanted(f, port) && f.existing.drop.contains(port) {
        assert(g(port) == Some(PortChange::Unblock(port)));
    }
}

/// Who is admitted is to be admitted.
pub proof fn lemma_admitted_wanted(f: Findings, port: u16)
    ensures
        plan::admitted(f, port) ==> plan::wanted(f, port),
{
    if plan::admitted(f, port) {
        let rule = choose|rule: Rule| plan::kept_for(f, rule, port);
        assert(plan::wanted_for(f, rule, port));
    }
}

/// Which rules are decided to be deleted.
pub proof fn lemma_stale(f: Findings, rule: Rule)
    ensures
        plan::stale(f).contains(rule) <==> f.existing.accept.contains(rule) && !plan::desired(
            f,
            rule,
        ),
        plan::stale(f).len() <= f.existing.accept.len(),
        f.existing.accept.no_duplicates() ==> plan::stale(f).no_duplicates(),
{
    lists::lemma_filter_holds(f.existing.accept, |r: Rule| !plan::desired(f, r));
}

/// Which ports are decided to be blocked no longer because they are not configured.
pub proof fn lemma_stale_ports(f: Findings, port: u16)
    ensures
        plan::stale_ports(f).contains(port) <==> f.existing.drop.contains(port)
            && !plan::ports_of(f.entries).contains(port),
        plan::stale_ports(f).len() <= f.existing.drop.len(),
        f.existing.drop.no_duplicates() ==> plan::stale_ports(f).no_duplicates(),
{
    lists::lemma_filter_holds(
        f.existing.drop,
        |p: u16| !plan::ports_of(f.entries).contains(p),
    );
}

/// Which rules of an earlier release are decided to be removed.
pub proof fn lemma_migrated(f: Findings, legacy: Seq<Rule>)
    ensures
        forall|rule: Rule| #[trigger]
            plan::migrated(f, legacy).contains(rule) <==> legacy.contains(rule) && plan::replaced(
                f,
                rule,
            ),
        forall|k: int|
            0 <= k < plan::migrated(f, legacy).len() ==> plan::replaced(
                f,
                #[trigger] plan::migrated(f, legacy)[k],
            ),
        plan::migrated(f, legacy).len() <= legacy.len(),
{
    let out = plan::migrated(f, legacy);
    lists::lemma_filter_holds(legacy, |rule: Rule| plan::replaced(f, rule));
    assert forall|k: int| 0 <= k < out.len() implies plan::replaced(f, #[trigger] out[k]) by {
        assert(out.contains(out[k]));
    }
}

// ---------------------------------------------------------------------------
// Laws
// ---------------------------------------------------------------------------

/// An entry of a configured port that resolved leads to a rule that is kept for the port, unless
/// a rule for the port could not be added.
pub proof fn lemma_resolved_kept(f: Findings, i: int)
    requires
        plan::complete(f),
        0 <= i < f.entries.len(),
        f.lookups[i].ip is Some,
        !plan::refused(f, f.entries[i].port),
    ensures
        plan::kept_for(
            f,
            Rule { ip: f.lookups[i].ip->0, port: f.entries[i].port },
            f.entries[i].port,
        ),
{
    let port = f.entries[i].port;
    let rule = Rule { ip: f.lookups[i].ip->0, port };
    assert(plan::asks_for(f, i, rule));
    if f.lookups[i].present {
        assert(plan::present_at(f, i, rule));
    } else {
        lemma_to_add(f, rule);
        let k = choose|k: int| 0 <= k < plan::to_add(f).len() && plan::to_add(f)[k] == rule;
        assert(!plan::refused_at(f, k, port));
        assert(plan::added_at(f, k, rule));
    }
}

/// A rule for a configured port is only deleted when another rule for the port is in force and
/// stays so.
pub proof fn law_replacement(f: Findings, rule: Rule)
    requires
        plan::complete(f),
        plan::stale(f).contains(rule),
        plan::ports_of(f.entries).contains(rule.port),
    ensures
        exists|other: Rule| other != rule && #[trigger] plan::kept_for(f, other, rule.port),
{
    lemma_stale(f, rule);
    lemma_ports(f.entries, rule.port);
    let i = choose|i: int| 0 <= i < f.entries.len() && (#[trigger] f.entries[i]).port == rule.port;
    assert(!plan::unresolved_at(f, i, rule.port));
    lemma_resolved_kept(f, i);
}

/// A port is only blocked when somebody is admitted to it and stays so.
pub proof fn law_blocked_after_admission(f: Findings, port: u16)
    requires
        plan::changes(f).contains(PortChange::Block(port)),
    ensures
        plan::admitted(f, port),
{
    lemma_changes(f, port);
}

/// A configured port to which somebody was admitted has somebody admitted to it afterwards, and
/// it is not unblocked.
pub proof fn law_admission_kept(f: Findings, rule: Rule)
    requires
        plan::complete(f),
        f.existing.accept.contains(rule),
        plan::ports_of(f.entries).contains(rule.port),
    ensures
        plan::admitted(f, rule.port),
        !plan::changes(f).contains(PortChange::Unblock(rule.port)),
{
    let port = rule.port;
    lemma_stale(f, rule);
    if plan::desired(f, rule) {
        assert(plan::kept_for(f, rule, port));
    } else {
        law_replacement(f, rule);
        let other = choose|other: Rule| other != rule && #[trigger] plan::kept_for(f, other, port);
        assert(plan::kept_for(f, other, port));
    }
    lemma_admitted_wanted(f, port);
    lemma_changes(f, port);
}

/// When the name of an entry cannot be resolved, every rule for its port stays in force, and the
/// port stays blocked when somebody is admitted to it.
pub proof fn law_unresolved_keeps(f: Findings, i: int)
    requires
        plan::complete(f),
        0 <= i < f.entries.len(),
        f.lookups[i].ip is None,
    ensures
        forall|rule: Rule|
            rule.port == f.entries[i].port ==> !#[trigger] plan::stale(f).contains(rule),
        (exists|rule: Rule|
            rule.port == f.entries[i].port && #[trigger] f.existing.accept.contains(rule))
            ==> !plan::changes(f).contains(PortChange::Unblock(f.entries[i].port)),
{
    let port = f.entries[i].port;
    assert(plan::unresolved_at(f, i, port));
    assert forall|rule: Rule| rule.port == port implies !#[trigger] plan::stale(f).contains(
        rule,
    ) by {
        lemma_stale(f, rule);
    }
    if exists|rule: Rule| rule.port == port && #[trigger] f.existing.accept.contains(rule) {
        let rule = choose|rule: Rule|
            rule.port == port && #[trigger] f.existing.accept.contains(rule);
        lemma_ports(f.entries, port);
        law_admission_kept(f, rule);
    }
}

/// When a rule cannot be added, every rule for its port stays in force.
pub proof fn law_refused_keeps(f: Findings, k: int)
    requires
        plan::complete(f),
        0 <= k < plan::to_add(f).len(),
        !f.added[k],
    ensures
        forall|rule: Rule|
            rule.port == plan::to_add(f)[k].port ==> !#[trigger] plan::stale(f).contains(rule),
{
    let port = plan::to_add(f)[k].port;
    assert(plan::refused_at(f, k, port));
    assert forall|rule: Rule| rule.port == port implies !#[trigger] plan::stale(f).contains(
        rule,
    ) by {
        lemma_stale(f, rule);
    }
}

/// When no name for a configured port can be resolved and nobody is admitted to it, the port is
/// not blocked, and its blocking ends if it was blocked.
pub proof fn law_nobody_admitted(f: Findings, port: u16)
    requires
        plan::complete(f),
        plan::ports_of(f.entries).contains(port),
        forall|i: int|
            0 <= i < f.entries.len() && (#[trigger] f.entries[i]).port == port ==> f.lookups[i].ip
                is None,
        forall|rule: Rule| #[trigger] f.existing.accept.contains(rule) ==> rule.port != port,
    ensures
        !plan::changes(f).contains(PortChange::Block(port)),
        f.existing.drop.contains(port) ==> plan::changes(f).contains(PortChange::Unblock(port)),
{
    assert(!plan::wanted(f, port)) by {
        if plan::wanted(f, port) {
            let rule = choose|rule: Rule| plan::wanted_for(f, rule, port);
            if plan::resolved(f, rule) {
                let i = choose|i: int| plan::asks_for(f, i, rule);
                assert(f.entries[i].port == port);
            }
        }
    }
    lemma_admitted_wanted(f, port);
    lemma_changes(f, port);
}

/// A rule of an earlier release for a configured port is only removed when somebody is admitted to
/// the port by the chain and stays so: the same address, or else everyone whom the names for the port
/// give.
pub proof fn law_migration(f: Findings, rule: Rule)
    requires
        plan::complete(f),
        plan::replaced(f, rule),
        plan::ports_of(f.entries).contains(rule.port),
    ensures
        plan::admitted(f, rule.port),
        plan::kept_for(f, rule, rule.port) || forall|i: int|
            0 <= i < f.entries.len() && (#[trigger] f.entries[i]).port == rule.port
                ==> f.lookups[i].ip is Some && plan::kept_for(
                f,
                Rule { ip: f.lookups[i].ip->0, port: rule.port },
                rule.port,
            ),
{
    if plan::in_force(f, rule) && plan::desired(f, rule) {
        assert(plan::kept_for(f, rule, rule.port));
    } else {
        assert forall|i: int|
            0 <= i < f.entries.len() && (#[trigger] f.entries[i]).port
                == rule.port implies f.lookups[i].ip is Some && plan::kept_for(
            f,
            Rule { ip: f.lookups[i].ip->0, port: rule.port },
            rule.port,
        ) by {
            assert(!plan::unresolved_at(f, i, rule.port));
            lemma_resolved_kept(f, i);
        }
        lemma_ports(f.entries, rule.port);
        let i = choose|i: int|
            0 <= i < f.entries.len() && (#[trigger] f.entries[i]).port == rule.port;
        assert(plan::kept_for(
            f,
            Rule { ip: f.lookups[i].ip->0, port: rule.port },
            rule.port,
        ));
    }
}

/// When a name for a configured port cannot be resolved, or a rule for it cannot be added, a rule of
/// an earlier release for the port stays, unless the chain admits the same address and goes on to do
/// so.
pub proof fn law_migration_waits(f: Findings, rule: Rule)
    requires
        plan::ports_of(f.entries).contains(rule.port),
        plan::unresolved(f, rule.port) || plan::refused(f, rule.port),
        !(plan::in_force(f, rule) && plan::desired(f, rule)),
    ensures
        !plan::replaced(f, rule),
{
}

/// Only configured ports are given rules or blocked; only rules and blockings that were found in
/// the chain are taken away, a blocking as not configured only from a port that is not.
pub proof fn law_only_configured(f: Findings)
    requires
        plan::complete(f),
    ensures
        forall|rule: Rule| #[trigger]
            plan::to_add(f).contains(rule) ==> plan::ports_of(f.entries).contains(rule.port)
                && plan::resolved(f, rule),
        forall|port: u16| #[trigger]
            plan::changes(f).contains(PortChange::Block(port)) ==> plan::ports_of(
                f.entries,
            ).contains(port),
        forall|port: u16| #[trigger]
            plan::changes(f).contains(PortChange::Unblock(port)) ==> plan::ports_of(
                f.entries,
            ).contains(port) && f.existing.drop.contains(port),
        forall|rule: Rule| #[trigger]
            plan::stale(f).contains(rule) ==> f.existing.accept.contains(rule),
        forall|port: u16| #[trigger]
            plan::stale_ports(f).contains(port) ==> f.existing.drop.contains(port)
                && !plan::ports_of(f.entries).contains(port),
{
    assert forall|rule: Rule| #[trigger] plan::to_add(f).contains(rule) implies plan::ports_of(
        f.entries,
    ).contains(rule.port) && plan::resolved(f, rule) by {
        lemma_to_add(f, rule);
        let i = choose|i: int| #[trigger] plan::asks_for(f, i, rule) && !f.lookups[i].present;
        assert(f.entries[i].port == rule.port);
        lemma_ports(f.entries, rule.port);
    }
    assert forall|port: u16| #[trigger]
        plan::changes(f).contains(PortChange::Block(port)) implies plan::ports_of(
        f.entries,
    ).contains(port) by {
        lemma_changes(f, port);
    }
    assert forall|port: u16| #[trigger]
        plan::changes(f).contains(PortChange::Unblock(port)) implies plan::ports_of(
        f.entries,
    ).contains(port) && f.existing.drop.contains(port) by {
        lemma_changes(f, port);
    }
    assert forall|rule: Rule| #[trigger]
        plan::stale(f).contains(rule) implies f.existing.accept.contains(rule) by {
        lemma_stale(f, rule);
    }
    assert forall|port: u16| #[trigger]
        plan::stale_ports(f).contains(port) implies f.existing.drop.contains(port)
        && !plan::ports_of(f.entries).contains(port) by {
        lemma_stale_ports(f, port);
    }
}

/// Every entry resolved to a rule that is in force, no other rule is in force, and exactly the
/// configured ports are blocked.
pub open spec fn unchanged(f: Findings) -> bool {
    &&& forall|i: int|
        0 <= i < f.entries.len() ==> (#[trigger] f.lookups[i]).ip is Some && f.lookups[i].present
    &&& forall|rule: Rule| #[trigger]
        f.existing.accept.contains(rule) <==> plan::resolved(f, rule)
    &&& forall|port: u16| #[trigger]
        f.existing.drop.contains(port) <==> plan::ports_of(f.entries).contains(port)
}

/// When the addresses are those of the rules in force, nothing is added, changed or deleted.
pub proof fn law_unchanged(f: Findings)
    requires
        f.lookups.len() == f.entries.len(),
        unchanged(f),
    ensures
        plan::to_add(f).len() == 0,
        plan::changes(f).len() == 0,
        plan::stale(f).len() == 0,
        plan::stale_ports(f).len() == 0,
{
    if plan::to_add(f).len() > 0 {
        let rule = plan::to_add(f)[0];
        lemma_to_add(f, rule);
        assert(plan::to_add(f).contains(rule));
        let i = choose|i: int| #[trigger] plan::asks_for(f, i, rule) && !f.lookups[i].present;
        assert(f.lookups[i].present);
    }
    if plan::changes(f).len() > 0 {
        let change = plan::changes(f)[0];
        assert(plan::changes(f).contains(change));
        match change {
            PortChange::Block(port) => {
                lemma_changes(f, port);
                assert(f.existing.drop.contains(port));
            },
            PortChange::Unblock(port) => {
                lemma_changes(f, port);
                lemma_ports(f.entries, port);
                let i = choose|i: int|
                    0 <= i < f.entries.len() && (#[trigger] f.entries[i]).port == port;
                assert(f.lookups[i].ip is Some);
                let rule = Rule { ip: f.lookups[i].ip->0, port };
                assert(plan::asks_for(f, i, rule));
                assert(plan::wanted_for(f, rule, port));
            },
        }
    }
    if plan::stale(f).len() > 0 {
        let rule = plan::stale(f)[0];
        assert(plan::stale(f).contains(rule));
        lemma_stale(f, rule);
        assert(f.existing.accept.contains(rule));
    }
    if plan::stale_ports(f).len() > 0 {
        let port = plan::stale_ports(f)[0];
        assert(plan::stale_ports(f).contains(port));
        lemma_stale_ports(f, port);
        assert(f.existing.drop.contains(port));
    }
}

} // verus!
