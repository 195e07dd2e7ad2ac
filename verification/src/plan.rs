//! What a run has to change, decided from what it found.

use crate::addr::Ipv4Addr;
use crate::addr::Rule;
use crate::chain;
use crate::chain::ChainRules;
use crate::chain::ChainView;
use crate::config;
use crate::config::DdnsEntry;
use crate::config::EntryView;
use crate::lists;
use crate::plan_laws;
use vstd::prelude::*;

verus! {

/// What was found out about an entry: its address, if its name could be resolved, and whether
/// the rule that admits it is in force already.
#[derive(Clone, Copy, Debug, PartialEq, Eq, Structural)]
pub struct Lookup {
    pub ip: Option<Ipv4Addr>,
    pub present: bool,
}

/// A change of the blocking of a port.
#[derive(Clone, Copy, Debug, PartialEq, Eq, Structural)]
pub enum PortChange {
    /// The port is to be blocked for everyone who is not admitted.
    Block(u16),
    /// The port is to be blocked no longer, because nobody is admitted to it.
    Unblock(u16),
}

/// Everything that the decisions of a run rest on.
pub struct Findings {
    /// The configured entries.
    pub entries: Seq<EntryView>,
    /// The rules of the chain at the beginning.
    pub existing: ChainView,
    /// What was found out about each entry.
    pub lookups: Seq<Lookup>,
    /// Whether each of the missing rules could be added.
    pub added: Seq<bool>,
}

// ---------------------------------------------------------------------------
// What is decided
// ---------------------------------------------------------------------------

/// The ports of the entries, each once.
pub open spec fn ports_of(entries: Seq<EntryView>) -> Seq<u16> {
    lists::distinct(entries.map_values(|e: EntryView| e.port))
}

/// The rule that an entry asks for, if its name could be resolved and the rule is not in force.
pub open spec fn missing_rule(entry: EntryView, lookup: Lookup) -> Option<Rule> {
    match lookup.ip {
        Some(ip) => if lookup.present {
            None
        } else {
            Some(Rule { ip, port: entry.port })
        },
        None => None,
    }
}

/// The rules that the first entries ask for and that are not in force.
pub open spec fn missing(f: Findings, n: int) -> Seq<Rule>
    decreases n,
{
    if n <= 0 {
        Seq::<Rule>::empty()
    } else {
        match missing_rule(f.entries[n - 1], f.lookups[n - 1]) {
            Some(rule) => missing(f, n - 1).push(rule),
            None => missing(f, n - 1),
        }
    }
}

/// The rules that are to be added. Entries that resolve to the same address for the same port
/// ask for one rule.
pub open spec fn to_add(f: Findings) -> Seq<Rule> {
    lists::distinct(missing(f, f.entries.len() as int))
}

/// Entry `i` resolved to the address of the rule, for its port.
pub open spec fn asks_for(f: Findings, i: int, rule: Rule) -> bool {
    0 <= i < f.entries.len() && i < f.lookups.len() && f.entries[i].port == rule.port
        && f.lookups[i].ip == Some(rule.ip)
}

/// Some entry resolved to the address of the rule, for its port.
pub open spec fn resolved(f: Findings, rule: Rule) -> bool {
    exists|i: int| asks_for(f, i, rule)
}

/// The name of entry `i` for the port could not be resolved.
pub open spec fn unresolved_at(f: Findings, i: int, port: u16) -> bool {
    0 <= i < f.entries.len() && i < f.lookups.len() && f.entries[i].port == port
        && f.lookups[i].ip is None
}

/// The name of some entry for the port could not be resolved.
pub open spec fn unresolved(f: Findings, port: u16) -> bool {
    exists|i: int| unresolved_at(f, i, port)
}

/// The missing rule `k` is for the port and could not be added.
pub open spec fn refused_at(f: Findings, k: int, port: u16) -> bool {
    0 <= k < to_add(f).len() && k < f.added.len() && to_add(f)[k].port == port && !f.added[k]
}

/// Some missing rule for the port could not be added.
pub open spec fn refused(f: Findings, port: u16) -> bool {
    exists|k: int| refused_at(f, k, port)
}

/// The rule is to be in force after the run: an entry asks for it, or it was in force and an
/// entry for its port could not be resolved or a rule for its port could not be added.
pub open spec fn desired(f: Findings, rule: Rule) -> bool {
    ||| resolved(f, rule)
    ||| f.existing.accept.contains(rule) && (unresolved(f, rule.port) || refused(f, rule.port))
}

/// Entry `i` asks for the rule, and the rule is in force already.
pub open spec fn present_at(f: Findings, i: int, rule: Rule) -> bool {
    asks_for(f, i, rule) && f.lookups[i].present
}

/// The missing rule `k` was added.
pub open spec fn added_at(f: Findings, k: int, rule: Rule) -> bool {
    0 <= k < to_add(f).len() && k < f.added.len() && to_add(f)[k] == rule && f.added[k]
}

/// The rule was in force at the beginning or was added since.
pub open spec fn in_force(f: Findings, rule: Rule) -> bool {
    ||| f.existing.accept.contains(rule)
    ||| exists|i: int| present_at(f, i, rule)
    ||| exists|k: int| added_at(f, k, rule)
}

/// A rule for the port is in force and stays so.
pub open spec fn kept_for(f: Findings, rule: Rule, port: u16) -> bool {
    rule.port == port && desired(f, rule) && in_force(f, rule)
}

/// Somebody is admitted to the port and stays so.
pub open spec fn admitted(f: Findings, port: u16) -> bool {
    exists|rule: Rule| kept_for(f, rule, port)
}

/// A rule for the port is to be in force.
pub open spec fn wanted_for(f: Findings, rule: Rule, port: u16) -> bool {
    rule.port == port && desired(f, rule)
}

/// Somebody is to be admitted to the port.
pub open spec fn wanted(f: Findings, port: u16) -> bool {
    exists|rule: Rule| wanted_for(f, rule, port)
}

/// How the blocking of a configured port changes: it is blocked once somebody is admitted to it,
/// and no longer blocked when nobody is to be admitted to it.
pub open spec fn change_of(f: Findings, port: u16) -> Option<PortChange> {
    if admitted(f, port) && !f.existing.drop.contains(port) {
        Some(PortChange::Block(port))
    } else if !wanted(f, port) && f.existing.drop.contains(port) {
        Some(PortChange::Unblock(port))
    } else {
        None
    }
}

/// How the blocking of the configured ports changes.
pub open spec fn changes(f: Findings) -> Seq<PortChange> {
    ports_of(f.entries).filter_map(|port: u16| change_of(f, port))
}

/// The rules that are to be deleted.
pub open spec fn stale(f: Findings) -> Seq<Rule> {
    f.existing.accept.filter(|rule: Rule| !desired(f, rule))
}

/// The ports that are configured no longer and are to be blocked no longer.
pub open spec fn stale_ports(f: Findings) -> Seq<u16> {
    f.existing.drop.filter(|port: u16| !ports_of(f.entries).contains(port))
}

/// Nothing is lost when a rule of an earlier release is removed from `INPUT`: the chain admits the
/// same address to the port and goes on to do so, or the port is not configured, or every name for
/// the port could be resolved and every missing rule for it could be added.
pub open spec fn replaced(f: Findings, rule: Rule) -> bool {
    ||| in_force(f, rule) && desired(f, rule)
    ||| !ports_of(f.entries).contains(rule.port)
    ||| !unresolved(f, rule.port) && !refused(f, rule.port)
}

/// Those of the rules of an earlier release that are to be removed.
pub open spec fn migrated(f: Findings, legacy: Seq<Rule>) -> Seq<Rule> {
    legacy.filter(|rule: Rule| replaced(f, rule))
}

/// There is one result for each entry and one for each missing rule.
pub open spec fn complete(f: Findings) -> bool {
    f.lookups.len() == f.entries.len() && f.added.len() == to_add(f).len()
}

// ---------------------------------------------------------------------------
// Deciding
// ---------------------------------------------------------------------------

/// The ports of the entries, each once.
pub fn desired_ports(entries: &Vec<DdnsEntry>) -> (out: Vec<u16>)
    ensures
        out@ == ports_of(config::entry_views(entries@)),
{
    let mut out: Vec<u16> = Vec::new();
    let ghost all = config::entry_views(entries@).map_values(|e: EntryView| e.port);
    proof {
        assert(out@ =~= lists::distinct(all.take(0)));
    }
    for i in 0..entries.len()
        invariant
            all == config::entry_views(entries@).map_values(|e: EntryView| e.port),
            out@ == lists::distinct(all.take(i as int)),
    {
        proof {
            assert(all[i as int] == entries@[i as int].port);
            assert(all.take(i + 1) =~= all.take(i as int).push(all[i as int]));
            lists::lemma_distinct_push(all.take(i as int), all[i as int]);
        }
        lists::include_port(&mut out, entries[i].port);
    }
    proof {
        assert(all.take(all.len() as int) =~= all);
    }
    out
}

/// What the decisions of a run rest on, as it is kept while the run goes on.
pub open spec fn findings(
    entries: Seq<DdnsEntry>,
    existing: ChainView,
    lookups: Seq<Lookup>,
    added: Seq<bool>,
) -> Findings {
    Findings { entries: config::entry_views(entries), existing, lookups, added }
}

/// Which rules are to be added does not rest on what became of them.
pub proof fn lemma_to_add_early(f: Findings, g: Findings)
    requires
        f.entries == g.entries,
        f.lookups == g.lookups,
    ensures
        to_add(f) == to_add(g),
{
    lemma_missing_early(f, g, f.entries.len() as int);
}

proof fn lemma_missing_early(f: Findings, g: Findings, n: int)
    requires
        f.entries == g.entries,
        f.lookups == g.lookups,
    ensures
        missing(f, n) == missing(g, n),
    decreases n,
{
    if n > 0 {
        lemma_missing_early(f, g, n - 1);
    }
}

/// The rules that are to be added.
pub fn rules_to_add(entries: &Vec<DdnsEntry>, lookups: &Vec<Lookup>, existing: &ChainRules) -> (out:
    Vec<Rule>)
    requires
        lookups@.len() == entries@.len(),
    ensures
        out@ == to_add(findings(entries@, existing@, lookups@, Seq::<bool>::empty())),
        out@.len() <= entries@.len(),
{
    let mut out: Vec<Rule> = Vec::new();
    let ghost f = findings(entries@, existing@, lookups@, Seq::<bool>::empty());
    proof {
        assert(out@ =~= lists::distinct(missing(f, 0)));
    }
    for i in 0..entries.len()
        invariant
            lookups@.len() == entries@.len(),
            f == findings(entries@, existing@, lookups@, Seq::<bool>::empty()),
            out@ == lists::distinct(missing(f, i as int)),
            out@.len() <= i,
    {
        proof {
            assert(f.entries[i as int].port == entries@[i as int].port);
        }
        if let Some(ip) = lookups[i].ip {
            if !lookups[i].present {
                let rule = Rule { ip, port: entries[i].port };
                proof {
                    lists::lemma_distinct_push(missing(f, i as int), rule);
                }
                lists::include_rule(&mut out, rule);
            }
        }
    }
    out
}

/// Whether some entry resolved to the address of the rule, for its port.
fn is_resolved(entries: &Vec<DdnsEntry>, lookups: &Vec<Lookup>, rule: Rule, f: Ghost<Findings>) -> (res:
    bool)
    requires
        lookups@.len() == entries@.len(),
        f@.entries == config::entry_views(entries@),
        f@.lookups == lookups@,
    ensures
        res == resolved(f@, rule),
{
    for i in 0..entries.len()
        invariant
            lookups@.len() == entries@.len(),
            f@.entries == config::entry_views(entries@),
            f@.lookups == lookups@,
            forall|k: int| 0 <= k < i ==> !asks_for(f@, k, rule),
    {
        proof {
            assert(f@.entries[i as int].port == entries@[i as int].port);
        }
        if entries[i].port == rule.port {
            if let Some(ip) = lookups[i].ip {
                if ip == rule.ip {
                    proof {
                        assert(asks_for(f@, i as int, rule));
                    }
                    return true;
                }
            }
        }
    }
    false
}

/// Whether the name of some entry for the port could not be resolved.
fn is_unresolved(entries: &Vec<DdnsEntry>, lookups: &Vec<Lookup>, port: u16, f: Ghost<Findings>) -> (res:
    bool)
    requires
        lookups@.len() == entries@.len(),
        f@.entries == config::entry_views(entries@),
        f@.lookups == lookups@,
    ensures
        res == unresolved(f@, port),
{
    for i in 0..entries.len()
        invariant
            lookups@.len() == entries@.len(),
            f@.entries == config::entry_views(entries@),
            f@.lookups == lookups@,
            forall|k: int| 0 <= k < i ==> !unresolved_at(f@, k, port),
    {
        proof {
            assert(f@.entries[i as int].port == entries@[i as int].port);
        }
        if entries[i].port == port && lookups[i].ip.is_none() {
            proof {
                assert(unresolved_at(f@, i as int, port));
            }
            return true;
        }
    }
    false
}

/// Whether some missing rule for the port could not be added.
fn is_refused(missing: &Vec<Rule>, added: &Vec<bool>, port: u16, f: Ghost<Findings>) -> (res: bool)
    requires
        missing@ == to_add(f@),
        added@ == f@.added,
        added@.len() == missing@.len(),
    ensures
        res == refused(f@, port),
{
    for i in 0..missing.len()
        invariant
            missing@ == to_add(f@),
            added@ == f@.added,
            added@.len() == missing@.len(),
            forall|k: int| 0 <= k < i ==> !refused_at(f@, k, port),
    {
        if missing[i].port == port && !added[i] {
            proof {
                assert(refused_at(f@, i as int, port));
            }
            return true;
        }
    }
    false
}

/// Everything that the decisions of a run rest on, once all of it is known.
pub struct Known<'a> {
    pub entries: &'a Vec<DdnsEntry>,
    pub existing: &'a ChainRules,
    pub lookups: &'a Vec<Lookup>,
    pub missing: &'a Vec<Rule>,
    pub added: &'a Vec<bool>,
}

impl<'a> Known<'a> {
    /// What is known, as the decisions speak of it.
    pub open spec fn facts(&self) -> Findings {
        findings(self.entries@, self.existing@, self.lookups@, self.added@)
    }

    /// There is one result for each entry and one for each missing rule.
    pub open spec fn valid(&self) -> bool {
        &&& self.missing@ == to_add(self.facts())
        &&& complete(self.facts())
    }

    /// Whether the rule is to be in force after the run.
    pub fn is_desired(&self, rule: Rule) -> (res: bool)
        requires
            self.valid(),
        ensures
            res == desired(self.facts(), rule),
    {
        let ghost f = self.facts();
        if is_resolved(self.entries, self.lookups, rule, Ghost(f)) {
            return true;
        }
        lists::holds_rule(&self.existing.accept, rule) && (is_unresolved(
            self.entries,
            self.lookups,
            rule.port,
            Ghost(f),
        ) || is_refused(self.missing, self.added, rule.port, Ghost(f)))
    }

    /// Whether somebody is admitted to the port and stays so.
    pub fn is_admitted(&self, port: u16) -> (res: bool)
        requires
            self.valid(),
        ensures
            res == admitted(self.facts(), port),
    {
        let ghost f = self.facts();
        for i in 0..self.existing.accept.len()
            invariant
                self.valid(),
                f == self.facts(),
                forall|k: int| 0 <= k < i ==> !kept_for(f, #[trigger] f.existing.accept[k], port),
        {
            let rule = self.existing.accept[i];
            proof {
                assert(f.existing.accept.contains(f.existing.accept[i as int]));
            }
            if rule.port == port && self.is_desired(rule) {
                proof {
                    assert(kept_for(f, rule, port));
                }
                return true;
            }
        }
        for i in 0..self.entries.len()
            invariant
                self.valid(),
                f == self.facts(),
                forall|k: int, rule: Rule|
                    0 <= k < i && rule.port == port ==> !#[trigger] present_at(f, k, rule),
        {
            proof {
                assert(f.entries[i as int].port == self.entries@[i as int].port);
            }
            if self.entries[i].port == port && self.lookups[i].present {
                if let Some(ip) = self.lookups[i].ip {
                    proof {
                        let rule = Rule { ip, port };
                        assert(asks_for(f, i as int, rule));
                        assert(present_at(f, i as int, rule));
                        assert(kept_for(f, rule, port));
                    }
                    return true;
                }
            }
        }
        for i in 0..self.missing.len()
            invariant
                self.valid(),
                f == self.facts(),
                forall|k: int, rule: Rule|
                    0 <= k < i && rule.port == port ==> !#[trigger] added_at(f, k, rule),
        {
            if self.missing[i].port == port && self.added[i] {
                proof {
                    let rule = self.missing@[i as int];
                    assert(to_add(f).contains(rule));
                    plan_laws::lemma_to_add(f, rule);
                    let k = choose|k: int| #[trigger]
                        asks_for(f, k, rule) && !f.lookups[k].present;
                    assert(asks_for(f, k, rule));
                    assert(added_at(f, i as int, rule));
                    assert(kept_for(f, rule, port));
                }
                return true;
            }
        }
        proof {
            assert forall|rule: Rule| !kept_for(f, rule, port) by {
                if kept_for(f, rule, port) && f.existing.accept.contains(rule) {
                    let k = choose|k: int|
                        0 <= k < f.existing.accept.len() && f.existing.accept[k] == rule;
                    assert(!kept_for(f, f.existing.accept[k], port));
                }
            }
        }
        false
    }

    /// Whether somebody is to be admitted to the port.
    pub fn is_wanted(&self, port: u16) -> (res: bool)
        requires
            self.valid(),
        ensures
            res == wanted(self.facts(), port),
    {
        let ghost f = self.facts();
        for i in 0..self.existing.accept.len()
            invariant
                self.valid(),
                f == self.facts(),
                forall|k: int| 0 <= k < i ==> !wanted_for(f, #[trigger] f.existing.accept[k], port),
        {
            let rule = self.existing.accept[i];
            if rule.port == port && self.is_desired(rule) {
                proof {
                    assert(wanted_for(f, rule, port));
                }
                return true;
            }
        }
        for i in 0..self.entries.len()
            invariant
                self.valid(),
                f == self.facts(),
                forall|k: int, rule: Rule|
                    0 <= k < i && rule.port == port ==> !#[trigger] asks_for(f, k, rule),
        {
            proof {
                assert(f.entries[i as int].port == self.entries@[i as int].port);
            }
            if self.entries[i].port == port {
                if let Some(ip) = self.lookups[i].ip {
                    proof {
                        let rule = Rule { ip, port };
                        assert(asks_for(f, i as int, rule));
                        assert(wanted_for(f, rule, port));
                    }
                    return true;
                }
            }
        }
        proof {
            assert forall|rule: Rule| !wanted_for(f, rule, port) by {
                if wanted_for(f, rule, port) && f.existing.accept.contains(rule) {
                    let k = choose|k: int|
                        0 <= k < f.existing.accept.len() && f.existing.accept[k] == rule;
                    assert(!wanted_for(f, f.existing.accept[k], port));
                }
            }
        }
        false
    }

    /// How the blocking of the configured ports changes.
    pub fn port_changes(&self) -> (out: Vec<PortChange>)
        requires
            self.valid(),
        ensures
            out@ == changes(self.facts()),
    {
        let ports = desired_ports(self.entries);
        let mut out: Vec<PortChange> = Vec::new();
        let ghost f = self.facts();
        let ghost g = |port: u16| change_of(f, port);
        proof {
            assert(ports@.take(0).filter_map(g) =~= Seq::<PortChange>::empty());
        }
        for i in 0..ports.len()
            invariant
                self.valid(),
                f == self.facts(),
                g == (|port: u16| change_of(f, port)),
                out@ == ports@.take(i as int).filter_map(g),
        {
            let port: u16 = ports[i];
            proof {
                chain::lemma_filter_map_step(ports@, g, i as int);
            }
            let blocked = lists::holds_port(&self.existing.drop, port);
            if !blocked {
                if self.is_admitted(port) {
                    out.push(PortChange::Block(port));
                }
            } else if !self.is_wanted(port) {
                out.push(PortChange::Unblock(port));
            }
        }
        proof {
            assert(ports@.take(ports@.len() as int) =~= ports@);
        }
        out
    }

    /// The rules that are to be deleted.
    pub fn stale_rules(&self) -> (out: Vec<Rule>)
        requires
            self.valid(),
        ensures
            out@ == stale(self.facts()),
    {
        let mut out: Vec<Rule> = Vec::new();
        let ghost f = self.facts();
        let ghost g = |rule: Rule| !desired(f, rule);
        let ghost all = self.existing.accept@;
        proof {
            reveal(Seq::filter);
            assert(all.take(0).filter(g) =~= Seq::<Rule>::empty());
        }
        for i in 0..self.existing.accept.len()
            invariant
                self.valid(),
                f == self.facts(),
                all == self.existing.accept@,
                g == (|rule: Rule| !desired(f, rule)),
                out@ == all.take(i as int).filter(g),
        {
            let rule = self.existing.accept[i];
            proof {
                reveal(Seq::filter);
                assert(all.take(i + 1).drop_last() =~= all.take(i as int));
                assert(all.take(i + 1).last() == rule);
            }
            if !self.is_desired(rule) {
                out.push(rule);
            }
        }
        proof {
            assert(all.take(all.len() as int) =~= all);
        }
        out
    }

    /// The ports that are configured no longer and are to be blocked no longer.
    pub fn stale_drops(&self) -> (out: Vec<u16>)
        ensures
            out@ == stale_ports(self.facts()),
    {
        let ports = desired_ports(self.entries);
        let mut out: Vec<u16> = Vec::new();
        let ghost f = self.facts();
        let ghost g = |port: u16| !ports_of(f.entries).contains(port);
        let ghost all = self.existing.drop@;
        proof {
            reveal(Seq::filter);
            assert(all.take(0).filter(g) =~= Seq::<u16>::empty());
        }
        for i in 0..self.existing.drop.len()
            invariant
                f == self.facts(),
                ports@ == ports_of(f.entries),
                all == self.existing.drop@,
                g == (|port: u16| !ports_of(f.entries).contains(port)),
                out@ == all.take(i as int).filter(g),
        {
            let port: u16 = self.existing.drop[i];
            proof {
                reveal(Seq::filter);
                assert(all.take(i + 1).drop_last() =~= all.take(i as int));
                assert(all.take(i + 1).last() == port);
            }
            if !lists::holds_port(&ports, port) {
                out.push(port);
            }
        }
        proof {
            assert(all.take(all.len() as int) =~= all);
        }
        out
    }

    /// Whether the rule was in force at the beginning or was added since.
    fn is_in_force(&self, rule: Rule) -> (res: bool)
        requires
            self.valid(),
        ensures
            res == in_force(self.facts(), rule),
    {
        let ghost f = self.facts();
        if lists::holds_rule(&self.existing.accept, rule) {
            return true;
        }
        for i in 0..self.entries.len()
            invariant
                self.valid(),
                f == self.facts(),
                forall|k: int| 0 <= k < i ==> !present_at(f, k, rule),
        {
            proof {
                assert(f.entries[i as int].port == self.entries@[i as int].port);
            }
            if self.entries[i].port == rule.port && self.lookups[i].present {
                if let Some(ip) = self.lookups[i].ip {
                    if ip == rule.ip {
                        proof {
                            assert(present_at(f, i as int, rule));
                        }
                        return true;
                    }
                }
            }
        }
        for i in 0..self.missing.len()
            invariant
                self.valid(),
                f == self.facts(),
                forall|k: int| 0 <= k < i ==> !added_at(f, k, rule),
        {
            if self.missing[i] == rule && self.added[i] {
                proof {
                    assert(added_at(f, i as int, rule));
                }
                return true;
            }
        }
        false
    }

    /// Whether nothing is lost when a rule of an earlier release is removed from `INPUT`.
    pub fn is_replaced(&self, rule: Rule) -> (res: bool)
        requires
            self.valid(),
        ensures
            res == replaced(self.facts(), rule),
    {
        let ghost f = self.facts();
        if self.is_in_force(rule) && self.is_desired(rule) {
            return true;
        }
        let ports = desired_ports(self.entries);
        if !lists::holds_port(&ports, rule.port) {
            return true;
        }
        !is_unresolved(self.entries, self.lookups, rule.port, Ghost(f)) && !is_refused(
            self.missing,
            self.added,
            rule.port,
            Ghost(f),
        )
    }

    /// Those of the rules of an earlier release that are to be removed.
    pub fn migrated_rules(&self, legacy: &Vec<Rule>) -> (out: Vec<Rule>)
        requires
            self.valid(),
        ensures
            out@ == migrated(self.facts(), legacy@),
    {
        let mut out: Vec<Rule> = Vec::new();
        let ghost f = self.facts();
        let ghost g = |rule: Rule| replaced(f, rule);
        proof {
            reveal(Seq::filter);
            assert(legacy@.take(0).filter(g) =~= Seq::<Rule>::empty());
        }
        for i in 0..legacy.len()
            invariant
                self.valid(),
                f == self.facts(),
                g == (|rule: Rule| replaced(f, rule)),
                out@ == legacy@.take(i as int).filter(g),
        {
            let rule = legacy[i];
            proof {
                reveal(Seq::filter);
                assert(legacy@.take(i + 1).drop_last() =~= legacy@.take(i as int));
                assert(legacy@.take(i + 1).last() == rule);
            }
            if self.is_replaced(rule) {
                out.push(rule);
            }
        }
        proof {
            assert(legacy@.take(legacy@.len() as int) =~= legacy@);
        }
        out
    }
}

} // verus!
