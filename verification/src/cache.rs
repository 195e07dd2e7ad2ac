//! The state cache, from which an interrupted run is taken up again.

use crate::addr;
use crate::addr::Rule;
use crate::chain;
use crate::chain::MAX_RULES;
use crate::lists;
use crate::text;
use crate::text_facts;
use vstd::prelude::*;

verus! {

/// How many lines of a cache are looked at.
pub const MAX_CACHE_LINES: usize = 10;

/// What was going on when the cache was written.
#[derive(Clone, Copy, Debug, PartialEq, Eq, Structural)]
pub enum CacheState {
    Idle,
    Adding,
    Deleting,
}

/// The state of the synchronizer as it is kept on disk.
pub struct Cache {
    pub state: CacheState,
    /// The rules in force, without repetition.
    pub rules: Vec<Rule>,
    /// The rule that is being added or deleted.
    pub pending: Option<Rule>,
}

/// What a cache says.
#[verifier::ext_equal]
pub struct CacheView {
    pub state: CacheState,
    pub rules: Seq<Rule>,
    pub pending: Option<Rule>,
}

impl View for Cache {
    type V = CacheView;

    open spec fn view(&self) -> CacheView {
        CacheView { state: self.state, rules: self.rules@, pending: self.pending }
    }
}

// ---------------------------------------------------------------------------
// What a cache says
// ---------------------------------------------------------------------------

/// No rule is held twice, and there are no more rules than the limit.
pub open spec fn valid(c: CacheView) -> bool {
    c.rules.no_duplicates() && c.rules.len() <= MAX_RULES
}

/// The cache of a first run.
pub open spec fn empty_cache() -> CacheView {
    CacheView { state: CacheState::Idle, rules: Seq::<Rule>::empty(), pending: None }
}

/// Nothing is going on any longer.
pub open spec fn idle(c: CacheView) -> CacheView {
    CacheView { state: CacheState::Idle, rules: c.rules, pending: None }
}

/// A rule is about to be added.
pub open spec fn adding(c: CacheView, rule: Rule) -> CacheView {
    CacheView { state: CacheState::Adding, rules: c.rules, pending: Some(rule) }
}

/// A rule is about to be deleted.
pub open spec fn deleting(c: CacheView, rule: Rule) -> CacheView {
    CacheView { state: CacheState::Deleting, rules: c.rules, pending: Some(rule) }
}

/// A rule is in force. Beyond the limit it is not noted.
pub open spec fn with_rule(c: CacheView, rule: Rule) -> CacheView {
    CacheView {
        state: CacheState::Idle,
        rules: if c.rules.len() < MAX_RULES {
            lists::included(c.rules, rule)
        } else {
            c.rules
        },
        pending: None,
    }
}

/// A rule is no longer in force.
pub open spec fn without_rule(c: CacheView, rule: Rule) -> CacheView {
    CacheView { state: CacheState::Idle, rules: lists::without(c.rules, rule), pending: None }
}

/// The word for a state.
pub open spec fn state_text(state: CacheState) -> Seq<char> {
    match state {
        CacheState::Idle => "IDLE"@,
        CacheState::Adding => "ADDING"@,
        CacheState::Deleting => "DELETING"@,
    }
}

/// The state that a word stands for; an unknown word stands for the idle state.
pub open spec fn state_of(word: Seq<char>) -> CacheState {
    if word == "ADDING"@ {
        CacheState::Adding
    } else if word == "DELETING"@ {
        CacheState::Deleting
    } else {
        CacheState::Idle
    }
}

/// The notations of rules.
pub open spec fn rule_texts(rules: Seq<Rule>) -> Seq<Seq<char>> {
    rules.map_values(|r: Rule| addr::rule_text(r))
}

/// The lines of a cache file.
#[verifier::opaque]
pub open spec fn cache_lines(c: CacheView) -> Seq<Seq<char>> {
    seq![
        "STATE:"@ + state_text(c.state),
        "RULES:"@ + text::joined(rule_texts(lists::at_most(c.rules, MAX_RULES as nat)), ','),
        "PENDING:"@ + match c.pending {
            Some(rule) => addr::rule_text(rule),
            None => Seq::<char>::empty(),
        },
    ]
}

/// The text of a cache file.
pub open spec fn cache_text(c: CacheView) -> Seq<char> {
    text::unlines(cache_lines(c))
}

/// What follows `head` in the line, when the line begins with it.
pub open spec fn value_of_line(line: Seq<char>, head: Seq<char>) -> Option<Seq<char>> {
    if text::begins(line, head) {
        Some(line.skip(head.len() as int))
    } else {
        None
    }
}

/// What follows `head` in the lines that begin with it.
pub open spec fn values(lines: Seq<Seq<char>>, head: Seq<char>) -> Seq<Seq<char>> {
    lines.filter_map(|line: Seq<char>| value_of_line(line, head))
}

/// The rules that a list denotes, whose members are parted by commas. Members that denote no
/// rule are passed over.
pub open spec fn rules_of(list: Seq<char>) -> Seq<Rule> {
    text::pieces(list, Some(',')).filter_map(|part: Seq<char>| addr::rule_of(part))
}

/// The rules that several lists denote, one list after the other.
pub open spec fn all_rules(found: Seq<Seq<char>>) -> Seq<Rule>
    decreases found.len(),
{
    if found.len() == 0 {
        Seq::<Rule>::empty()
    } else {
        all_rules(found.drop_last()) + rules_of(found.last())
    }
}

/// The cache that the lines of a file denote. Only the first lines count. Of the state and of the
/// pending rule the last one given counts; of the rules the first ones, up to the limit.
pub open spec fn cache_of(lines: Seq<Seq<char>>) -> CacheView {
    let head = lists::at_most(lines, MAX_CACHE_LINES as nat);
    let states = values(head, "STATE:"@);
    let pendings = values(head, "PENDING:"@);
    CacheView {
        state: if states.len() == 0 {
            CacheState::Idle
        } else {
            state_of(states.last())
        },
        rules: lists::distinct(
            lists::at_most(all_rules(values(head, "RULES:"@)), MAX_RULES as nat),
        ),
        pending: if pendings.len() == 0 {
            None
        } else {
            addr::rule_of(pendings.last())
        },
    }
}

// ---------------------------------------------------------------------------
// Facts
// ---------------------------------------------------------------------------

/// What is read from a file is a valid cache.
pub proof fn lemma_cache_of_valid(lines: Seq<Seq<char>>)
    ensures
        valid(cache_of(lines)),
{
    let head = lists::at_most(lines, MAX_CACHE_LINES as nat);
    lists::lemma_distinct(lists::at_most(all_rules(values(head, "RULES:"@)), MAX_RULES as nat));
}

/// Every change keeps a cache valid.
pub proof fn lemma_changes_valid(c: CacheView, rule: Rule)
    requires
        valid(c),
    ensures
        valid(idle(c)),
        valid(adding(c, rule)),
        valid(deleting(c, rule)),
        valid(with_rule(c, rule)),
        valid(without_rule(c, rule)),
{
    lists::lemma_included(c.rules, rule);
    lists::lemma_without(c.rules, rule);
}

/// The notation of a rule holds no comma, no white space and no line ending.
pub proof fn lemma_rule_text_plain(rule: Rule)
    ensures
        addr::rule_text(rule).len() > 0,
        forall|i: int|
            0 <= i < addr::rule_text(rule).len() ==> #[trigger] addr::rule_text(rule)[i] != ','
                && addr::rule_text(rule)[i] != '\n' && addr::rule_text(rule)[i] != '\r',
{
    let left = addr::ip_text(rule.ip);
    let right = addr::decimal(rule.port as nat);
    addr::lemma_ip_text_plain(rule.ip);
    addr::lemma_decimal_digits(rule.port as nat);
    addr::lemma_digits_plain(right);
    let s = addr::rule_text(rule);
    assert forall|i: int| 0 <= i < s.len() implies #[trigger] s[i] != ',' && s[i] != '\n' && s[i]
        != '\r' by {
        if i < left.len() {
            assert(s[i] == left[i]);
            assert(addr::is_digit(left[i]) || left[i] == '.');
        } else if i > left.len() {
            assert(s[i] == right[i - left.len() - 1]);
        }
    }
}

/// The rules are read back from their notations.
proof fn lemma_rule_texts_back(rules: Seq<Rule>)
    ensures
        rule_texts(rules).filter_map(|part: Seq<char>| addr::rule_of(part)) == rules,
    decreases rules.len(),
{
    let f = |part: Seq<char>| addr::rule_of(part);
    let all = rule_texts(rules);
    if rules.len() > 0 {
        let shorter = rules.drop_last();
        lemma_rule_texts_back(shorter);
        assert(all.drop_last() =~= rule_texts(shorter));
        assert(all.last() == addr::rule_text(rules.last()));
        addr::law_rule_round_trip(rules.last());
        assert(shorter + seq![rules.last()] =~= rules);
    } else {
        assert(all.filter_map(f) =~= rules);
    }
}

/// A list of rules is read back from its notation.
proof fn lemma_rule_list_back(rules: Seq<Rule>)
    ensures
        rules_of(text::joined(rule_texts(rules), ',')) == rules,
{
    let parts = rule_texts(rules);
    let f = |part: Seq<char>| addr::rule_of(part);
    lemma_rule_texts_back(rules);
    if rules.len() > 0 {
        assert forall|i: int| 0 <= i < parts.len() implies text::unbroken(
            #[trigger] parts[i],
            Some(','),
        ) by {
            lemma_rule_text_plain(rules[i]);
            let p = parts[i];
            assert forall|k: int| 0 <= k < p.len() implies !text::separates(
                #[trigger] p[k],
                Some(','),
            ) by {
                assert(addr::rule_text(rules[i])[k] != ',');
            }
        }
        text_facts::lemma_pieces_joined(parts, ',', Some(','));
    } else {
        let nothing = Seq::<char>::empty();
        assert(text::joined(parts, ',') =~= nothing);
        let cut = text::pieces(nothing, Some(','));
        assert(cut =~= seq![nothing]);
        text_facts::lemma_trimmed_same(nothing);
        assert(addr::rule_of(nothing) is None);
        assert(cut.drop_last() =~= Seq::<Seq<char>>::empty());
        assert(cut.drop_last().filter_map(f) =~= Seq::<Rule>::empty());
        assert(cut.filter_map(f) =~= rules);
    }
}

/// A joined list of rule notations holds no line ending.
proof fn lemma_rule_list_plain(rules: Seq<Rule>)
    ensures
        !text::joined(rule_texts(rules), ',').contains('\n'),
        !text::joined(rule_texts(rules), ',').contains('\r'),
{
    let parts = rule_texts(rules);
    assert forall|i: int| 0 <= i < parts.len() implies !(#[trigger] parts[i]).contains('\n')
        && !parts[i].contains('\r') by {
        lemma_rule_text_plain(rules[i]);
    }
    text_facts::lemma_joined_lacks(parts, ',', '\n');
    text_facts::lemma_joined_lacks(parts, ',', '\r');
}

/// What follows a head in its line is read back.
proof fn lemma_value_of_line(head: Seq<char>, rest: Seq<char>)
    ensures
        value_of_line(head + rest, head) == Some(rest),
{
    assert((head + rest).take(head.len() as int) =~= head);
    assert((head + rest).skip(head.len() as int) =~= rest);
}

/// A line begins with one head at most.
proof fn lemma_heads_differ(line: Seq<char>)
    ensures
        text::begins(line, "STATE:"@) ==> !text::begins(line, "RULES:"@) && !text::begins(
            line,
            "PENDING:"@,
        ),
        text::begins(line, "RULES:"@) ==> !text::begins(line, "PENDING:"@),
{
    reveal_strlit("STATE:");
    reveal_strlit("RULES:");
    reveal_strlit("PENDING:");
    if text::begins(line, "STATE:"@) {
        assert(line[0] == line.take(6)[0]);
        assert(line[0] == 'S');
    }
    if text::begins(line, "RULES:"@) {
        assert(line[0] == line.take(6)[0]);
        assert(line[0] == 'R');
    }
    if text::begins(line, "PENDING:"@) {
        assert(line[0] == line.take(8)[0]);
        assert(line[0] == 'P');
    }
}

/// What three lines hold behind a head that one of them begins with.
proof fn lemma_one_value(lines: Seq<Seq<char>>, head: Seq<char>, k: int)
    requires
        lines.len() == 3,
        0 <= k < 3,
        text::begins(lines[k], head),
        forall|i: int| 0 <= i < 3 && i != k ==> !text::begins(#[trigger] lines[i], head),
    ensures
        values(lines, head) == seq![lines[k].skip(head.len() as int)],
{
    let f = |line: Seq<char>| value_of_line(line, head);
    assert(lines.take(3) =~= lines);
    assert(lines.take(0) =~= Seq::<Seq<char>>::empty());
    assert(lines.take(0).filter_map(f) =~= Seq::<Seq<char>>::empty());
    chain::lemma_filter_map_step(lines, f, 0);
    chain::lemma_filter_map_step(lines, f, 1);
    chain::lemma_filter_map_step(lines, f, 2);
    assert(values(lines, head) =~= seq![lines[k].skip(head.len() as int)]);
}

/// What each change does: a rule that is added is among the rules, unless there are 100 already; one
/// that is removed is not, whichever it is; all other rules stay. What is going on, and with which
/// rule, is what was said last.
pub proof fn law_cache_changes(c: CacheView, rule: Rule, other: Rule)
    requires
        valid(c),
    ensures
        with_rule(c, rule).rules.contains(rule) || c.rules.len() == 100,
        c.rules.contains(other) ==> with_rule(c, rule).rules.contains(other),
        with_rule(c, rule).rules.contains(other) ==> c.rules.contains(other) || other == rule,
        without_rule(c, rule).rules.contains(other) <==> c.rules.contains(other) && other != rule,
        adding(c, rule).rules == c.rules,
        deleting(c, rule).rules == c.rules,
        idle(c).rules == c.rules,
        adding(c, rule).state == CacheState::Adding,
        adding(c, rule).pending == Some(rule),
        deleting(c, rule).state == CacheState::Deleting,
        deleting(c, rule).pending == Some(rule),
        idle(with_rule(c, rule)) == with_rule(c, rule),
        idle(without_rule(c, rule)) == without_rule(c, rule),
        idle(c).state == CacheState::Idle,
        idle(c).pending is None,
{
    lists::lemma_included(c.rules, rule);
    lists::lemma_pushed(c.rules, rule);
    lists::lemma_without(c.rules, rule);
}

/// Without a line that says so, nothing is going on, no rule is noted and none is pending.
pub proof fn law_cache_silent(lines: Seq<Seq<char>>)
    ensures
        (forall|i: int|
            0 <= i < lines.len() ==> !text::begins(#[trigger] lines[i], "STATE:"@)) ==> cache_of(
            lines,
        ).state == CacheState::Idle,
        (forall|i: int|
            0 <= i < lines.len() ==> !text::begins(#[trigger] lines[i], "RULES:"@)) ==> cache_of(
            lines,
        ).rules.len() == 0,
        (forall|i: int|
            0 <= i < lines.len() ==> !text::begins(#[trigger] lines[i], "PENDING:"@)) ==> cache_of(
            lines,
        ).pending is None,
{
    let head = lists::at_most(lines, MAX_CACHE_LINES as nat);
    lemma_no_values(head, "STATE:"@);
    lemma_no_values(head, "RULES:"@);
    lemma_no_values(head, "PENDING:"@);
    lists::lemma_distinct(lists::at_most(all_rules(values(head, "RULES:"@)), MAX_RULES as nat));
}

proof fn lemma_no_values(lines: Seq<Seq<char>>, head: Seq<char>)
    ensures
        (forall|i: int| 0 <= i < lines.len() ==> !text::begins(#[trigger] lines[i], head))
            ==> values(lines, head).len() == 0,
    decreases lines.len(),
{
    if lines.len() > 0 {
        let shorter = lines.drop_last();
        lemma_no_values(shorter, head);
        assert(shorter.push(lines.last()) =~= lines);
        lemma_values_more(shorter, lines.last(), head);
        if forall|i: int| 0 <= i < lines.len() ==> !text::begins(#[trigger] lines[i], head) {
            assert forall|i: int| 0 <= i < shorter.len() implies !text::begins(
                #[trigger] shorter[i],
                head,
            ) by {
                assert(shorter[i] == lines[i]);
            }
            assert(!text::begins(lines[lines.len() - 1], head));
        }
    }
}

/// Of a longer file only the first ten lines count.
pub proof fn law_cache_lines_limited(lines: Seq<Seq<char>>, more: Seq<Seq<char>>)
    requires
        lines.len() == 10,
    ensures
        cache_of(lines + more) == cache_of(lines),
{
    assert((lines + more).take(10) =~= lines);
    if more.len() == 0 {
        assert(lines + more =~= lines);
    }
}

proof fn lemma_values_more(lines: Seq<Seq<char>>, line: Seq<char>, head: Seq<char>)
    ensures
        values(lines.push(line), head) == match value_of_line(line, head) {
            Some(rest) => values(lines, head).push(rest),
            None => values(lines, head),
        },
{
    let all = lines.push(line);
    assert(all.drop_last() =~= lines);
    if let Some(rest) = value_of_line(line, head) {
        assert(values(lines, head) + seq![rest] =~= values(lines, head).push(rest));
    }
}

/// What one more line of the first ten does: the state and the pending rule are those that were said
/// last, an unknown word standing for the idle state; a line with another head does nothing.
pub proof fn law_cache_line(lines: Seq<Seq<char>>, rest: Seq<char>, line: Seq<char>)
    requires
        lines.len() < 10,
    ensures
        cache_of(lines.push("STATE:"@ + rest)) == (CacheView {
            state: if rest == "ADDING"@ {
                CacheState::Adding
            } else if rest == "DELETING"@ {
                CacheState::Deleting
            } else {
                CacheState::Idle
            },
            ..cache_of(lines)
        }),
        cache_of(lines.push("PENDING:"@ + rest)) == (CacheView {
            pending: addr::rule_of(rest),
            ..cache_of(lines)
        }),
        !text::begins(line, "STATE:"@) && !text::begins(line, "RULES:"@) && !text::begins(
            line,
            "PENDING:"@,
        ) ==> cache_of(lines.push(line)) == cache_of(lines),
        cache_of(lines.push("RULES:"@ + rest)).state == cache_of(lines).state,
        cache_of(lines.push("RULES:"@ + rest)).pending == cache_of(lines).pending,
{
    let a = "STATE:"@ + rest;
    let b = "PENDING:"@ + rest;
    let c = "RULES:"@ + rest;
    lemma_value_of_line("STATE:"@, rest);
    lemma_value_of_line("PENDING:"@, rest);
    lemma_value_of_line("RULES:"@, rest);
    lemma_heads_differ(a);
    lemma_heads_differ(b);
    lemma_heads_differ(c);
    lemma_values_more(lines, a, "STATE:"@);
    lemma_values_more(lines, a, "RULES:"@);
    lemma_values_more(lines, a, "PENDING:"@);
    lemma_values_more(lines, b, "STATE:"@);
    lemma_values_more(lines, b, "RULES:"@);
    lemma_values_more(lines, b, "PENDING:"@);
    lemma_values_more(lines, c, "STATE:"@);
    lemma_values_more(lines, c, "RULES:"@);
    lemma_values_more(lines, c, "PENDING:"@);
    lemma_values_more(lines, line, "STATE:"@);
    lemma_values_more(lines, line, "RULES:"@);
    lemma_values_more(lines, line, "PENDING:"@);
}

/// What one more list of rules among the first ten lines does: with no more than 100 rules in all, each
/// rule that a part of the list denotes is among the rules, and so are those from before, and no other.
pub proof fn law_cache_rules(lines: Seq<Seq<char>>, parts: Seq<Seq<char>>, rule: Rule)
    requires
        lines.len() < 10,
        parts.len() > 0,
        forall|i: int| 0 <= i < parts.len() ==> !(#[trigger] parts[i]).contains(','),
        all_rules(values(lines, "RULES:"@)).len() + parts.len() <= 100,
    ensures
        cache_of(lines.push("RULES:"@ + text::joined(parts, ','))).rules.contains(rule)
            <==> cache_of(lines).rules.contains(rule) || exists|i: int|
            0 <= i < parts.len() && addr::rule_of(#[trigger] parts[i]) == Some(rule),
{
    let list = text::joined(parts, ',');
    let line = "RULES:"@ + list;
    let f = |part: Seq<char>| addr::rule_of(part);
    let old = all_rules(values(lines, "RULES:"@));
    let new = rules_of(list);
    lemma_value_of_line("RULES:"@, list);
    lemma_values_more(lines, line, "RULES:"@);
    assert(values(lines, "RULES:"@).push(list).drop_last() =~= values(lines, "RULES:"@));
    assert forall|i: int| 0 <= i < parts.len() implies text::unbroken(
        #[trigger] parts[i],
        Some(','),
    ) by {
        let p = parts[i];
        assert forall|k: int| 0 <= k < p.len() implies !text::separates(
            #[trigger] p[k],
            Some(','),
        ) by {
            assert(p.contains(p[k]));
        }
    }
    text_facts::lemma_pieces_joined(parts, ',', Some(','));
    chain::lemma_filter_map_len(parts, f);
    lists::lemma_distinct(old);
    lists::lemma_distinct(old + new);
    lists::lemma_filter_map_holds(parts, f, rule);
    assert((old + new).contains(rule) <==> old.contains(rule) || new.contains(rule)) by {
        if (old + new).contains(rule) {
            let i = choose|i: int| 0 <= i < (old + new).len() && (old + new)[i] == rule;
            if i < old.len() {
                assert(old[i] == rule);
            } else {
                assert(new[i - old.len()] == rule);
            }
        }
        if old.contains(rule) {
            let i = choose|i: int| 0 <= i < old.len() && old[i] == rule;
            assert((old + new)[i] == rule);
        }
        if new.contains(rule) {
            let i = choose|i: int| 0 <= i < new.len() && new[i] == rule;
            assert((old + new)[old.len() + i] == rule);
        }
    }
    if new.contains(rule) {
        let part = choose|part: Seq<char>| #[trigger] parts.contains(part) && f(part) == Some(rule);
        let i = choose|i: int| 0 <= i < parts.len() && parts[i] == part;
        assert(addr::rule_of(parts[i]) == Some(rule));
    }
    if exists|i: int| 0 <= i < parts.len() && addr::rule_of(#[trigger] parts[i]) == Some(rule) {
        let i = choose|i: int|
            0 <= i < parts.len() && addr::rule_of(#[trigger] parts[i]) == Some(rule);
        assert(parts.contains(parts[i]) && f(parts[i]) == Some(rule));
    }
}

/// Reading gives back what was written: the lines of the file that is written for a cache denote
/// that cache.
pub proof fn law_cache_round_trip(c: CacheView)
    requires
        valid(c),
    ensures
        cache_of(text::lines_of(cache_text(c))) == c,
{
    reveal(cache_lines);
    let lines = cache_lines(c);
    let list = text::joined(rule_texts(c.rules), ',');
    let word = state_text(c.state);
    let rest = match c.pending {
        Some(rule) => addr::rule_text(rule),
        None => Seq::<char>::empty(),
    };
    reveal_strlit("STATE:");
    reveal_strlit("RULES:");
    reveal_strlit("PENDING:");
    reveal_strlit("IDLE");
    reveal_strlit("ADDING");
    reveal_strlit("DELETING");
    lemma_rule_list_plain(c.rules);
    lemma_value_of_line("STATE:"@, word);
    lemma_value_of_line("RULES:"@, list);
    lemma_value_of_line("PENDING:"@, rest);
    if c.pending is Some {
        lemma_rule_text_plain(c.pending->0);
        addr::law_rule_round_trip(c.pending->0);
    } else {
        text_facts::lemma_trimmed_same(rest);
    }
    assert(lines[0] == "STATE:"@ + word);
    assert(lines[1] == "RULES:"@ + list);
    assert(lines[2] == "PENDING:"@ + rest);
    assert forall|i: int| 0 <= i < lines.len() implies text::unbroken(
        #[trigger] lines[i],
        Some('\n'),
    ) && text::without_cr(lines[i]) == lines[i] by {
        let line = lines[i];
        assert forall|k: int| 0 <= k < line.len() implies #[trigger] line[k] != '\n' && line[k]
            != '\r' by {
            if i == 1 && k >= 6 {
                assert(line[k] == list[k - 6]);
                assert(list.contains(list[k - 6]));
            }
            if i == 2 && k >= 8 {
                assert(line[k] == rest[k - 8]);
            }
        }
        assert forall|k: int| 0 <= k < line.len() implies !text::separates(
            #[trigger] line[k],
            Some('\n'),
        ) by {
            assert(line[k] != '\n');
        }
        if line.len() > 0 {
            assert(line[line.len() - 1] != '\r');
        }
    }
    text_facts::lemma_lines_unlines(lines);
    lemma_heads_differ(lines[0]);
    lemma_heads_differ(lines[1]);
    lemma_heads_differ(lines[2]);
    lemma_one_value(lines, "STATE:"@, 0);
    lemma_one_value(lines, "RULES:"@, 1);
    lemma_one_value(lines, "PENDING:"@, 2);
    lemma_rule_list_back(c.rules);
    let found = seq![list];
    assert(found.drop_last() =~= Seq::<Seq<char>>::empty());
    assert(all_rules(found.drop_last()) =~= Seq::<Rule>::empty());
    assert(all_rules(found) =~= c.rules);
    lists::lemma_distinct_same(c.rules);
    assert(state_of(word) == c.state) by {
        assert("ADDING"@ != "DELETING"@) by {
            assert("ADDING"@.len() != "DELETING"@.len());
        }
        assert("IDLE"@.len() != "ADDING"@.len() && "IDLE"@.len() != "DELETING"@.len());
    }
    assert(cache_of(text::lines_of(cache_text(c))) =~= c);
}

// ---------------------------------------------------------------------------
// Reading, writing and changing
// ---------------------------------------------------------------------------

/// The state that a word stands for.
fn parse_state(word: &[char]) -> (out: CacheState)
    ensures
        out == state_of(word@),
{
    if text::spells(word, "ADDING") {
        CacheState::Adding
    } else if text::spells(word, "DELETING") {
        CacheState::Deleting
    } else {
        CacheState::Idle
    }
}

impl Cache {
    /// The cache of a first run.
    pub fn new() -> (out: Cache)
        ensures
            out@ == empty_cache(),
            valid(out@),
    {
        let out = Cache { state: CacheState::Idle, rules: Vec::new(), pending: None };
        proof {
            assert(out@ =~= empty_cache());
        }
        out
    }

    /// Adds the rules of `list`, whose members are parted by commas, as long as `count`, the
    /// number of rules read so far, is below the limit.
    fn read_rules(&mut self, list: &[char], count: usize, before: Ghost<Seq<Rule>>) -> (now: usize)
        requires
            count == lists::at_most(before@, MAX_RULES as nat).len(),
            old(self).rules@ == lists::distinct(lists::at_most(before@, MAX_RULES as nat)),
        ensures
            final(self).state == old(self).state,
            final(self).pending == old(self).pending,
            now == lists::at_most(before@ + rules_of(list@), MAX_RULES as nat).len(),
            final(self).rules@ == lists::distinct(
                lists::at_most(before@ + rules_of(list@), MAX_RULES as nat),
            ),
    {
        let parts = text::split(list, Some(','));
        let ghost all = text::pieces(list@, Some(','));
        let ghost f = |part: Seq<char>| addr::rule_of(part);
        let mut now: usize = count;
        let mut i: usize = 0;
        proof {
            assert(text::contents(parts@).len() == parts@.len());
            assert(all.take(0).filter_map(f) =~= Seq::<Rule>::empty());
            assert(before@ + all.take(0).filter_map(f) =~= before@);
        }
        while i < parts.len() && now < MAX_RULES
            invariant
                text::contents(parts@) == all,
                all.len() == parts@.len(),
                f == (|part: Seq<char>| addr::rule_of(part)),
                i <= parts@.len(),
                now <= MAX_RULES,
                now == lists::at_most(before@ + all.take(i as int).filter_map(f), MAX_RULES as nat).len(),
                self.state == old(self).state,
                self.pending == old(self).pending,
                self.rules@ == lists::distinct(
                    lists::at_most(before@ + all.take(i as int).filter_map(f), MAX_RULES as nat),
                ),
            decreases parts@.len() - i,
        {
            let ghost read = before@ + all.take(i as int).filter_map(f);
            proof {
                assert(parts@[i as int]@ == text::contents(parts@)[i as int]);
                chain::lemma_filter_map_step(all, f, i as int);
            }
            match addr::rule_from(parts[i].as_slice()) {
                Some(rule) => {
                    lists::include_rule(&mut self.rules, rule);
                    now = now + 1;
                    proof {
                        assert(before@ + all.take(i + 1).filter_map(f) =~= read.push(rule));
                        lists::lemma_distinct_push(read, rule);
                    }
                },
                None => {},
            }
            i = i + 1;
        }
        proof {
            assert(all.take(all.len() as int) =~= all);
            if i < parts@.len() {
                let read = before@ + all.take(i as int).filter_map(f);
                let whole = before@ + all.filter_map(f);
                lemma_filter_map_prefix(all, f, i as int);
                assert(whole.take(MAX_RULES as int) =~= read.take(MAX_RULES as int));
                assert(lists::at_most(whole, MAX_RULES as nat) =~= lists::at_most(
                    read,
                    MAX_RULES as nat,
                ));
            }
        }
        now
    }

    /// The cache that the lines of its file denote.
    pub fn load(lines: &Vec<String>) -> (out: Cache)
        ensures
            out@ == cache_of(text::texts(lines@)),
            valid(out@),
    {
        let mut cache = Cache::new();
        let mut count: usize = 0;
        let ghost all = text::texts(lines@);
        let mut limit: usize = lines.len();
        if limit > MAX_CACHE_LINES {
            limit = MAX_CACHE_LINES;
        }
        let ghost head = lists::at_most(all, MAX_CACHE_LINES as nat);
        let ghost s = |line: Seq<char>| value_of_line(line, "STATE:"@);
        let ghost r = |line: Seq<char>| value_of_line(line, "RULES:"@);
        let ghost p = |line: Seq<char>| value_of_line(line, "PENDING:"@);
        proof {
            assert(all.len() == lines@.len());
            assert(head =~= all.take(limit as int));
            assert(head.take(0).filter_map(s) =~= Seq::<Seq<char>>::empty());
            assert(head.take(0).filter_map(r) =~= Seq::<Seq<char>>::empty());
            assert(head.take(0).filter_map(p) =~= Seq::<Seq<char>>::empty());
            assert(all_rules(head.take(0).filter_map(r)) =~= Seq::<Rule>::empty());
            assert(cache.rules@ =~= lists::distinct(Seq::<Rule>::empty()));
        }
        for i in 0..limit
            invariant
                all == text::texts(lines@),
                all.len() == lines@.len(),
                limit <= lines@.len(),
                head == all.take(limit as int),
                s == (|line: Seq<char>| value_of_line(line, "STATE:"@)),
                r == (|line: Seq<char>| value_of_line(line, "RULES:"@)),
                p == (|line: Seq<char>| value_of_line(line, "PENDING:"@)),
                cache.state == if head.take(i as int).filter_map(s).len() == 0 {
                    CacheState::Idle
                } else {
                    state_of(head.take(i as int).filter_map(s).last())
                },
                cache.pending == if head.take(i as int).filter_map(p).len() == 0 {
                    None
                } else {
                    addr::rule_of(head.take(i as int).filter_map(p).last())
                },
                count == lists::at_most(
                    all_rules(head.take(i as int).filter_map(r)),
                    MAX_RULES as nat,
                ).len(),
                cache.rules@ == lists::distinct(
                    lists::at_most(all_rules(head.take(i as int).filter_map(r)), MAX_RULES as nat),
                ),
        {
            let chars = text::chars_of(lines[i].as_str());
            let line = chars.as_slice();
            let ghost found = head.take(i as int).filter_map(r);
            proof {
                assert(line@ == head[i as int]);
                chain::lemma_filter_map_step(head, s, i as int);
                chain::lemma_filter_map_step(head, r, i as int);
                chain::lemma_filter_map_step(head, p, i as int);
                lemma_heads_differ(line@);
            }
            if let Some(word) = text::strip_prefix(line, "STATE:") {
                cache.state = parse_state(word);
            } else if let Some(list) = text::strip_prefix(line, "RULES:") {
                count = cache.read_rules(list, count, Ghost(all_rules(found)));
                proof {
                    assert(found.push(list@).drop_last() =~= found);
                }
            } else if let Some(word) = text::strip_prefix(line, "PENDING:") {
                cache.pending = addr::rule_from(word);
            }
        }
        proof {
            assert(head.take(limit as int) =~= head);
            lemma_cache_of_valid(all);
            assert(cache@ =~= cache_of(all));
        }
        cache
    }

    /// Appends the notations of the rules to `chars`, parted by commas.
    fn append_rules(&self, chars: &mut Vec<char>)
        ensures
            final(chars)@ == old(chars)@ + text::joined(
                rule_texts(lists::at_most(self.rules@, MAX_RULES as nat)),
                ',',
            ),
    {
        let mut limit: usize = self.rules.len();
        if limit > MAX_RULES {
            limit = MAX_RULES;
        }
        let ghost start = chars@;
        let ghost kept = lists::at_most(self.rules@, MAX_RULES as nat);
        let ghost parts = rule_texts(kept);
        proof {
            assert(kept =~= self.rules@.take(limit as int));
            assert(parts.take(0) =~= Seq::<Seq<char>>::empty());
            assert(text::joined(parts.take(0), ',') =~= Seq::<char>::empty());
            assert(start + text::joined(parts.take(0), ',') =~= start);
        }
        for i in 0..limit
            invariant
                limit <= self.rules@.len(),
                kept == self.rules@.take(limit as int),
                parts == rule_texts(kept),
                chars@ == start + text::joined(parts.take(i as int), ','),
        {
            let rule = self.rules[i];
            let mut part: Vec<char> = Vec::new();
            rule.append_to(&mut part);
            text::append_joined(chars, part.as_slice(), ',', i == 0);
            proof {
                assert(part@ =~= addr::rule_text(rule));
                assert(parts[i as int] == addr::rule_text(rule));
                let now = parts.take(i + 1);
                assert(now.drop_last() =~= parts.take(i as int));
                assert(now.last() == parts[i as int]);
                if i == 0 {
                    assert(parts.take(0) =~= Seq::<Seq<char>>::empty());
                }
                assert(chars@ =~= start + text::joined(now, ','));
            }
        }
        proof {
            assert(parts.take(limit as int) =~= parts);
        }
    }

    /// The text of the file that keeps the cache.
    pub fn save(&self) -> (out: String)
        ensures
            out@ == cache_text(self@),
    {
        let mut chars: Vec<char> = Vec::new();
        text::append_text(&mut chars, "STATE:");
        match self.state {
            CacheState::Idle => text::append_text(&mut chars, "IDLE"),
            CacheState::Adding => text::append_text(&mut chars, "ADDING"),
            CacheState::Deleting => text::append_text(&mut chars, "DELETING"),
        }
        let ghost first = chars@;
        chars.push('\n');
        text::append_text(&mut chars, "RULES:");
        self.append_rules(&mut chars);
        let ghost second = chars@;
        chars.push('\n');
        text::append_text(&mut chars, "PENDING:");
        match self.pending {
            Some(rule) => rule.append_to(&mut chars),
            None => {},
        }
        let ghost third = chars@;
        chars.push('\n');
        proof {
            reveal(cache_lines);
            let l = cache_lines(self@);
            assert(first =~= l[0]);
            assert(second =~= l[0] + seq!['\n'] + l[1]);
            assert(third =~= l[0] + seq!['\n'] + l[1] + seq!['\n'] + l[2]);
            text_facts::lemma_three_lines(l);
            assert(chars@ =~= cache_text(self@));
        }
        text::string_of(chars.as_slice())
    }

    /// Notes that nothing is going on any longer; gives the text to keep.
    pub fn set_idle(&mut self) -> (out: String)
        ensures
            final(self)@ == idle(old(self)@),
            out@ == cache_text(idle(old(self)@)),
    {
        self.state = CacheState::Idle;
        self.pending = None;
        proof {
            assert(self@ =~= idle(old(self)@));
        }
        self.save()
    }

    /// Notes that a rule is about to be added; gives the text to keep.
    pub fn set_adding(&mut self, rule: Rule) -> (out: String)
        ensures
            final(self)@ == adding(old(self)@, rule),
            out@ == cache_text(adding(old(self)@, rule)),
    {
        self.state = CacheState::Adding;
        self.pending = Some(rule);
        proof {
            assert(self@ =~= adding(old(self)@, rule));
        }
        self.save()
    }

    /// Notes that a rule is about to be deleted; gives the text to keep.
    pub fn set_deleting(&mut self, rule: Rule) -> (out: String)
        ensures
            final(self)@ == deleting(old(self)@, rule),
            out@ == cache_text(deleting(old(self)@, rule)),
    {
        self.state = CacheState::Deleting;
        self.pending = Some(rule);
        proof {
            assert(self@ =~= deleting(old(self)@, rule));
        }
        self.save()
    }

    /// Notes that a rule is in force; gives the text to keep.
    pub fn add_rule(&mut self, rule: Rule) -> (out: String)
        ensures
            final(self)@ == with_rule(old(self)@, rule),
            out@ == cache_text(with_rule(old(self)@, rule)),
    {
        if self.rules.len() < MAX_RULES {
            lists::include_rule(&mut self.rules, rule);
        }
        self.state = CacheState::Idle;
        self.pending = None;
        proof {
            assert(self@ =~= with_rule(old(self)@, rule));
        }
        self.save()
    }

    /// Notes that a rule is no longer in force; gives the text to keep.
    pub fn remove_rule(&mut self, rule: Rule) -> (out: String)
        ensures
            final(self)@ == without_rule(old(self)@, rule),
            out@ == cache_text(without_rule(old(self)@, rule)),
    {
        self.rules = lists::leave_out(&self.rules, rule);
        self.state = CacheState::Idle;
        self.pending = None;
        proof {
            assert(self@ =~= without_rule(old(self)@, rule));
        }
        self.save()
    }
}

/// Mapping more elements gives the same first results.
proof fn lemma_filter_map_prefix<A, B>(s: Seq<A>, f: spec_fn(A) -> Option<B>, i: int)
    requires
        0 <= i <= s.len(),
    ensures
        s.take(i).filter_map(f).len() <= s.filter_map(f).len(),
        s.filter_map(f).take(s.take(i).filter_map(f).len() as int) == s.take(i).filter_map(f),
    decreases s.len(),
{
    let part = s.take(i).filter_map(f);
    if i == s.len() {
        assert(s.take(i) =~= s);
        assert(part.take(part.len() as int) =~= part);
    } else {
        let shorter = s.drop_last();
        lemma_filter_map_prefix(shorter, f, i);
        assert(shorter.take(i) =~= s.take(i));
        assert(s.filter_map(f).take(part.len() as int) =~= shorter.filter_map(f).take(
            part.len() as int,
        ));
    }
}

} // verus!
