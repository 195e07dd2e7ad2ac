//! The rules that `iptables -S` lists.

use crate::addr;
use crate::addr::Ipv4Addr;
use crate::addr::Rule;
use crate::command;
use crate::config;
use crate::lists;
use crate::text;
use crate::text_facts;
use vstd::prelude::*;

verus! {

/// How many rules that admit an address are looked at.
pub const MAX_RULES: usize = 100;

/// How many words of a listed rule are looked at.
pub const MAX_WORDS: usize = 50;

/// The rules of the chain.
pub struct ChainRules {
    /// The addresses that are admitted, without repetition.
    pub accept: Vec<Rule>,
    /// The ports that are blocked, without repetition.
    pub drop: Vec<u16>,
    /// Whether there were too many lines to read them all.
    pub truncated: bool,
}

/// What the rules of the chain say.
#[verifier::ext_equal]
pub struct ChainView {
    pub accept: Seq<Rule>,
    pub drop: Seq<u16>,
}

impl View for ChainRules {
    type V = ChainView;

    open spec fn view(&self) -> ChainView {
        ChainView { accept: self.accept@, drop: self.drop@ }
    }
}

// ---------------------------------------------------------------------------
// What a listing means
// ---------------------------------------------------------------------------

/// The word behind the last occurrence of `flag` before position `k`.
pub open spec fn value_before(words: Seq<Seq<char>>, flag: Seq<char>, k: int) -> Option<Seq<char>>
    decreases k,
{
    if k <= 0 {
        None
    } else if words[k - 1] == flag && k < words.len() {
        Some(words[k])
    } else {
        value_before(words, flag, k - 1)
    }
}

/// The value of an option: the word behind the last occurrence of `flag` among the first words.
pub open spec fn option_value(words: Seq<Seq<char>>, flag: Seq<char>) -> Option<Seq<char>> {
    let k = if words.len() <= MAX_WORDS {
        words.len() as int
    } else {
        MAX_WORDS as int
    };
    value_before(words, flag, k)
}

/// The source address that a listed rule names.
pub open spec fn listed_ip(line: Seq<char>) -> Option<Ipv4Addr> {
    match option_value(text::words_of(line), "-s"@) {
        Some(word) => addr::ip_of(text::without_tails(word, "/32"@)),
        None => None,
    }
}

/// The destination port that a listed rule names.
pub open spec fn listed_port(line: Seq<char>) -> Option<u16> {
    match option_value(text::words_of(line), "--dport"@) {
        Some(word) => addr::u16_of(word),
        None => None,
    }
}

/// The address and the port that a listed rule names.
pub open spec fn listed_rule(line: Seq<char>) -> Option<Rule> {
    match (listed_ip(line), listed_port(line)) {
        (Some(ip), Some(port)) => Some(Rule { ip, port }),
        _ => None,
    }
}

/// Whether the line is that of a rule that admits an address.
pub open spec fn is_accept_line(line: Seq<char>) -> bool {
    text::occurs(line, command::IPTABLES_COMMENT@) && text::occurs(line, "ACCEPT"@)
}

/// Whether the line is that of a rule that blocks a port.
pub open spec fn is_drop_line(line: Seq<char>) -> bool {
    !is_accept_line(line) && text::occurs(line, command::IPTABLES_DROP_COMMENT@) && text::occurs(
        line,
        "DROP"@,
    )
}

/// Whether the line is that of a rule that an earlier release put into `INPUT`.
pub open spec fn is_legacy_line(line: Seq<char>) -> bool {
    is_accept_line(line) && !text::occurs(line, command::IPTABLES_JUMP_COMMENT@) && !text::occurs(
        line,
        command::CHAIN_NAME@,
    )
}

/// The rule that a line of the chain admits.
pub open spec fn accept_of(line: Seq<char>) -> Option<Rule> {
    if is_accept_line(line) {
        listed_rule(line)
    } else {
        None
    }
}

/// The port that a line of the chain blocks.
pub open spec fn drop_of(line: Seq<char>) -> Option<u16> {
    if is_drop_line(line) {
        listed_port(line)
    } else {
        None
    }
}

/// The rule of an earlier release that a line of `INPUT` holds.
pub open spec fn legacy_of(line: Seq<char>) -> Option<Rule> {
    if is_legacy_line(line) {
        listed_rule(line)
    } else {
        None
    }
}

/// The lines of a listing that are read.
pub open spec fn read_lines(output: Seq<char>) -> Seq<Seq<char>> {
    lists::at_most(text::lines_of(output), config::MAX_LOOP_ITERATIONS as nat)
}

/// The rules that lines admit, in order.
pub open spec fn accepts_in(lines: Seq<Seq<char>>) -> Seq<Rule> {
    lines.filter_map(|line: Seq<char>| accept_of(line))
}

/// The ports that lines block, in order.
pub open spec fn drops_in(lines: Seq<Seq<char>>) -> Seq<u16> {
    lines.filter_map(|line: Seq<char>| drop_of(line))
}

/// The rules of an earlier release that lines hold, in order.
pub open spec fn legacy_in(lines: Seq<Seq<char>>) -> Seq<Rule> {
    lines.filter_map(|line: Seq<char>| legacy_of(line))
}

/// The rules of the chain, as a listing shows them: every admitted address and every blocked
/// port of the first lines once, the admitted addresses up to a limit. Without a listing there
/// are none.
pub open spec fn chain_of(output: Option<Seq<char>>) -> ChainView {
    match output {
        Some(shown) => ChainView {
            accept: lists::at_most(lists::distinct(accepts_in(read_lines(shown))), MAX_RULES as nat),
            drop: lists::distinct(drops_in(read_lines(shown))),
        },
        None => ChainView { accept: Seq::<Rule>::empty(), drop: Seq::<u16>::empty() },
    }
}

/// The rules of an earlier release in `INPUT`, as a listing of its first lines shows them.
pub open spec fn legacy_rules(output: Option<Seq<char>>) -> Seq<Rule> {
    match output {
        Some(shown) => legacy_in(read_lines(shown)),
        None => Seq::<Rule>::empty(),
    }
}

// ---------------------------------------------------------------------------
// Facts
// ---------------------------------------------------------------------------

/// Mapping one element more.
pub proof fn lemma_filter_map_step<A, B>(s: Seq<A>, f: spec_fn(A) -> Option<B>, i: int)
    requires
        0 <= i < s.len(),
    ensures
        s.take(i + 1).filter_map(f) == match f(s[i]) {
            Some(b) => s.take(i).filter_map(f).push(b),
            None => s.take(i).filter_map(f),
        },
{
    let part = s.take(i + 1);
    assert(part.drop_last() =~= s.take(i));
    assert(part.last() == s[i]);
    match f(s[i]) {
        Some(b) => {
            assert(s.take(i).filter_map(f) + seq![b] =~= s.take(i).filter_map(f).push(b));
        },
        None => {},
    }
}

/// No more elements come out than went in.
pub proof fn lemma_filter_map_len<A, B>(s: Seq<A>, f: spec_fn(A) -> Option<B>)
    ensures
        s.filter_map(f).len() <= s.len(),
    decreases s.len(),
{
    if s.len() > 0 {
        lemma_filter_map_len(s.drop_last(), f);
    }
}

/// What is read from the chain holds nothing twice and keeps to the limits.
pub proof fn lemma_chain_bounded(output: Option<Seq<char>>)
    ensures
        chain_of(output).accept.no_duplicates(),
        chain_of(output).accept.len() <= MAX_RULES,
        chain_of(output).drop.no_duplicates(),
        chain_of(output).drop.len() <= config::MAX_LOOP_ITERATIONS,
        legacy_rules(output).len() <= config::MAX_LOOP_ITERATIONS,
{
    match output {
        Some(shown) => {
            let lines = read_lines(shown);
            lists::lemma_distinct(accepts_in(lines));
            lists::lemma_distinct(drops_in(lines));
            lemma_filter_map_len(lines, |line: Seq<char>| drop_of(line));
            lemma_filter_map_len(lines, |line: Seq<char>| legacy_of(line));
        },
        None => {},
    }
}

/// A line counts only when it holds the mark of the rules of this program and what the rule does; a
/// line of `INPUT` not when it has to do with the chain.
pub proof fn law_only_marked(line: Seq<char>)
    ensures
        accept_of(line) is Some ==> text::occurs(line, "DDNS-ACCESS"@) && text::occurs(
            line,
            "ACCEPT"@,
        ),
        drop_of(line) is Some ==> text::occurs(line, "DDNS-DROP"@) && text::occurs(line, "DROP"@),
        accept_of(line) is Some ==> drop_of(line) is None,
        legacy_of(line) is Some ==> accept_of(line) == legacy_of(line) && !text::occurs(
            line,
            "DDNS-FW"@,
        ) && !text::occurs(line, "DDNS-JUMP"@),
        accept_of(line) is Some && legacy_of(line) is None ==> text::occurs(line, "DDNS-FW"@)
            || text::occurs(line, "DDNS-JUMP"@),
{
}

/// Word `i` is the last one among the first 50 that is the flag and has a word behind it.
pub open spec fn flagged(words: Seq<Seq<char>>, flag: Seq<char>, i: int) -> bool {
    &&& 0 <= i < 50
    &&& i + 1 < words.len()
    &&& words[i] == flag
    &&& forall|k: int| i < k < 50 && k + 1 < words.len() ==> #[trigger] words[k] != flag
}

proof fn lemma_flagged(words: Seq<Seq<char>>, flag: Seq<char>, i: int, k: int)
    requires
        flagged(words, flag, i),
        i < k <= 50,
        k <= words.len(),
    ensures
        value_before(words, flag, k) == Some(words[i + 1]),
    decreases k,
{
    if k > i + 1 {
        if k < words.len() {
            assert(words[k - 1] != flag);
        }
        lemma_flagged(words, flag, i, k - 1);
    }
}

/// A marked line is read as the address behind `-s`, in its dotted notation with or without `/32`, and
/// the port behind `--dport`, wherever in the line they stand and whatever else it holds.
pub proof fn law_line_read(line: Seq<char>, i: int, j: int, ip: Ipv4Addr, port: u16)
    requires
        flagged(text::words_of(line), "-s"@, i),
        text::words_of(line)[i + 1] == addr::ip_text(ip) || text::words_of(line)[i + 1]
            == addr::ip_text(ip) + "/32"@,
        flagged(text::words_of(line), "--dport"@, j),
        addr::u16_of(text::words_of(line)[j + 1]) == Some(port),
    ensures
        text::occurs(line, "DDNS-ACCESS"@) && text::occurs(line, "ACCEPT"@) ==> accept_of(line)
            == Some(Rule { ip, port }),
{
    let words = text::words_of(line);
    let word = words[i + 1];
    let k = if words.len() <= MAX_WORDS {
        words.len() as int
    } else {
        MAX_WORDS as int
    };
    lemma_flagged(words, "-s"@, i, k);
    lemma_flagged(words, "--dport"@, j, k);
    reveal_strlit("/32");
    text_facts::law_without_tails(addr::ip_text(ip), "/32"@);
    assert forall|a: Seq<char>| addr::ip_text(ip) != #[trigger] (a + "/32"@) by {
        addr::lemma_ip_text_plain(ip);
        if addr::ip_text(ip) == a + "/32"@ {
            assert((a + "/32"@)[a.len() as int] == '/');
            assert(addr::ip_text(ip)[a.len() as int] == '/');
        }
    }
    addr::law_ip_round_trip(ip);
}

/// A marked line of a rule that blocks is read as the port behind `--dport`.
pub proof fn law_block_read(line: Seq<char>, j: int, port: u16)
    requires
        flagged(text::words_of(line), "--dport"@, j),
        addr::u16_of(text::words_of(line)[j + 1]) == Some(port),
        text::occurs(line, "DDNS-DROP"@),
        text::occurs(line, "DROP"@),
        !text::occurs(line, "DDNS-ACCESS"@) || !text::occurs(line, "ACCEPT"@),
    ensures
        drop_of(line) == Some(port),
{
    let words = text::words_of(line);
    let k = if words.len() <= MAX_WORDS {
        words.len() as int
    } else {
        MAX_WORDS as int
    };
    lemma_flagged(words, "--dport"@, j, k);
}

proof fn lemma_tails_begin(s: Seq<char>, tail: Seq<char>)
    ensures
        text::begins(s, text::without_tails(s, tail)),
    decreases s.len(),
{
    if tail.len() > 0 && text::ends(s, tail) {
        let shorter = s.take(s.len() - tail.len());
        let rest = text::without_tails(shorter, tail);
        lemma_tails_begin(shorter, tail);
        assert(s.take(rest.len() as int) =~= shorter.take(rest.len() as int));
    } else {
        assert(s.take(s.len() as int) =~= s);
    }
}

proof fn lemma_value_flagged(words: Seq<Seq<char>>, flag: Seq<char>, top: int, k: int)
    requires
        0 <= k <= top <= 50,
        top == words.len() || top == 50 && top <= words.len(),
        forall|m: int| k <= m < top && m + 1 < words.len() ==> #[trigger] words[m] != flag,
        value_before(words, flag, k) is Some,
    ensures
        exists|i: int| #[trigger] flagged(words, flag, i) && value_before(words, flag, k) == Some(
            words[i + 1],
        ),
    decreases k,
{
    if k > 0 {
        if words[k - 1] == flag && k < words.len() {
            assert(flagged(words, flag, k - 1));
        } else {
            lemma_value_flagged(words, flag, top, k - 1);
        }
    }
}

/// What is read from a line stands in it: the word behind `-s` begins with the notation of the address,
/// and the word behind `--dport` is one of the port.
pub proof fn law_line_says(line: Seq<char>, rule: Rule)
    ensures
        accept_of(line) == Some(rule) ==> {
            &&& exists|i: int| #[trigger]
                flagged(text::words_of(line), "-s"@, i) && text::begins(
                    text::words_of(line)[i + 1],
                    addr::ip_text(rule.ip),
                )
            &&& exists|j: int| #[trigger]
                flagged(text::words_of(line), "--dport"@, j) && addr::u16_of(
                    text::words_of(line)[j + 1],
                ) == Some(rule.port)
        },
        drop_of(line) == Some(rule.port) ==> exists|j: int| #[trigger]
            flagged(text::words_of(line), "--dport"@, j) && addr::u16_of(text::words_of(line)[j + 1])
                == Some(rule.port),
{
    let words = text::words_of(line);
    let top = if words.len() <= MAX_WORDS {
        words.len() as int
    } else {
        MAX_WORDS as int
    };
    if option_value(words, "--dport"@) is Some {
        lemma_value_flagged(words, "--dport"@, top, top);
    }
    if let Some(word) = option_value(words, "-s"@) {
        lemma_value_flagged(words, "-s"@, top, top);
        lemma_tails_begin(word, "/32"@);
        addr::law_ip_notation(rule.ip, text::without_tails(word, "/32"@));
    }
}

proof fn lemma_line_of<A>(lines: Seq<Seq<char>>, n: int, f: spec_fn(Seq<char>) -> Option<A>, x: A)
    requires
        0 <= n <= lines.len(),
        lines.take(n).filter_map(f).contains(x),
    ensures
        exists|i: int| 0 <= i < n && f(#[trigger] lines[i]) == Some(x),
{
    let part = lines.take(n);
    lists::lemma_filter_map_holds(part, f, x);
    let line = choose|line: Seq<char>| #[trigger] part.contains(line) && f(line) == Some(x);
    let i = choose|i: int| 0 <= i < part.len() && part[i] == line;
    assert(lines[i] == line);
}

/// Nothing is read from a listing but what one of its first 200 lines says.
pub proof fn law_only_read(output: Seq<char>, rule: Rule, port: u16)
    ensures
        ({
            let lines = text::lines_of(output);
            let read = chain_of(Some(output));
            &&& read.accept.contains(rule) ==> exists|i: int|
                0 <= i < 200 && i < lines.len() && accept_of(#[trigger] lines[i]) == Some(rule)
            &&& read.drop.contains(port) ==> exists|i: int|
                0 <= i < 200 && i < lines.len() && drop_of(#[trigger] lines[i]) == Some(port)
            &&& legacy_rules(Some(output)).contains(rule) ==> exists|i: int|
                0 <= i < 200 && i < lines.len() && legacy_of(#[trigger] lines[i]) == Some(rule)
        }),
{
    let lines = text::lines_of(output);
    let read = chain_of(Some(output));
    let n = if lines.len() < 200 {
        lines.len() as int
    } else {
        200
    };
    let part = read_lines(output);
    assert(part =~= lines.take(n));
    lists::lemma_distinct(accepts_in(part));
    lists::lemma_distinct(drops_in(part));
    if read.accept.contains(rule) {
        let all = lists::distinct(accepts_in(part));
        let k = choose|k: int| 0 <= k < read.accept.len() && read.accept[k] == rule;
        assert(all[k] == rule);
        assert(all.contains(rule));
        lemma_line_of(lines, n, |line: Seq<char>| accept_of(line), rule);
    }
    if read.drop.contains(port) {
        lemma_line_of(lines, n, |line: Seq<char>| drop_of(line), port);
    }
    if legacy_rules(Some(output)).contains(rule) {
        lemma_line_of(lines, n, |line: Seq<char>| legacy_of(line), rule);
    }
}

/// What the first 200 lines of a listing say is read; of the admitted addresses 100 are, and fewer only
/// when there are no more.
pub proof fn law_lines_read(output: Seq<char>, i: int)
    requires
        0 <= i < 200,
        i < text::lines_of(output).len(),
    ensures
        ({
            let line = text::lines_of(output)[i];
            let read = chain_of(Some(output));
            &&& accept_of(line) matches Some(rule) ==> read.accept.contains(rule)
                || read.accept.len() == 100
            &&& drop_of(line) matches Some(port) ==> read.drop.contains(port)
            &&& legacy_of(line) matches Some(rule) ==> legacy_rules(Some(output)).contains(rule)
        }),
{
    let line = text::lines_of(output)[i];
    let lines = read_lines(output);
    assert(lines[i] == line);
    assert(lines.contains(line));
    lists::lemma_distinct(accepts_in(lines));
    lists::lemma_distinct(drops_in(lines));
    if let Some(rule) = accept_of(line) {
        lists::lemma_filter_map_holds(lines, |l: Seq<char>| accept_of(l), rule);
    }
    if let Some(port) = drop_of(line) {
        lists::lemma_filter_map_holds(lines, |l: Seq<char>| drop_of(l), port);
    }
    if let Some(rule) = legacy_of(line) {
        lists::lemma_filter_map_holds(lines, |l: Seq<char>| legacy_of(l), rule);
    }
}

// ---------------------------------------------------------------------------
// Reading
// ---------------------------------------------------------------------------

/// The value of an option among the words of a listed rule: the position of the word.
fn find_option(words: &Vec<Vec<char>>, flag: &str) -> (out: Option<usize>)
    ensures
        match out {
            Some(i) => i < words@.len() && option_value(text::contents(words@), flag@) == Some(
                words@[i as int]@,
            ),
            None => option_value(text::contents(words@), flag@) is None,
        },
{
    let mut k: usize = words.len();
    if k > MAX_WORDS {
        k = MAX_WORDS;
    }
    let ghost all = text::contents(words@);
    proof {
        assert(all.len() == words@.len());
    }
    while k > 0
        invariant
            all == text::contents(words@),
            all.len() == words@.len(),
            k <= words@.len(),
            option_value(all, flag@) == value_before(all, flag@, k as int),
        decreases k,
    {
        proof {
            assert(all[k - 1] == words@[k - 1]@);
            if k < words@.len() {
                assert(all[k as int] == words@[k as int]@);
            }
        }
        if k < words.len() && text::spells(words[k - 1].as_slice(), flag) {
            return Some(k);
        }
        k = k - 1;
    }
    None
}

/// The destination port among the words of a listed rule.
fn find_port(words: &Vec<Vec<char>>) -> (out: Option<u16>)
    ensures
        out == match option_value(text::contents(words@), "--dport"@) {
            Some(word) => addr::u16_of(word),
            None => None,
        },
{
    match find_option(words, "--dport") {
        Some(i) => addr::parse_u16(words[i].as_slice()),
        None => None,
    }
}

/// The source address among the words of a listed rule.
fn find_ip(words: &Vec<Vec<char>>) -> (out: Option<Ipv4Addr>)
    ensures
        out == match option_value(text::contents(words@), "-s"@) {
            Some(word) => addr::ip_of(text::without_tails(word, "/32"@)),
            None => None,
        },
{
    match find_option(words, "-s") {
        Some(i) => Ipv4Addr::parse(text::trim_end_matches(words[i].as_slice(), "/32")),
        None => None,
    }
}

/// The address and the port that a listed rule names.
fn find_rule(line: &[char]) -> (out: Option<Rule>)
    ensures
        out == listed_rule(line@),
{
    let words = text::split_whitespace(line);
    match (find_ip(&words), find_port(&words)) {
        (Some(ip), Some(port)) => Some(Rule { ip, port }),
        _ => None,
    }
}

/// Whether the line is that of a rule that admits an address.
fn admits(line: &[char]) -> (res: bool)
    ensures
        res == is_accept_line(line@),
{
    text::contains(line, command::IPTABLES_COMMENT) && text::contains(line, "ACCEPT")
}

/// The rules of the chain, as `iptables -S` lists them.
pub fn get_chain_rules(output: Option<&str>) -> (out: ChainRules)
    ensures
        out@ == chain_of(text::optional(output)),
        out.truncated == match output {
            Some(shown) => text::lines_of(shown@).len() > config::MAX_LOOP_ITERATIONS,
            None => false,
        },
        out.accept@.no_duplicates(),
        out.accept@.len() <= MAX_RULES,
        out.drop@.no_duplicates(),
        out.drop@.len() <= config::MAX_LOOP_ITERATIONS,
{
    let mut accept: Vec<Rule> = Vec::new();
    let mut drop: Vec<u16> = Vec::new();
    proof {
        lemma_chain_bounded(text::optional(output));
    }
    let shown = match output {
        Some(shown) => shown,
        None => {
            let out = ChainRules { accept, drop, truncated: false };
            proof {
                assert(out@ =~= chain_of(text::optional(output)));
            }
            return out;
        },
    };
    let chars = text::chars_of(shown);
    let lines = text::lines(chars.as_slice());
    let ghost all = text::lines_of(shown@);
    let mut count: usize = lines.len();
    let mut truncated: bool = false;
    if count > config::MAX_LOOP_ITERATIONS {
        count = config::MAX_LOOP_ITERATIONS;
        truncated = true;
    }
    let ghost f = |line: Seq<char>| accept_of(line);
    let ghost g = |line: Seq<char>| drop_of(line);
    proof {
        assert(text::contents(lines@).len() == lines@.len());
        assert(all.take(0).filter_map(f) =~= Seq::<Rule>::empty());
        assert(all.take(0).filter_map(g) =~= Seq::<u16>::empty());
        assert(accept@ =~= lists::at_most(lists::distinct(accepts_in(all.take(0))), MAX_RULES as nat));
        assert(drop@ =~= lists::distinct(drops_in(all.take(0))));
    }
    for i in 0..count
        invariant
            text::contents(lines@) == all,
            all.len() == lines@.len(),
            count <= lines@.len(),
            f == (|line: Seq<char>| accept_of(line)),
            g == (|line: Seq<char>| drop_of(line)),
            accept@ == lists::at_most(lists::distinct(accepts_in(all.take(i as int))), MAX_RULES as nat),
            drop@ == lists::distinct(drops_in(all.take(i as int))),
    {
        let line = lines[i].as_slice();
        let ghost ways = accepts_in(all.take(i as int));
        let ghost blocks = drops_in(all.take(i as int));
        proof {
            assert(line@ == all[i as int]) by {
                assert(line@ == text::contents(lines@)[i as int]);
            }
            lemma_filter_map_step(all, f, i as int);
            lemma_filter_map_step(all, g, i as int);
            match accept_of(line@) {
                Some(rule) => {
                    lists::lemma_distinct_push(ways, rule);
                },
                None => {},
            }
            match drop_of(line@) {
                Some(port) => {
                    lists::lemma_distinct_push(blocks, port);
                },
                None => {},
            }
        }
        if admits(line) {
            if accept.len() < MAX_RULES {
                match find_rule(line) {
                    Some(rule) => {
                        lists::include_rule(&mut accept, rule);
                    },
                    None => {},
                }
            } else {
                proof {
                    let one = lists::distinct(accepts_in(all.take(i + 1)));
                    assert(lists::at_most(one, MAX_RULES as nat) =~= accept@);
                }
            }
        } else if text::contains(line, command::IPTABLES_DROP_COMMENT) && text::contains(
            line,
            "DROP",
        ) {
            let words = text::split_whitespace(line);
            match find_port(&words) {
                Some(port) => {
                    lists::include_port(&mut drop, port);
                },
                None => {},
            }
        }
    }
    proof {
        assert(read_lines(shown@) =~= all.take(count as int));
    }
    ChainRules { accept, drop, truncated }
}

/// The rules of an earlier release that are to be removed from `INPUT`, as `iptables -S` lists
/// them.
pub fn cleanup_legacy_rules(output: Option<&str>) -> (out: Vec<Rule>)
    ensures
        out@ == legacy_rules(text::optional(output)),
        out@.len() <= config::MAX_LOOP_ITERATIONS,
{
    let mut out: Vec<Rule> = Vec::new();
    proof {
        lemma_chain_bounded(text::optional(output));
    }
    let shown = match output {
        Some(shown) => shown,
        None => {
            return out;
        },
    };
    let chars = text::chars_of(shown);
    let lines = text::lines(chars.as_slice());
    let ghost all = text::lines_of(shown@);
    let mut count: usize = lines.len();
    if count > config::MAX_LOOP_ITERATIONS {
        count = config::MAX_LOOP_ITERATIONS;
    }
    let ghost f = |line: Seq<char>| legacy_of(line);
    proof {
        assert(text::contents(lines@).len() == lines@.len());
        assert(all.take(0).filter_map(f) =~= Seq::<Rule>::empty());
    }
    for i in 0..count
        invariant
            text::contents(lines@) == all,
            all.len() == lines@.len(),
            count <= lines@.len(),
            f == (|line: Seq<char>| legacy_of(line)),
            out@ == legacy_in(all.take(i as int)),
    {
        let line = lines[i].as_slice();
        proof {
            assert(line@ == all[i as int]) by {
                assert(line@ == text::contents(lines@)[i as int]);
            }
            lemma_filter_map_step(all, f, i as int);
        }
        if admits(line) && !text::contains(line, command::IPTABLES_JUMP_COMMENT) && !text::contains(
            line,
            command::CHAIN_NAME,
        ) {
            match find_rule(line) {
                Some(rule) => {
                    out.push(rule);
                },
                None => {},
            }
        }
    }
    proof {
        assert(read_lines(shown@) =~= all.take(count as int));
    }
    out
}

} // verus!
