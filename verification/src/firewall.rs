//! The chain and `INPUT` in the kernel: how commands change them, what they let through, and how the
//! chain is listed.

use crate::addr;
use crate::addr::Ipv4Addr;
use crate::addr::Rule;
use crate::chain;
use crate::command;
use crate::config;
use crate::lists;
use crate::run::RequestView;
use crate::text;
use crate::text_facts;
use vstd::prelude::*;

verus! {

/// A rule of the chain that this program manages. The chain is described by these rules, in their
/// order; rules that somebody else put between them are left out.
pub enum ChainRule {
    /// Lets the address through to the port.
    Accept(Rule),
    /// Blocks the port.
    Drop(u16),
}

/// What becomes of a connection attempt in the chain.
pub enum Verdict {
    Accepted,
    Blocked,
    /// No rule applies; the attempt goes on to the rules behind the chain.
    Passed,
}

/// A rule of `INPUT`.
pub enum InputRule {
    /// Leads to the chain.
    Jump,
    /// Lets the address through to the port; an earlier release put it there.
    Legacy(Rule),
    /// Anything else, which decides about attempts in its own way.
    Other(spec_fn(Ipv4Addr, u16) -> Verdict),
}

/// The rules without the first one that is `x`.
pub open spec fn removed<A>(rules: Seq<A>, x: A) -> Seq<A>
    decreases rules.len(),
{
    if rules.len() == 0 {
        rules
    } else if rules[0] == x {
        rules.drop_first()
    } else {
        seq![rules[0]] + removed(rules.drop_first(), x)
    }
}

/// The chain after a request was performed. Rules that let an address through are put in front of
/// all others, rules that block a port behind all others; a command that fails changes nothing.
pub open spec fn performed(kernel: Seq<ChainRule>, request: RequestView, ok: bool) -> Seq<ChainRule> {
    if !ok {
        kernel
    } else {
        match request {
            RequestView::CreateChain => Seq::<ChainRule>::empty(),
            RequestView::RestorePending(rule) => seq![ChainRule::Accept(rule)] + kernel,
            RequestView::AddRule(rule) => seq![ChainRule::Accept(rule)] + kernel,
            RequestView::RetryRule(rule) => seq![ChainRule::Accept(rule)] + kernel,
            RequestView::AddDrop(port) => kernel.push(ChainRule::Drop(port)),
            RequestView::LiftDrop(port) => removed(kernel, ChainRule::Drop(port)),
            RequestView::DeleteDrop(port) => removed(kernel, ChainRule::Drop(port)),
            RequestView::DeleteRule(rule) => removed(kernel, ChainRule::Accept(rule)),
            _ => kernel,
        }
    }
}

/// `INPUT` after a request was performed. The rule that leads to the chain is put in front of all
/// others; a command that fails changes nothing.
pub open spec fn input_performed(input: Seq<InputRule>, request: RequestView, ok: bool) -> Seq<
    InputRule,
> {
    if !ok {
        input
    } else {
        match request {
            RequestView::AddJump => seq![InputRule::Jump] + input,
            RequestView::DeleteLegacy(rule) => removed(input, InputRule::Legacy(rule)),
            _ => input,
        }
    }
}

/// Whether performing the request can change the chain or `INPUT`.
pub open spec fn changing(request: RequestView) -> bool {
    match request {
        RequestView::CreateChain => true,
        RequestView::AddJump => true,
        RequestView::RestorePending(_) => true,
        RequestView::AddRule(_) => true,
        RequestView::RetryRule(_) => true,
        RequestView::AddDrop(_) => true,
        RequestView::LiftDrop(_) => true,
        RequestView::DeleteRule(_) => true,
        RequestView::DeleteDrop(_) => true,
        RequestView::DeleteLegacy(_) => true,
        _ => false,
    }
}

/// What becomes of a connection attempt from `ip` to `port` by the managed rules of the chain: the
/// first one that applies decides.
pub open spec fn verdict(kernel: Seq<ChainRule>, ip: Ipv4Addr, port: u16) -> Verdict
    decreases kernel.len(),
{
    if kernel.len() == 0 {
        Verdict::Passed
    } else if kernel[0] == ChainRule::Accept(Rule { ip, port }) {
        Verdict::Accepted
    } else if kernel[0] == ChainRule::Drop(port) {
        Verdict::Blocked
    } else {
        verdict(kernel.drop_first(), ip, port)
    }
}

/// What becomes of a connection attempt in `INPUT`, which leads to the chain: the first rule that
/// decides does.
pub open spec fn fate(input: Seq<InputRule>, kernel: Seq<ChainRule>, ip: Ipv4Addr, port: u16) -> Verdict
    decreases input.len(),
{
    if input.len() == 0 {
        Verdict::Passed
    } else {
        let first = match input[0] {
            InputRule::Jump => verdict(kernel, ip, port),
            InputRule::Legacy(rule) => if rule == (Rule { ip, port }) {
                Verdict::Accepted
            } else {
                Verdict::Passed
            },
            InputRule::Other(decides) => decides(ip, port),
        };
        if first != Verdict::Passed {
            first
        } else {
            fate(input.drop_first(), kernel, ip, port)
        }
    }
}

/// No rule that blocks a port stands before one that lets an address through.
pub open spec fn ordered(kernel: Seq<ChainRule>) -> bool {
    forall|i: int, j: int|
        0 <= i < j < kernel.len() && #[trigger] kernel[i] is Drop ==> #[trigger] kernel[j] is Drop
}

// ---------------------------------------------------------------------------
// Facts
// ---------------------------------------------------------------------------

/// A rule put in front is there, and so are the others.
pub proof fn lemma_in_front<A>(rules: Seq<A>, x: A)
    ensures
        forall|y: A| #[trigger]
            (seq![x] + rules).contains(y) <==> rules.contains(y) || y == x,
        rules.no_duplicates() && !rules.contains(x) ==> (seq![x] + rules).no_duplicates(),
{
    let all = seq![x] + rules;
    assert(all[0] == x);
    assert forall|y: A| #[trigger] all.contains(y) <==> rules.contains(y) || y == x by {
        if rules.contains(y) {
            let i = choose|i: int| 0 <= i < rules.len() && rules[i] == y;
            assert(all[i + 1] == y);
        }
        if all.contains(y) && y != x {
            let i = choose|i: int| 0 <= i < all.len() && all[i] == y;
            assert(rules[i - 1] == y);
        }
    }
    if rules.no_duplicates() && !rules.contains(x) {
        assert forall|i: int, j: int| 0 <= i < all.len() && 0 <= j < all.len() && i != j implies all[i]
            != all[j] by {
            if i > 0 {
                assert(all[i] == rules[i - 1]);
                assert(rules.contains(rules[i - 1]));
            }
            if j > 0 {
                assert(all[j] == rules[j - 1]);
                assert(rules.contains(rules[j - 1]));
            }
        }
    }
}

/// Removing a rule leaves the others, and nothing else.
pub proof fn lemma_removed<A>(rules: Seq<A>, x: A)
    ensures
        forall|y: A| y != x ==> (#[trigger] removed(rules, x).contains(y)
            <==> rules.contains(y)),
        removed(rules, x).contains(x) ==> rules.contains(x),
        rules.no_duplicates() ==> removed(rules, x).no_duplicates() && !removed(
            rules,
            x,
        ).contains(x),
        removed(rules, x).len() <= rules.len(),
    decreases rules.len(),
{
    if rules.len() > 0 {
        let rest = rules.drop_first();
        let head = rules[0];
        assert(rules =~= seq![head] + rest);
        lemma_in_front(rest, head);
        lemma_removed(rest, x);
        if rules.no_duplicates() {
            assert forall|i: int, j: int|
                0 <= i < rest.len() && 0 <= j < rest.len() && i != j implies rest[i] != rest[j] by {
                assert(rules[i + 1] != rules[j + 1]);
            }
            assert(!rest.contains(head)) by {
                if rest.contains(head) {
                    let i = choose|i: int| 0 <= i < rest.len() && rest[i] == head;
                    assert(rules[i + 1] == rules[0]);
                }
            }
        }
        if head != x {
            lemma_in_front(removed(rest, x), head);
        }
    }
}

/// A rule put at the end is there, and so are the others.
pub proof fn lemma_at_end(kernel: Seq<ChainRule>, x: ChainRule)
    ensures
        forall|y: ChainRule| #[trigger]
            kernel.push(x).contains(y) <==> kernel.contains(y) || y == x,
        kernel.no_duplicates() && !kernel.contains(x) ==> kernel.push(x).no_duplicates(),
{
    lists::lemma_pushed(kernel, x);
    lists::lemma_included(kernel, x);
}

proof fn lemma_removed_ordered(kernel: Seq<ChainRule>, x: ChainRule)
    requires
        ordered(kernel),
    ensures
        ordered(removed(kernel, x)),
    decreases kernel.len(),
{
    if kernel.len() > 0 {
        let rest = kernel.drop_first();
        let less = removed(rest, x);
        assert(ordered(rest)) by {
            assert forall|i: int, j: int|
                0 <= i < j < rest.len() && #[trigger] rest[i] is Drop implies #[trigger] rest[j] is Drop by {
                assert(kernel[i + 1] is Drop);
                assert(kernel[j + 1] is Drop);
            }
        }
        lemma_removed_ordered(rest, x);
        if kernel[0] != x {
            let all = seq![kernel[0]] + less;
            assert forall|i: int, j: int|
                0 <= i < j < all.len() && #[trigger] all[i] is Drop implies #[trigger] all[j] is Drop by {
                if i > 0 {
                    assert(less[i - 1] is Drop);
                    assert(less[j - 1] is Drop);
                } else {
                    assert(less.contains(less[j - 1]));
                    lemma_removed(rest, x);
                    let k = choose|k: int| 0 <= k < rest.len() && rest[k] == less[j - 1];
                    assert(kernel[0] is Drop);
                    assert(kernel[k + 1] is Drop);
                }
            }
        }
    }
}

/// No request puts a rule that blocks a port before one that lets an address through.
pub proof fn law_order_kept(kernel: Seq<ChainRule>, request: RequestView, ok: bool)
    requires
        ordered(kernel),
    ensures
        ordered(performed(kernel, request, ok)),
{
    let after = performed(kernel, request, ok);
    if ok {
        match request {
            RequestView::RestorePending(_) | RequestView::AddRule(_) | RequestView::RetryRule(_) => {
                assert forall|i: int, j: int|
                    0 <= i < j < after.len() && #[trigger] after[i] is Drop implies #[trigger] after[j] is Drop by {
                    assert(after[i] == kernel[i - 1]);
                    assert(after[j] == kernel[j - 1]);
                }
            },
            RequestView::LiftDrop(port) | RequestView::DeleteDrop(port) => {
                lemma_removed_ordered(kernel, ChainRule::Drop(port));
            },
            RequestView::DeleteRule(rule) => {
                lemma_removed_ordered(kernel, ChainRule::Accept(rule));
            },
            _ => {},
        }
    }
}

/// In an ordered chain an address gets through to a port when a rule admits it; otherwise it is
/// blocked when a rule blocks the port, and passed on when none does.
pub proof fn law_verdict(kernel: Seq<ChainRule>, ip: Ipv4Addr, port: u16)
    requires
        ordered(kernel),
    ensures
        verdict(kernel, ip, port) == if kernel.contains(ChainRule::Accept(Rule { ip, port })) {
            Verdict::Accepted
        } else if kernel.contains(ChainRule::Drop(port)) {
            Verdict::Blocked
        } else {
            Verdict::Passed
        },
    decreases kernel.len(),
{
    if kernel.len() > 0 {
        let rest = kernel.drop_first();
        let head = kernel[0];
        assert(kernel =~= seq![head] + rest);
        lemma_in_front(rest, head);
        assert(ordered(rest)) by {
            assert forall|i: int, j: int|
                0 <= i < j < rest.len() && #[trigger] rest[i] is Drop implies #[trigger] rest[j] is Drop by {
                assert(kernel[i + 1] is Drop);
                assert(kernel[j + 1] is Drop);
            }
        }
        law_verdict(rest, ip, port);
        if head is Drop {
            let pass = ChainRule::Accept(Rule { ip, port });
            if rest.contains(pass) {
                let k = choose|k: int| 0 <= k < rest.len() && rest[k] == pass;
                assert(kernel[0] is Drop);
                assert(kernel[k + 1] is Drop);
            }
        }
    }
}

// ---------------------------------------------------------------------------
// `INPUT`
// ---------------------------------------------------------------------------

/// The rules of `INPUT` that are neither the way to the chain nor those of an earlier release.
pub open spec fn others(input: Seq<InputRule>) -> Seq<InputRule> {
    input.filter(|x: InputRule| x is Other)
}

proof fn lemma_others_front(input: Seq<InputRule>, x: InputRule)
    ensures
        others(seq![x] + input) == if x is Other {
            seq![x] + others(input)
        } else {
            others(input)
        },
    decreases input.len(),
{
    reveal(Seq::filter);
    let all = seq![x] + input;
    let keep = |y: InputRule| y is Other;
    if input.len() == 0 {
        assert(all.drop_last() =~= input);
        assert(input.filter(keep) =~= Seq::<InputRule>::empty());
        assert(all.filter(keep) =~= if x is Other {
            seq![x]
        } else {
            Seq::<InputRule>::empty()
        });
        assert(seq![x] + others(input) =~= seq![x]);
    } else {
        lemma_others_front(input.drop_last(), x);
        assert(all.drop_last() =~= seq![x] + input.drop_last());
        assert(all.last() == input.last());
        let before = others(input.drop_last());
        assert((seq![x] + before).push(input.last()) =~= seq![x] + before.push(input.last()));
    }
}

proof fn lemma_others_removed(input: Seq<InputRule>, x: InputRule)
    requires
        !(x is Other),
    ensures
        others(removed(input, x)) == others(input),
    decreases input.len(),
{
    if input.len() > 0 {
        let rest = input.drop_first();
        assert(input =~= seq![input[0]] + rest);
        lemma_others_front(rest, input[0]);
        if input[0] != x {
            lemma_others_removed(rest, x);
            lemma_others_front(removed(rest, x), input[0]);
        }
    }
}

/// No request touches a rule of `INPUT` that is neither the way to the chain nor one of an earlier
/// release, or changes the order of these rules.
pub proof fn law_input_others_kept(input: Seq<InputRule>, request: RequestView, ok: bool)
    ensures
        others(input_performed(input, request, ok)) == others(input),
{
    match request {
        RequestView::AddJump => lemma_others_front(input, InputRule::Jump),
        RequestView::DeleteLegacy(rule) => lemma_others_removed(input, InputRule::Legacy(rule)),
        _ => {},
    }
}

/// What a rule of an earlier release does not concern is decided alike without it.
proof fn lemma_fate_removed(
    input: Seq<InputRule>,
    kernel: Seq<ChainRule>,
    rule: Rule,
    ip: Ipv4Addr,
    port: u16,
)
    requires
        rule != (Rule { ip, port }),
    ensures
        fate(removed(input, InputRule::Legacy(rule)), kernel, ip, port) == fate(
            input,
            kernel,
            ip,
            port,
        ),
    decreases input.len(),
{
    let x = InputRule::Legacy(rule);
    if input.len() > 0 && input[0] != x {
        let rest = input.drop_first();
        lemma_fate_removed(rest, kernel, rule, ip, port);
        let less = seq![input[0]] + removed(rest, x);
        assert(less.drop_first() =~= removed(rest, x));
    }
}

/// When `INPUT` leads to the chain before anything else and the chain lets the same address through,
/// removing a rule of an earlier release changes nothing for anyone.
pub proof fn law_migration_seamless(
    input: Seq<InputRule>,
    kernel: Seq<ChainRule>,
    rule: Rule,
    ip: Ipv4Addr,
    port: u16,
)
    requires
        input.len() > 0,
        input[0] == InputRule::Jump,
        ordered(kernel),
        kernel.contains(ChainRule::Accept(rule)),
    ensures
        fate(
            input_performed(input, RequestView::DeleteLegacy(rule), true),
            kernel,
            ip,
            port,
        ) == fate(input, kernel, ip, port),
{
    let x = InputRule::Legacy(rule);
    if rule == (Rule { ip, port }) {
        law_verdict(kernel, ip, port);
        assert(removed(input, x)[0] == InputRule::Jump);
    } else {
        lemma_fate_removed(input, kernel, rule, ip, port);
    }
}

// ---------------------------------------------------------------------------
// The listing of the chain
// ---------------------------------------------------------------------------

/// The words of a rule in a listing.
pub open spec fn listed_words(x: ChainRule) -> Seq<Seq<char>> {
    seq!["-A"@, command::CHAIN_NAME@] + match x {
        ChainRule::Accept(rule) => command::accept_rule(rule),
        ChainRule::Drop(port) => command::drop_rule(port),
    }
}

/// The line of a rule in a listing.
pub open spec fn listed_line(x: ChainRule) -> Seq<char> {
    text::joined(listed_words(x), ' ')
}

/// The lines of a listing: the chain itself, then its rules.
pub open spec fn listed_lines(kernel: Seq<ChainRule>) -> Seq<Seq<char>> {
    seq!["-N DDNS-FW"@] + kernel.map_values(|x: ChainRule| listed_line(x))
}

/// The listing of the chain.
pub open spec fn listing(kernel: Seq<ChainRule>) -> Seq<char> {
    text::unlines(listed_lines(kernel))
}

/// What a rule lets through.
pub open spec fn let_through(x: ChainRule) -> Option<Rule> {
    match x {
        ChainRule::Accept(rule) => Some(rule),
        ChainRule::Drop(_) => None,
    }
}

/// What a rule blocks.
pub open spec fn blocked_by(x: ChainRule) -> Option<u16> {
    match x {
        ChainRule::Accept(_) => None,
        ChainRule::Drop(port) => Some(port),
    }
}

/// What the chain lets through, rule by rule.
pub open spec fn accepts(kernel: Seq<ChainRule>) -> Seq<Rule> {
    kernel.filter_map(|x: ChainRule| let_through(x))
}

/// What the chain blocks, rule by rule.
pub open spec fn drops(kernel: Seq<ChainRule>) -> Seq<u16> {
    kernel.filter_map(|x: ChainRule| blocked_by(x))
}

/// What the words of the commands are made of.
proof fn lemma_literals()
    ensures
        "-A"@ =~= seq!['-', 'A'],
        "DDNS-FW"@ =~= seq!['D', 'D', 'N', 'S', '-', 'F', 'W'],
        "-s"@ =~= seq!['-', 's'],
        "/32"@ =~= seq!['/', '3', '2'],
        "-p"@ =~= seq!['-', 'p'],
        "tcp"@ =~= seq!['t', 'c', 'p'],
        "-m"@ =~= seq!['-', 'm'],
        "--dport"@ =~= seq!['-', '-', 'd', 'p', 'o', 'r', 't'],
        "comment"@ =~= seq!['c', 'o', 'm', 'm', 'e', 'n', 't'],
        "--comment"@ =~= seq!['-', '-', 'c', 'o', 'm', 'm', 'e', 'n', 't'],
        "DDNS-ACCESS"@ =~= seq!['D', 'D', 'N', 'S', '-', 'A', 'C', 'C', 'E', 'S', 'S'],
        "DDNS-DROP"@ =~= seq!['D', 'D', 'N', 'S', '-', 'D', 'R', 'O', 'P'],
        "-j"@ =~= seq!['-', 'j'],
        "ACCEPT"@ =~= seq!['A', 'C', 'C', 'E', 'P', 'T'],
        "DROP"@ =~= seq!['D', 'R', 'O', 'P'],
        "-N DDNS-FW"@ =~= seq!['-', 'N', ' ', 'D', 'D', 'N', 'S', '-', 'F', 'W'],
{
    reveal_strlit("-A");
    reveal_strlit("DDNS-FW");
    reveal_strlit("-s");
    reveal_strlit("/32");
    reveal_strlit("-p");
    reveal_strlit("tcp");
    reveal_strlit("-m");
    reveal_strlit("--dport");
    reveal_strlit("comment");
    reveal_strlit("--comment");
    reveal_strlit("DDNS-ACCESS");
    reveal_strlit("DDNS-DROP");
    reveal_strlit("-j");
    reveal_strlit("ACCEPT");
    reveal_strlit("DROP");
    reveal_strlit("-N DDNS-FW");
}

/// The source of a rule, as a command names it.
proof fn lemma_source_word(ip: Ipv4Addr)
    ensures
        (addr::ip_text(ip) + "/32"@).len() > 3,
        text::space_free(addr::ip_text(ip) + "/32"@),
        addr::is_digit((addr::ip_text(ip) + "/32"@)[0]),
        forall|i: int|
            0 <= i < (addr::ip_text(ip) + "/32"@).len() ==> addr::is_digit(
                #[trigger] (addr::ip_text(ip) + "/32"@)[i],
            ) || (addr::ip_text(ip) + "/32"@)[i] == '.' || (addr::ip_text(ip) + "/32"@)[i] == '/',
        text::without_tails(addr::ip_text(ip) + "/32"@, "/32"@) == addr::ip_text(ip),
{
    let word = addr::ip_text(ip);
    let tail = "/32"@;
    let all = word + tail;
    reveal_strlit("/32");
    addr::lemma_ip_text_plain(ip);
    assert forall|i: int| 0 <= i < all.len() implies addr::is_digit(#[trigger] all[i]) || all[i]
        == '.' || all[i] == '/' by {
        if i < word.len() {
            assert(all[i] == word[i]);
        }
    }
    assert forall|i: int| 0 <= i < all.len() implies !text::is_space(#[trigger] all[i]) by {
        assert(addr::is_digit(all[i]) || all[i] == '.' || all[i] == '/');
    }
    assert(all[0] == word[0]);
    assert(all.skip(all.len() - 3) =~= tail);
    assert(all.take(all.len() - 3) =~= word);
    reveal_with_fuel(text::without_tails, 2);
    if text::ends(word, tail) {
        assert(word.skip(word.len() - 3)[0] == word[word.len() - 3]);
        assert(word[word.len() - 3] == '/');
    }
}

/// The words of a rule are words: none is empty, and none holds white space.
proof fn lemma_words_plain(x: ChainRule)
    ensures
        text::words_of(listed_line(x)) == listed_words(x),
        !listed_line(x).contains('\n'),
        text::without_cr(listed_line(x)) == listed_line(x),
{
    let words = listed_words(x);
    lemma_literals();
    match x {
        ChainRule::Accept(rule) => {
            lemma_source_word(rule.ip);
            addr::lemma_decimal_digits(rule.port as nat);
            addr::lemma_digits_plain(addr::decimal(rule.port as nat));
        },
        ChainRule::Drop(port) => {
            addr::lemma_decimal_digits(port as nat);
            addr::lemma_digits_plain(addr::decimal(port as nat));
        },
    }
    assert forall|i: int| 0 <= i < words.len() implies (#[trigger] words[i]).len() > 0
        && text::space_free(words[i]) by {}
    text_facts::lemma_words_joined(words);
    assert forall|i: int| 0 <= i < words.len() implies !(#[trigger] words[i]).contains('\n')
        && !words[i].contains('\r') by {
        let w = words[i];
        if w.contains('\n') {
            let k = choose|k: int| 0 <= k < w.len() && w[k] == '\n';
            assert(text::is_space(w[k]));
        }
        if w.contains('\r') {
            let k = choose|k: int| 0 <= k < w.len() && w[k] == '\r';
            assert(text::is_space(w[k]));
        }
    }
    text_facts::lemma_joined_lacks(words, ' ', '\n');
    text_facts::lemma_joined_lacks(words, ' ', '\r');
    let line = listed_line(x);
    if line.len() > 0 {
        assert(line.contains(line[line.len() - 1]));
    }
}

/// The words of a rule that lets an address through, in the listing of a chain of this name.
pub open spec fn accept_words(name: Seq<char>, rule: Rule) -> Seq<Seq<char>> {
    seq!["-A"@, name] + command::accept_rule(rule)
}

/// What the words of such a rule say.
proof fn lemma_accept_options(name: Seq<char>, rule: Rule)
    ensures
        chain::option_value(accept_words(name, rule), "--dport"@) == Some(
            addr::decimal(rule.port as nat),
        ),
        chain::option_value(accept_words(name, rule), "-s"@) == Some(
            addr::ip_text(rule.ip) + "/32"@,
        ),
{
    let words = accept_words(name, rule);
    lemma_literals();
    lemma_source_word(rule.ip);
    addr::lemma_decimal_digits(rule.port as nat);
    let port = addr::decimal(rule.port as nat);
    assert(addr::is_digit(port[0]));
    assert(port[0] != '-');
    reveal_with_fuel(chain::value_before, 17);
    assert(words.len() == 16);
    assert(words[8] == "--dport"@ && words[9] == port);
    assert(chain::option_value(words, "--dport"@) == Some(port)) by {
        assert(words[15].len() != 7 && words[14].len() != 7 && words[13].len() != 7);
        assert(words[12].len() != 7 && words[10].len() != 7);
        assert(words[11][0] != "--dport"@[0]);
        assert(words[9] != "--dport"@);
    }
    let source = addr::ip_text(rule.ip) + "/32"@;
    assert(words[2] == "-s"@ && words[3] == source);
    assert(chain::option_value(words, "-s"@) == Some(source)) by {
        assert(words[15].len() != 2 && words[13].len() != 2 && words[12].len() != 2);
        assert(words[11].len() != 2 && words[8].len() != 2 && words[7].len() != 2);
        assert(words[5].len() != 2 && words[3].len() != 2);
        assert(words[14][1] != 's' && words[10][1] != 's' && words[6][1] != 's' && words[4][1]
            != 's');
        assert(words[9][0] != '-');
    }
}

/// The words of such a rule are words, and two of them tell what it does.
proof fn lemma_accept_words(name: Seq<char>, rule: Rule)
    requires
        name.len() > 0,
        text::space_free(name),
    ensures
        text::words_of(text::joined(accept_words(name, rule), ' ')) == accept_words(name, rule),
        chain::is_accept_line(text::joined(accept_words(name, rule), ' ')),
{
    let words = accept_words(name, rule);
    lemma_literals();
    lemma_source_word(rule.ip);
    addr::lemma_decimal_digits(rule.port as nat);
    addr::lemma_digits_plain(addr::decimal(rule.port as nat));
    assert forall|i: int| 0 <= i < words.len() implies (#[trigger] words[i]).len() > 0
        && text::space_free(words[i]) by {}
    text_facts::lemma_words_joined(words);
    assert(words[13] == command::IPTABLES_COMMENT@);
    assert(words[15] == "ACCEPT"@);
    text_facts::lemma_occurs_joined(words, ' ', 13);
    text_facts::lemma_occurs_joined(words, ' ', 15);
}

/// The line of such a rule is read as that rule.
proof fn lemma_accept_read(name: Seq<char>, rule: Rule)
    requires
        name.len() > 0,
        text::space_free(name),
    ensures
        chain::accept_of(text::joined(accept_words(name, rule), ' ')) == Some(rule),
        chain::listed_rule(text::joined(accept_words(name, rule), ' ')) == Some(rule),
        chain::is_accept_line(text::joined(accept_words(name, rule), ' ')),
{
    lemma_accept_words(name, rule);
    lemma_accept_options(name, rule);
    lemma_source_word(rule.ip);
    addr::law_ip_round_trip(rule.ip);
    addr::lemma_u16_decimal(rule.port);
}

/// The words of a rule of an earlier release hold neither of two letters.
proof fn lemma_legacy_words(rule: Rule)
    ensures
        !text::joined(accept_words("INPUT"@, rule), ' ').contains('F'),
        !text::joined(accept_words("INPUT"@, rule), ' ').contains('J'),
{
    let words = accept_words("INPUT"@, rule);
    let source = addr::ip_text(rule.ip) + "/32"@;
    let port = addr::decimal(rule.port as nat);
    lemma_literals();
    reveal_strlit("INPUT");
    lemma_source_word(rule.ip);
    addr::lemma_decimal_digits(rule.port as nat);
    assert forall|k: int| 0 <= k < source.len() implies #[trigger] source[k] != 'F' && source[k]
        != 'J' by {
        assert(addr::is_digit(source[k]) || source[k] == '.' || source[k] == '/');
    }
    assert forall|k: int| 0 <= k < port.len() implies #[trigger] port[k] != 'F' && port[k]
        != 'J' by {
        assert(addr::is_digit(port[k]));
    }
    assert(!source.contains('F') && !source.contains('J'));
    assert(!port.contains('F') && !port.contains('J'));
    assert(words.len() == 16);
    assert(words[3] == source && words[9] == port);
    assert(words[0] == "-A"@ && words[1] == "INPUT"@ && words[2] == "-s"@ && words[4] == "-p"@);
    assert(words[5] == "tcp"@ && words[6] == "-m"@ && words[7] == "tcp"@ && words[8] == "--dport"@);
    assert(words[10] == "-m"@ && words[11] == "comment"@ && words[12] == "--comment"@);
    assert(words[13] == "DDNS-ACCESS"@ && words[14] == "-j"@ && words[15] == "ACCEPT"@);
    text_facts::lemma_joined_lacks(words, ' ', 'F');
    text_facts::lemma_joined_lacks(words, ' ', 'J');
}

/// The line of a rule that lets an address through is read as that rule.
pub proof fn law_accept_line(rule: Rule)
    ensures
        chain::accept_of(listed_line(ChainRule::Accept(rule))) == Some(rule),
        chain::drop_of(listed_line(ChainRule::Accept(rule))) is None,
{
    lemma_name_plain();
    lemma_accept_read(command::CHAIN_NAME@, rule);
    assert(listed_words(ChainRule::Accept(rule)) == accept_words(command::CHAIN_NAME@, rule));
}

/// The name of the chain is a word.
proof fn lemma_name_plain()
    ensures
        command::CHAIN_NAME@.len() > 0,
        text::space_free(command::CHAIN_NAME@),
{
    reveal_strlit("DDNS-FW");
}

/// A rule that an earlier release put into `INPUT` is recognized by its line there; the rules of the
/// chain are not taken for such rules.
pub proof fn law_legacy_line(rule: Rule)
    ensures
        chain::legacy_of(text::joined(accept_words("INPUT"@, rule), ' ')) == Some(rule),
        chain::legacy_of(listed_line(ChainRule::Accept(rule))) is None,
{
    lemma_input_plain();
    lemma_accept_read("INPUT"@, rule);
    lemma_legacy_foreign(rule);
    lemma_own_named(rule);
}

/// `INPUT` is a word.
proof fn lemma_input_plain()
    ensures
        "INPUT"@.len() > 0,
        text::space_free("INPUT"@),
{
    reveal_strlit("INPUT");
}

/// The line of a rule of an earlier release names neither the chain nor the way to it.
proof fn lemma_legacy_foreign(rule: Rule)
    ensures
        !text::occurs(
            text::joined(accept_words("INPUT"@, rule), ' '),
            command::IPTABLES_JUMP_COMMENT@,
        ),
        !text::occurs(text::joined(accept_words("INPUT"@, rule), ' '), command::CHAIN_NAME@),
{
    let line = text::joined(accept_words("INPUT"@, rule), ' ');
    lemma_legacy_words(rule);
    reveal_strlit("DDNS-FW");
    reveal_strlit("DDNS-JUMP");
    assert(command::CHAIN_NAME@[5] == 'F');
    assert(command::IPTABLES_JUMP_COMMENT@[5] == 'J');
    text_facts::lemma_occurs_not(line, command::CHAIN_NAME@, 'F');
    text_facts::lemma_occurs_not(line, command::IPTABLES_JUMP_COMMENT@, 'J');
}

/// The line of a rule of the chain names the chain.
proof fn lemma_own_named(rule: Rule)
    ensures
        text::occurs(listed_line(ChainRule::Accept(rule)), command::CHAIN_NAME@),
{
    let own = listed_words(ChainRule::Accept(rule));
    assert(own[1] == command::CHAIN_NAME@);
    text_facts::lemma_occurs_joined(own, ' ', 1);
}

/// The line of a rule that blocks a port lets nobody through.
proof fn lemma_drop_line_blocks(port: u16)
    ensures
        !text::occurs(listed_line(ChainRule::Drop(port)), "ACCEPT"@),
{
    let words = listed_words(ChainRule::Drop(port));
    let number = addr::decimal(port as nat);
    lemma_literals();
    addr::lemma_decimal_digits(port as nat);
    assert(!number.contains('C')) by {
        if number.contains('C') {
            let k = choose|k: int| 0 <= k < number.len() && number[k] == 'C';
            assert(addr::is_digit(number[k]));
        }
    }
    assert(!words[0].contains('C') && !words[1].contains('C') && !words[2].contains('C'));
    assert(!words[3].contains('C') && !words[4].contains('C') && !words[5].contains('C'));
    assert(!words[6].contains('C') && !words[7].contains('C') && !words[8].contains('C'));
    assert(!words[9].contains('C') && !words[10].contains('C') && !words[11].contains('C'));
    assert(!words[12].contains('C') && !words[13].contains('C'));
    text_facts::lemma_joined_lacks(words, ' ', 'C');
    assert("ACCEPT"@[1] == 'C');
    text_facts::lemma_occurs_not(listed_line(ChainRule::Drop(port)), "ACCEPT"@, 'C');
}

/// The line of a rule that blocks a port is read as that rule.
pub proof fn law_drop_line(port: u16)
    ensures
        chain::drop_of(listed_line(ChainRule::Drop(port))) == Some(port),
        chain::accept_of(listed_line(ChainRule::Drop(port))) is None,
{
    let x = ChainRule::Drop(port);
    let words = listed_words(x);
    let line = listed_line(x);
    lemma_literals();
    lemma_words_plain(x);
    let number = addr::decimal(port as nat);
    addr::lemma_decimal_digits(port as nat);
    addr::lemma_digits_plain(number);
    assert(words.len() == 14);
    assert(words[11] == command::IPTABLES_DROP_COMMENT@);
    assert(words[13] == "DROP"@);
    text_facts::lemma_occurs_joined(words, ' ', 11);
    text_facts::lemma_occurs_joined(words, ' ', 13);
    lemma_drop_line_blocks(port);
    assert(addr::is_digit(number[0]));
    reveal_with_fuel(chain::value_before, 15);
    assert(words[6] == "--dport"@ && words[7] == number);
    assert(chain::option_value(words, "--dport"@) == Some(number)) by {
        assert(words[13].len() != 7 && words[12].len() != 7 && words[11].len() != 7);
        assert(words[10].len() != 7 && words[8].len() != 7);
        assert(words[9][0] != "--dport"@[0]);
        assert(words[7][0] != '-');
    }
    addr::lemma_u16_decimal(port);
}

/// The first line of a listing holds no rule.
proof fn lemma_first_line()
    ensures
        chain::accept_of("-N DDNS-FW"@) is None,
        chain::drop_of("-N DDNS-FW"@) is None,
        !"-N DDNS-FW"@.contains('\n'),
        text::without_cr("-N DDNS-FW"@) == "-N DDNS-FW"@,
{
    lemma_literals();
    assert("ACCEPT"@[1] == 'C');
    assert("DROP"@[1] == 'R');
    text_facts::lemma_occurs_not("-N DDNS-FW"@, "ACCEPT"@, 'C');
    text_facts::lemma_occurs_not("-N DDNS-FW"@, "DROP"@, 'R');
}

/// What is read from the first lines of a listing.
proof fn lemma_listing_read(kernel: Seq<ChainRule>, n: int)
    requires
        0 <= n <= kernel.len(),
    ensures
        chain::accepts_in(listed_lines(kernel).take(1 + n)) == accepts(kernel.take(n)),
        chain::drops_in(listed_lines(kernel).take(1 + n)) == drops(kernel.take(n)),
    decreases n,
{
    let lines = listed_lines(kernel);
    let f = |line: Seq<char>| chain::accept_of(line);
    let g = |line: Seq<char>| chain::drop_of(line);
    let p = |x: ChainRule| let_through(x);
    let q = |x: ChainRule| blocked_by(x);
    chain::lemma_filter_map_step(lines, f, n);
    chain::lemma_filter_map_step(lines, g, n);
    if n == 0 {
        lemma_first_line();
        assert(lines.take(0).filter_map(f) =~= Seq::<Rule>::empty());
        assert(lines.take(0).filter_map(g) =~= Seq::<u16>::empty());
        assert(kernel.take(0).filter_map(p) =~= Seq::<Rule>::empty());
        assert(kernel.take(0).filter_map(q) =~= Seq::<u16>::empty());
    } else {
        lemma_listing_read(kernel, n - 1);
        chain::lemma_filter_map_step(kernel, p, n - 1);
        chain::lemma_filter_map_step(kernel, q, n - 1);
        assert(lines[n] == listed_line(kernel[n - 1]));
        match kernel[n - 1] {
            ChainRule::Accept(rule) => law_accept_line(rule),
            ChainRule::Drop(port) => law_drop_line(port),
        }
    }
}

/// The lines of a listing can be told apart again.
proof fn lemma_listing_lines(kernel: Seq<ChainRule>)
    ensures
        text::lines_of(listing(kernel)) == listed_lines(kernel),
{
    let lines = listed_lines(kernel);
    lemma_first_line();
    assert forall|i: int| 0 <= i < lines.len() implies text::unbroken(
        #[trigger] lines[i],
        Some('\n'),
    ) && text::without_cr(lines[i]) == lines[i] by {
        if i > 0 {
            assert(lines[i] == listed_line(kernel[i - 1]));
            lemma_words_plain(kernel[i - 1]);
        }
        let line = lines[i];
        assert forall|k: int| 0 <= k < line.len() implies !text::separates(
            #[trigger] line[k],
            Some('\n'),
        ) by {
            assert(line.contains(line[k]));
        }
    }
    text_facts::lemma_lines_unlines(lines);
}

/// What is put into the chain is read from its listing: every rule that lets an address through
/// and every rule that blocks a port, each once, as long as the listing keeps to the limits.
pub proof fn law_listing_round_trip(kernel: Seq<ChainRule>)
    requires
        kernel.len() < config::MAX_LOOP_ITERATIONS,
    ensures
        chain::chain_of(Some(listing(kernel))) == (chain::ChainView {
            accept: lists::at_most(lists::distinct(accepts(kernel)), chain::MAX_RULES as nat),
            drop: lists::distinct(drops(kernel)),
        }),
{
    lemma_listing_lines(kernel);
    lemma_listing_read(kernel, kernel.len() as int);
    let lines = listed_lines(kernel);
    assert(lines.take(lines.len() as int) =~= lines);
    assert(kernel.take(kernel.len() as int) =~= kernel);
}

/// Membership in what the chain lets through and in what it blocks.
pub proof fn lemma_accepts_drops(kernel: Seq<ChainRule>)
    ensures
        forall|rule: Rule| #[trigger]
            accepts(kernel).contains(rule) <==> kernel.contains(ChainRule::Accept(rule)),
        forall|port: u16| #[trigger]
            drops(kernel).contains(port) <==> kernel.contains(ChainRule::Drop(port)),
{
    let p = |x: ChainRule| let_through(x);
    let q = |x: ChainRule| blocked_by(x);
    assert forall|rule: Rule| #[trigger] accepts(kernel).contains(rule) <==> kernel.contains(
        ChainRule::Accept(rule),
    ) by {
        lists::lemma_filter_map_holds(kernel, p, rule);
        assert(p(ChainRule::Accept(rule)) == Some(rule));
        if accepts(kernel).contains(rule) {
            let x = choose|x: ChainRule| #[trigger] kernel.contains(x) && p(x) == Some(rule);
            assert(x == ChainRule::Accept(rule));
        }
    }
    assert forall|port: u16| #[trigger] drops(kernel).contains(port) <==> kernel.contains(
        ChainRule::Drop(port),
    ) by {
        lists::lemma_filter_map_holds(kernel, q, port);
        assert(q(ChainRule::Drop(port)) == Some(port));
        if drops(kernel).contains(port) {
            let x = choose|x: ChainRule| #[trigger] kernel.contains(x) && q(x) == Some(port);
            assert(x == ChainRule::Drop(port));
        }
    }
}

/// What is read from a listing of the chain is in the chain, however long the listing is.
pub proof fn law_listing_true(kernel: Seq<ChainRule>)
    ensures
        forall|rule: Rule| #[trigger]
            chain::chain_of(Some(listing(kernel))).accept.contains(rule) ==> kernel.contains(
                ChainRule::Accept(rule),
            ),
        forall|port: u16| #[trigger]
            chain::chain_of(Some(listing(kernel))).drop.contains(port) ==> kernel.contains(
                ChainRule::Drop(port),
            ),
{
    let read = chain::chain_of(Some(listing(kernel)));
    let lines = listed_lines(kernel);
    let n = if lines.len() <= config::MAX_LOOP_ITERATIONS {
        kernel.len() as int
    } else {
        config::MAX_LOOP_ITERATIONS - 1
    };
    let part = kernel.take(n);
    lemma_listing_lines(kernel);
    lemma_listing_read(kernel, n);
    assert(lines.take(lines.len() as int) =~= lines);
    assert(chain::read_lines(listing(kernel)) == lines.take(1 + n));
    lemma_accepts_drops(part);
    lists::lemma_distinct(accepts(part));
    lists::lemma_distinct(drops(part));
    assert forall|x: ChainRule| #[trigger] part.contains(x) implies kernel.contains(x) by {
        let i = choose|i: int| 0 <= i < part.len() && part[i] == x;
        assert(kernel[i] == x);
    }
    assert forall|rule: Rule| #[trigger] read.accept.contains(rule) implies kernel.contains(
        ChainRule::Accept(rule),
    ) by {
        let i = choose|i: int| 0 <= i < read.accept.len() && read.accept[i] == rule;
        let all = lists::distinct(accepts(part));
        assert(all[i] == rule);
        assert(all.contains(rule));
        assert(accepts(part).contains(rule));
        assert(part.contains(ChainRule::Accept(rule)));
    }
    assert forall|port: u16| #[trigger] read.drop.contains(port) implies kernel.contains(
        ChainRule::Drop(port),
    ) by {
        assert(drops(part).contains(port));
        assert(part.contains(ChainRule::Drop(port)));
    }
}

/// Every address that is read from the listing is one that the chain lets through to its port.
pub open spec fn shows_truly(output: Seq<char>, kernel: Seq<ChainRule>) -> bool {
    forall|rule: Rule| #[trigger]
        chain::chain_of(Some(output)).accept.contains(rule) ==> kernel.contains(
            ChainRule::Accept(rule),
        )
}

/// What is read from the listing is exactly what the chain lets through and blocks.
pub open spec fn shows_whole(output: Seq<char>, kernel: Seq<ChainRule>) -> bool {
    &&& forall|rule: Rule| #[trigger]
        chain::chain_of(Some(output)).accept.contains(rule) <==> kernel.contains(
            ChainRule::Accept(rule),
        )
    &&& forall|port: u16| #[trigger]
        chain::chain_of(Some(output)).drop.contains(port) <==> kernel.contains(
            ChainRule::Drop(port),
        )
}

/// The line is that of a rule of the chain.
pub open spec fn line_of_rule(line: Seq<char>, kernel: Seq<ChainRule>) -> bool {
    exists|x: ChainRule| #[trigger] kernel.contains(x) && line == listed_line(x)
}

/// The line is one that is passed over.
pub open spec fn passed_over(line: Seq<char>) -> bool {
    chain::accept_of(line) is None && chain::drop_of(line) is None
}

/// What a line says is so in the chain.
proof fn lemma_line_true(line: Seq<char>, kernel: Seq<ChainRule>)
    requires
        passed_over(line) || line_of_rule(line, kernel),
    ensures
        chain::accept_of(line) matches Some(rule) ==> kernel.contains(ChainRule::Accept(rule)),
        chain::drop_of(line) matches Some(port) ==> kernel.contains(ChainRule::Drop(port)),
{
    if !passed_over(line) {
        let x = choose|x: ChainRule| #[trigger] kernel.contains(x) && line == listed_line(x);
        match x {
            ChainRule::Accept(rule) => law_accept_line(rule),
            ChainRule::Drop(port) => law_drop_line(port),
        }
    }
}

/// Whatever other lines stand between those of the rules, as long as they are passed over, a listing
/// shows nothing that is not in the chain; it may be cut short, too long, or in any order.
pub proof fn law_other_lines(output: Seq<char>, kernel: Seq<ChainRule>)
    requires
        forall|i: int|
            0 <= i < text::lines_of(output).len() ==> passed_over(
                #[trigger] text::lines_of(output)[i],
            ) || line_of_rule(text::lines_of(output)[i], kernel),
    ensures
        shows_truly(output, kernel),
        forall|port: u16| #[trigger]
            chain::chain_of(Some(output)).drop.contains(port) ==> kernel.contains(
                ChainRule::Drop(port),
            ),
{
    let read = chain::chain_of(Some(output));
    let lines = chain::read_lines(output);
    let f = |line: Seq<char>| chain::accept_of(line);
    let g = |line: Seq<char>| chain::drop_of(line);
    lists::lemma_distinct(chain::accepts_in(lines));
    lists::lemma_distinct(chain::drops_in(lines));
    assert forall|line: Seq<char>| #[trigger] lines.contains(line) implies passed_over(line)
        || line_of_rule(line, kernel) by {
        let i = choose|i: int| 0 <= i < lines.len() && lines[i] == line;
        assert(text::lines_of(output)[i] == line);
    }
    assert forall|rule: Rule| #[trigger] read.accept.contains(rule) implies kernel.contains(
        ChainRule::Accept(rule),
    ) by {
        let all = lists::distinct(chain::accepts_in(lines));
        let i = choose|i: int| 0 <= i < read.accept.len() && read.accept[i] == rule;
        assert(all[i] == rule);
        assert(all.contains(rule));
        lists::lemma_filter_map_holds(lines, f, rule);
        let line = choose|line: Seq<char>| #[trigger] lines.contains(line) && f(line) == Some(rule);
        lemma_line_true(line, kernel);
    }
    assert forall|port: u16| #[trigger] read.drop.contains(port) implies kernel.contains(
        ChainRule::Drop(port),
    ) by {
        lists::lemma_filter_map_holds(lines, g, port);
        let line = choose|line: Seq<char>| #[trigger] lines.contains(line) && g(line) == Some(port);
        lemma_line_true(line, kernel);
    }
}

/// When every rule of the chain has its line in a listing that keeps to the limits, and all other
/// lines are passed over, the listing shows exactly what the chain lets through and blocks.
pub proof fn law_whole_listing(output: Seq<char>, kernel: Seq<ChainRule>)
    requires
        forall|i: int|
            0 <= i < text::lines_of(output).len() ==> passed_over(
                #[trigger] text::lines_of(output)[i],
            ) || line_of_rule(text::lines_of(output)[i], kernel),
        forall|x: ChainRule| #[trigger]
            kernel.contains(x) ==> text::lines_of(output).contains(listed_line(x)),
        text::lines_of(output).len() <= config::MAX_LOOP_ITERATIONS,
        lists::distinct(chain::accepts_in(text::lines_of(output))).len() <= chain::MAX_RULES,
    ensures
        shows_whole(output, kernel),
{
    let read = chain::chain_of(Some(output));
    let lines = text::lines_of(output);
    let f = |line: Seq<char>| chain::accept_of(line);
    let g = |line: Seq<char>| chain::drop_of(line);
    law_other_lines(output, kernel);
    lists::lemma_distinct(chain::accepts_in(lines));
    lists::lemma_distinct(chain::drops_in(lines));
    assert forall|rule: Rule| #[trigger] read.accept.contains(rule) <==> kernel.contains(
        ChainRule::Accept(rule),
    ) by {
        if kernel.contains(ChainRule::Accept(rule)) {
            let line = listed_line(ChainRule::Accept(rule));
            law_accept_line(rule);
            assert(lines.contains(line) && f(line) == Some(rule));
            lists::lemma_filter_map_holds(lines, f, rule);
        }
    }
    assert forall|port: u16| #[trigger] read.drop.contains(port) <==> kernel.contains(
        ChainRule::Drop(port),
    ) by {
        if kernel.contains(ChainRule::Drop(port)) {
            let line = listed_line(ChainRule::Drop(port));
            law_drop_line(port);
            assert(lines.contains(line) && g(line) == Some(port));
            lists::lemma_filter_map_holds(lines, g, port);
        }
    }
}

/// A listing that holds nothing but the rules of the chain shows them truly, and within the limits it
/// shows all of them.
pub proof fn law_plain_listing(kernel: Seq<ChainRule>)
    ensures
        shows_truly(listing(kernel), kernel),
        kernel.len() < config::MAX_LOOP_ITERATIONS && lists::distinct(accepts(kernel)).len()
            <= chain::MAX_RULES ==> shows_whole(listing(kernel), kernel),
{
    law_listing_true(kernel);
    if kernel.len() < config::MAX_LOOP_ITERATIONS && lists::distinct(accepts(kernel)).len()
        <= chain::MAX_RULES {
        let read = chain::chain_of(Some(listing(kernel)));
        law_listing_round_trip(kernel);
        lemma_accepts_drops(kernel);
        lists::lemma_distinct(accepts(kernel));
        lists::lemma_distinct(drops(kernel));
        assert forall|rule: Rule| #[trigger] read.accept.contains(rule) <==> kernel.contains(
            ChainRule::Accept(rule),
        ) by {
            assert(accepts(kernel).contains(rule) <==> read.accept.contains(rule));
        }
        assert forall|port: u16| #[trigger] read.drop.contains(port) <==> kernel.contains(
            ChainRule::Drop(port),
        ) by {
            assert(drops(kernel).contains(port) <==> read.drop.contains(port));
        }
    }
}

} // verus!
