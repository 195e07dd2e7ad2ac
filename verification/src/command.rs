//! The arguments of the `iptables` commands.

use crate::addr;
use crate::addr::Ipv4Addr;
use crate::addr::Rule;
use crate::text;
use vstd::prelude::*;

verus! {

/// The chain that holds the managed rules.
pub const CHAIN_NAME: &'static str = "DDNS-FW";

/// The comment of a rule that admits an address.
pub const IPTABLES_COMMENT: &'static str = "DDNS-ACCESS";

/// The comment of a rule that blocks a port.
pub const IPTABLES_DROP_COMMENT: &'static str = "DDNS-DROP";

/// The comment of the rule that leads from `INPUT` to the chain.
pub const IPTABLES_JUMP_COMMENT: &'static str = "DDNS-JUMP";

// ---------------------------------------------------------------------------
// What the arguments are
// ---------------------------------------------------------------------------

/// The part of a command that describes the rule that admits an address to a port.
pub open spec fn accept_rule(rule: Rule) -> Seq<Seq<char>> {
    seq![
        "-s"@,
        addr::ip_text(rule.ip) + "/32"@,
        "-p"@,
        "tcp"@,
        "-m"@,
        "tcp"@,
        "--dport"@,
        addr::decimal(rule.port as nat),
        "-m"@,
        "comment"@,
        "--comment"@,
        IPTABLES_COMMENT@,
        "-j"@,
        "ACCEPT"@,
    ]
}

/// The part of a command that describes the rule that blocks a port.
pub open spec fn drop_rule(port: u16) -> Seq<Seq<char>> {
    seq![
        "-p"@,
        "tcp"@,
        "-m"@,
        "tcp"@,
        "--dport"@,
        addr::decimal(port as nat),
        "-m"@,
        "comment"@,
        "--comment"@,
        IPTABLES_DROP_COMMENT@,
        "-j"@,
        "DROP"@,
    ]
}

/// The part of a command that describes the rule that leads to the chain.
pub open spec fn jump_rule() -> Seq<Seq<char>> {
    seq!["-j"@, CHAIN_NAME@, "-m"@, "comment"@, "--comment"@, IPTABLES_JUMP_COMMENT@]
}

/// Lists the rules of the chain.
pub open spec fn list_chain_args() -> Seq<Seq<char>> {
    seq!["-S"@, CHAIN_NAME@]
}

/// Creates the chain.
pub open spec fn create_chain_args() -> Seq<Seq<char>> {
    seq!["-N"@, CHAIN_NAME@]
}

/// Lists the rules of `INPUT`.
pub open spec fn list_input_args() -> Seq<Seq<char>> {
    seq!["-S"@, "INPUT"@]
}

/// Succeeds when `INPUT` leads to the chain.
pub open spec fn check_jump_args() -> Seq<Seq<char>> {
    seq!["-C"@, "INPUT"@] + jump_rule()
}

/// Makes `INPUT` lead to the chain before anything else.
pub open spec fn add_jump_args() -> Seq<Seq<char>> {
    seq!["-I"@, "INPUT"@, "1"@] + jump_rule()
}

/// Succeeds when the chain admits the address to the port.
pub open spec fn check_rule_args(rule: Rule) -> Seq<Seq<char>> {
    seq!["-C"@, CHAIN_NAME@] + accept_rule(rule)
}

/// Admits the address to the port, in front of every other rule of the chain.
pub open spec fn add_rule_args(rule: Rule) -> Seq<Seq<char>> {
    seq!["-I"@, CHAIN_NAME@, "1"@] + accept_rule(rule)
}

/// Admits the address to the port no longer.
pub open spec fn delete_rule_args(rule: Rule) -> Seq<Seq<char>> {
    seq!["-D"@, CHAIN_NAME@] + accept_rule(rule)
}

/// Blocks the port, behind every other rule of the chain.
pub open spec fn add_drop_args(port: u16) -> Seq<Seq<char>> {
    seq!["-A"@, CHAIN_NAME@] + drop_rule(port)
}

/// Blocks the port no longer.
pub open spec fn delete_drop_args(port: u16) -> Seq<Seq<char>> {
    seq!["-D"@, CHAIN_NAME@] + drop_rule(port)
}

/// Removes a rule that an earlier release put into `INPUT`.
pub open spec fn delete_legacy_args(rule: Rule) -> Seq<Seq<char>> {
    seq!["-D"@, "INPUT"@] + accept_rule(rule)
}

/// The commands that find, add and delete a rule describe it in the same words, so that each
/// deletes or finds what the other added.
pub proof fn law_same_description(rule: Rule, port: u16)
    ensures
        check_rule_args(rule).skip(2) == accept_rule(rule),
        add_rule_args(rule).skip(3) == accept_rule(rule),
        delete_rule_args(rule).skip(2) == accept_rule(rule),
        delete_legacy_args(rule).skip(2) == accept_rule(rule),
        add_drop_args(port).skip(2) == drop_rule(port),
        delete_drop_args(port).skip(2) == drop_rule(port),
        add_jump_args().skip(3) == check_jump_args().skip(2),
{
    assert(check_rule_args(rule).skip(2) =~= accept_rule(rule));
    assert(add_rule_args(rule).skip(3) =~= accept_rule(rule));
    assert(delete_rule_args(rule).skip(2) =~= accept_rule(rule));
    assert(delete_legacy_args(rule).skip(2) =~= accept_rule(rule));
    assert(add_drop_args(port).skip(2) =~= drop_rule(port));
    assert(delete_drop_args(port).skip(2) =~= drop_rule(port));
    assert(add_jump_args().skip(3) =~= check_jump_args().skip(2));
}

/// The descriptions of two rules differ in nothing but the address and the port, which stand in them in
/// their notations, behind the words for the source and for the destination.
pub proof fn law_described_alike(x: Rule, y: Rule, k: int)
    ensures
        accept_rule(x).len() == accept_rule(y).len(),
        accept_rule(x)[0] == "-s"@,
        accept_rule(x)[1] == addr::ip_text(x.ip) + "/32"@,
        accept_rule(x)[6] == "--dport"@,
        accept_rule(x)[7] == addr::decimal(x.port as nat),
        0 <= k < accept_rule(x).len() && k != 1 && k != 7 ==> accept_rule(x)[k] == accept_rule(y)[k],
        drop_rule(x.port).len() == drop_rule(y.port).len(),
        drop_rule(x.port)[4] == "--dport"@,
        drop_rule(x.port)[5] == addr::decimal(x.port as nat),
        0 <= k < drop_rule(x.port).len() && k != 5 ==> drop_rule(x.port)[k] == drop_rule(
            y.port,
        )[k],
{
    assert(accept_rule(x) =~= accept_rule(y).update(1, accept_rule(x)[1]).update(
        7,
        accept_rule(x)[7],
    ));
    assert(drop_rule(x.port) =~= drop_rule(y.port).update(5, drop_rule(x.port)[5]));
}

/// A description is that of one rule only.
pub proof fn law_one_rule_described(x: Rule, y: Rule)
    ensures
        accept_rule(x) == accept_rule(y) ==> x == y,
        drop_rule(x.port) == drop_rule(y.port) ==> x.port == y.port,
        accept_rule(x) != drop_rule(y.port),
{
    addr::lemma_u16_decimal(x.port);
    addr::lemma_u16_decimal(y.port);
    if accept_rule(x) == accept_rule(y) {
        let p = addr::ip_text(x.ip);
        let q = addr::ip_text(y.ip);
        assert(accept_rule(x)[1] == accept_rule(y)[1]);
        assert(accept_rule(x)[7] == accept_rule(y)[7]);
        assert((p + "/32"@).take(p.len() as int) =~= p);
        assert((q + "/32"@).take(q.len() as int) =~= q);
        addr::lemma_ip_text_injective(x.ip, y.ip);
    }
    if drop_rule(x.port) == drop_rule(y.port) {
        assert(drop_rule(x.port)[5] == drop_rule(y.port)[5]);
    }
    assert(accept_rule(x).len() == 14 && drop_rule(y.port).len() == 12);
}

// ---------------------------------------------------------------------------
// Building them
// ---------------------------------------------------------------------------

/// Appends `word` to the arguments.
fn put(args: &mut Vec<String>, word: &str)
    ensures
        text::texts(final(args)@) == text::texts(old(args)@).push(word@),
{
    args.push(word.to_owned());
    proof {
        assert(text::texts(args@) =~= text::texts(old(args)@).push(word@));
    }
}

/// Appends `port` to the arguments.
fn put_port(args: &mut Vec<String>, port: u16)
    ensures
        text::texts(final(args)@) == text::texts(old(args)@).push(addr::decimal(port as nat)),
{
    let mut chars: Vec<char> = Vec::new();
    addr::append_decimal(&mut chars, port);
    let word = text::string_of(chars.as_slice());
    proof {
        assert(word@ =~= addr::decimal(port as nat));
    }
    args.push(word);
    proof {
        assert(text::texts(args@) =~= text::texts(old(args)@).push(addr::decimal(port as nat)));
    }
}

/// Appends the description of the rule that admits an address to a port.
fn put_accept_rule(args: &mut Vec<String>, rule: Rule)
    ensures
        text::texts(final(args)@) == text::texts(old(args)@) + accept_rule(rule),
{
    put(args, "-s");
    let mut chars: Vec<char> = Vec::new();
    rule.ip.append_to(&mut chars);
    text::append_text(&mut chars, "/32");
    let word = text::string_of(chars.as_slice());
    proof {
        assert(word@ =~= addr::ip_text(rule.ip) + "/32"@);
    }
    put(args, word.as_str());
    put(args, "-p");
    put(args, "tcp");
    put(args, "-m");
    put(args, "tcp");
    put(args, "--dport");
    put_port(args, rule.port);
    put(args, "-m");
    put(args, "comment");
    put(args, "--comment");
    put(args, IPTABLES_COMMENT);
    put(args, "-j");
    put(args, "ACCEPT");
    proof {
        assert(text::texts(args@) =~= text::texts(old(args)@) + accept_rule(rule));
    }
}

/// Appends the description of the rule that blocks a port.
fn put_drop_rule(args: &mut Vec<String>, port: u16)
    ensures
        text::texts(final(args)@) == text::texts(old(args)@) + drop_rule(port),
{
    put(args, "-p");
    put(args, "tcp");
    put(args, "-m");
    put(args, "tcp");
    put(args, "--dport");
    put_port(args, port);
    put(args, "-m");
    put(args, "comment");
    put(args, "--comment");
    put(args, IPTABLES_DROP_COMMENT);
    put(args, "-j");
    put(args, "DROP");
    proof {
        assert(text::texts(args@) =~= text::texts(old(args)@) + drop_rule(port));
    }
}

/// Appends the description of the rule that leads to the chain.
fn put_jump_rule(args: &mut Vec<String>)
    ensures
        text::texts(final(args)@) == text::texts(old(args)@) + jump_rule(),
{
    put(args, "-j");
    put(args, CHAIN_NAME);
    put(args, "-m");
    put(args, "comment");
    put(args, "--comment");
    put(args, IPTABLES_JUMP_COMMENT);
    proof {
        assert(text::texts(args@) =~= text::texts(old(args)@) + jump_rule());
    }
}

/// No arguments yet.
fn no_args() -> (args: Vec<String>)
    ensures
        text::texts(args@) == Seq::<Seq<char>>::empty(),
{
    let args: Vec<String> = Vec::new();
    proof {
        assert(text::texts(args@) =~= Seq::<Seq<char>>::empty());
    }
    args
}

/// Lists the rules of the chain.
pub fn list_chain() -> (args: Vec<String>)
    ensures
        text::texts(args@) == list_chain_args(),
{
    let mut args = no_args();
    put(&mut args, "-S");
    put(&mut args, CHAIN_NAME);
    proof {
        assert(text::texts(args@) =~= list_chain_args());
    }
    args
}

/// Creates the chain.
pub fn create_chain() -> (args: Vec<String>)
    ensures
        text::texts(args@) == create_chain_args(),
{
    let mut args = no_args();
    put(&mut args, "-N");
    put(&mut args, CHAIN_NAME);
    proof {
        assert(text::texts(args@) =~= create_chain_args());
    }
    args
}

/// Lists the rules of `INPUT`.
pub fn list_input() -> (args: Vec<String>)
    ensures
        text::texts(args@) == list_input_args(),
{
    let mut args = no_args();
    put(&mut args, "-S");
    put(&mut args, "INPUT");
    proof {
        assert(text::texts(args@) =~= list_input_args());
    }
    args
}

/// Succeeds when `INPUT` leads to the chain.
pub fn check_jump_rule() -> (args: Vec<String>)
    ensures
        text::texts(args@) == check_jump_args(),
{
    let mut args = no_args();
    put(&mut args, "-C");
    put(&mut args, "INPUT");
    put_jump_rule(&mut args);
    proof {
        assert(text::texts(args@) =~= check_jump_args());
    }
    args
}

/// Makes `INPUT` lead to the chain before anything else.
pub fn add_jump_rule() -> (args: Vec<String>)
    ensures
        text::texts(args@) == add_jump_args(),
{
    let mut args = no_args();
    put(&mut args, "-I");
    put(&mut args, "INPUT");
    put(&mut args, "1");
    put_jump_rule(&mut args);
    proof {
        assert(text::texts(args@) =~= add_jump_args());
    }
    args
}

/// Succeeds when the chain admits the address to the port.
pub fn rule_exists(ip: Ipv4Addr, port: u16) -> (args: Vec<String>)
    ensures
        text::texts(args@) == check_rule_args(Rule { ip, port }),
{
    let mut args = no_args();
    put(&mut args, "-C");
    put(&mut args, CHAIN_NAME);
    put_accept_rule(&mut args, Rule { ip, port });
    proof {
        assert(text::texts(args@) =~= check_rule_args(Rule { ip, port }));
    }
    args
}

/// Admits the address to the port, in front of every other rule of the chain.
pub fn add_rule(ip: Ipv4Addr, port: u16) -> (args: Vec<String>)
    ensures
        text::texts(args@) == add_rule_args(Rule { ip, port }),
{
    let mut args = no_args();
    put(&mut args, "-I");
    put(&mut args, CHAIN_NAME);
    put(&mut args, "1");
    put_accept_rule(&mut args, Rule { ip, port });
    proof {
        assert(text::texts(args@) =~= add_rule_args(Rule { ip, port }));
    }
    args
}

/// Admits the address to the port no longer.
pub fn delete_rule(ip: Ipv4Addr, port: u16) -> (args: Vec<String>)
    ensures
        text::texts(args@) == delete_rule_args(Rule { ip, port }),
{
    let mut args = no_args();
    put(&mut args, "-D");
    put(&mut args, CHAIN_NAME);
    put_accept_rule(&mut args, Rule { ip, port });
    proof {
        assert(text::texts(args@) =~= delete_rule_args(Rule { ip, port }));
    }
    args
}

/// Blocks the port, behind every other rule of the chain.
pub fn add_drop_rule(port: u16) -> (args: Vec<String>)
    ensures
        text::texts(args@) == add_drop_args(port),
{
    let mut args = no_args();
    put(&mut args, "-A");
    put(&mut args, CHAIN_NAME);
    put_drop_rule(&mut args, port);
    proof {
        assert(text::texts(args@) =~= add_drop_args(port));
    }
    args
}

/// Blocks the port no longer.
pub fn delete_drop_rule(port: u16) -> (args: Vec<String>)
    ensures
        text::texts(args@) == delete_drop_args(port),
{
    let mut args = no_args();
    put(&mut args, "-D");
    put(&mut args, CHAIN_NAME);
    put_drop_rule(&mut args, port);
    proof {
        assert(text::texts(args@) =~= delete_drop_args(port));
    }
    args
}

/// Removes a rule that an earlier release put into `INPUT`.
pub fn delete_legacy_rule(ip: Ipv4Addr, port: u16) -> (args: Vec<String>)
    ensures
        text::texts(args@) == delete_legacy_args(Rule { ip, port }),
{
    let mut args = no_args();
    put(&mut args, "-D");
    put(&mut args, "INPUT");
    put_accept_rule(&mut args, Rule { ip, port });
    proof {
        assert(text::texts(args@) =~= delete_legacy_args(Rule { ip, port }));
    }
    args
}

/// How a part of the firewall is brought into being: by the next command, or not at all once it
/// is known to be there (`true`) or impossible to make (`false`).
pub enum Ensure {
    Run(Vec<String>),
    Done(bool),
}

/// Brings the chain into being. `listed` says whether listing it succeeded and `created` whether
/// creating it did, as far as the commands were run.
pub fn ensure_chain(listed: Option<bool>, created: Option<bool>) -> (out: Ensure)
    ensures
        match (listed, created) {
            (None, _) => out matches Ensure::Run(args) && text::texts(args@) == list_chain_args(),
            (Some(true), _) => out == Ensure::Done(true),
            (Some(false), None) => out matches Ensure::Run(args) && text::texts(args@)
                == create_chain_args(),
            (Some(false), Some(ok)) => out == Ensure::Done(ok),
        },
{
    match listed {
        None => Ensure::Run(list_chain()),
        Some(true) => Ensure::Done(true),
        Some(false) => match created {
            None => Ensure::Run(create_chain()),
            Some(ok) => Ensure::Done(ok),
        },
    }
}

/// Brings the rule into being that leads from `INPUT` to the chain. `present` says whether the
/// check for it succeeded and `added` whether adding it did, as far as the commands were run.
pub fn ensure_jump_rule(present: Option<bool>, added: Option<bool>) -> (out: Ensure)
    ensures
        match (present, added) {
            (None, _) => out matches Ensure::Run(args) && text::texts(args@) == check_jump_args(),
            (Some(true), _) => out == Ensure::Done(true),
            (Some(false), None) => out matches Ensure::Run(args) && text::texts(args@)
                == add_jump_args(),
            (Some(false), Some(ok)) => out == Ensure::Done(ok),
        },
{
    match present {
        None => Ensure::Run(check_jump_rule()),
        Some(true) => Ensure::Done(true),
        Some(false) => match added {
            None => Ensure::Run(add_jump_rule()),
            Some(ok) => Ensure::Done(ok),
        },
    }
}

} // verus!
