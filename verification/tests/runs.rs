use ddnsfw::addr::Ipv4Addr;
use ddnsfw::addr::Rule;
use ddnsfw::cache::Cache;
use ddnsfw::cache::CacheState;
use ddnsfw::command::add_drop_rule;
use ddnsfw::command::add_rule;
use ddnsfw::command::delete_drop_rule;
use ddnsfw::command::delete_legacy_rule;
use ddnsfw::command::delete_rule;
use ddnsfw::command::ensure_chain;
use ddnsfw::command::ensure_jump_rule;
use ddnsfw::command::rule_exists;
use ddnsfw::command::Ensure;
use ddnsfw::dns::DnsAnswer;
use ddnsfw::dns::DnsResponse;
use ddnsfw::progress::MAX_REQUESTS;
use ddnsfw::run::Outcome;
use ddnsfw::sync::arguments;
use ddnsfw::sync::recover_from_crash;
use ddnsfw::sync::start_sync;
use ddnsfw::sync::sync_firewall;
use ddnsfw::sync::Command;
use ddnsfw::sync::Recovery;
use ddnsfw::sync::Reply;
use ddnsfw::sync::Request;

fn ip(d: u8) -> Ipv4Addr {
    Ipv4Addr { a: 1, b: 2, c: 3, d }
}

fn rule(d: u8, port: u16) -> Rule {
    Rule { ip: ip(d), port }
}

fn accept(d: u8, port: u16) -> String {
    format!("-s 1.2.3.{}/32 -p tcp -m tcp --dport {} -m comment --comment DDNS-ACCESS -j ACCEPT", d, port)
}

fn block(port: u16) -> String {
    format!("-p tcp -m tcp --dport {} -m comment --comment DDNS-DROP -j DROP", port)
}

const JUMP: &str = "-j DDNS-FW -m comment --comment DDNS-JUMP";

/// A machine with a small firewall.
struct Machine {
    chain: Option<Vec<String>>,
    input: Vec<String>,
    cache: Option<String>,
    config: Option<String>,
    names: Vec<(&'static str, Option<u8>)>,
    /// Commands that hold one of these texts fail.
    broken: Vec<&'static str>,
    /// Every command that was run.
    commands: Vec<String>,
    /// The requests after which the power goes off.
    power: usize,
}

impl Machine {
    fn new(config: &str, names: Vec<(&'static str, Option<u8>)>) -> Machine {
        Machine {
            chain: Some(vec![]),
            input: vec![JUMP.to_string()],
            cache: None,
            config: Some(config.to_string()),
            names,
            broken: vec![],
            commands: vec![],
            power: usize::MAX,
        }
    }

    fn rules(&self) -> Vec<String> {
        self.chain.clone().unwrap_or_default()
    }

    fn list(&mut self, name: &str) -> Option<&mut Vec<String>> {
        if name == "INPUT" {
            Some(&mut self.input)
        } else {
            self.chain.as_mut()
        }
    }

    /// Runs a command and gives what it prints, if it succeeds.
    fn iptables(&mut self, args: &[String]) -> Option<String> {
        let line = args.join(" ");
        self.commands.push(line.clone());
        if self.broken.iter().any(|b| line.contains(b)) {
            return None;
        }
        if args[0] == "-N" {
            if self.chain.is_some() {
                return None;
            }
            self.chain = Some(vec![]);
            return Some(String::new());
        }
        let name = args[1].clone();
        let list = self.list(&name)?;
        match args[0].as_str() {
            "-S" => {
                let mut out = if name == "INPUT" {
                    "-P INPUT ACCEPT\n".to_string()
                } else {
                    format!("-N {}\n", name)
                };
                for r in list.iter() {
                    out.push_str(&format!("-A {} {}\n", name, r));
                }
                Some(out)
            }
            "-C" => {
                let wanted = args[2..].join(" ");
                list.iter().find(|r| **r == wanted).map(|_| String::new())
            }
            "-I" => {
                assert_eq!(args[2], "1");
                list.insert(0, args[3..].join(" "));
                Some(String::new())
            }
            "-A" => {
                list.push(args[2..].join(" "));
                Some(String::new())
            }
            "-D" => {
                let wanted = args[2..].join(" ");
                let at = list.iter().position(|r| *r == wanted)?;
                list.remove(at);
                Some(String::new())
            }
            _ => panic!("{}", line),
        }
    }

    fn perform(&mut self, request: &Request) -> Reply {
        match request {
            Request::ListChain | Request::ListRules | Request::ListInput => {
                Reply::Listing(self.iptables(&arguments(request).unwrap()))
            }
            Request::LoadCache => Reply::CacheLines(match &self.cache {
                Some(text) => text.lines().map(|l| l.to_string()).collect(),
                None => vec![],
            }),
            Request::ReadConfig => Reply::Config(self.config.clone()),
            Request::Resolve(entry) => {
                let found = self.names.iter().find(|n| n.0 == entry.hostname).and_then(|n| n.1);
                Reply::Response(found.map(|d| DnsResponse {
                    status: 0,
                    answer: vec![DnsAnswer { record_type: 1, data: format!("1.2.3.{}", d) }],
                }))
            }
            _ => Reply::Status(self.iptables(&arguments(request).unwrap()).is_some()),
        }
    }

    /// Runs a synchronization; without an outcome the power went off.
    fn sync(&mut self) -> Option<Outcome> {
        self.commands.clear();
        let (mut sync, mut command) = start_sync();
        for round in 0..MAX_REQUESTS + 1 {
            let Command { saves, request } = command;
            for text in saves {
                self.cache = Some(text);
            }
            if let Request::Finish(outcome) = request {
                return Some(outcome);
            }
            if round >= self.power {
                return None;
            }
            let reply = self.perform(&request);
            self.watch();
            command = sync_firewall(&mut sync, &reply);
        }
        panic!("the run does not end")
    }

    /// No blocked port that is configured is out of everyone's reach.
    fn watch(&self) {
        for r in self.rules() {
            if let Some(port) = port_blocked(&r) {
                if self.config.clone().unwrap_or_default().contains(&format!(":{}\n", port)) {
                    assert!(self.reachable(port), "port {} is out of reach", port);
                }
            }
        }
    }

    fn reachable(&self, port: u16) -> bool {
        self.rules().iter().any(|r| r.contains("ACCEPT") && r.contains(&format!("--dport {} ", port)))
    }

    /// The commands that change something.
    fn changes(&self) -> Vec<String> {
        self.commands
            .iter()
            .filter(|c| !c.starts_with("-S") && !c.starts_with("-C"))
            .cloned()
            .collect()
    }
}

fn port_blocked(r: &str) -> Option<u16> {
    let rest = r.strip_prefix("-p tcp -m tcp --dport ")?;
    rest.split(' ').next()?.parse().ok()
}

const HOME: &str = "home:22\n";

#[test]
fn a_first_run_locks_the_ports_down() {
    let mut m = Machine::new(
        "home:22\noffice:22\ndb:3306\n",
        vec![("home", Some(4)), ("office", Some(8)), ("db", Some(12))],
    );
    m.chain = None;
    m.input = vec![];
    assert_eq!(m.sync(), Some(Outcome::Complete));
    assert_eq!(m.input, vec![JUMP.to_string()]);
    assert_eq!(
        m.rules(),
        vec![accept(12, 3306), accept(8, 22), accept(4, 22), block(22), block(3306)]
    );
    assert_eq!(
        m.cache.unwrap(),
        "STATE:IDLE\nRULES:1.2.3.4:22,1.2.3.8:22,1.2.3.12:3306\nPENDING:\n"
    );
}

#[test]
fn a_restart_empties_the_chain_and_a_run_restores_it() {
    let mut m = Machine::new(HOME, vec![("home", Some(4))]);
    m.sync();
    let before = m.rules();
    m.chain = None;
    m.input = vec![];
    assert_eq!(m.sync(), Some(Outcome::Complete));
    assert_eq!(m.rules(), before);
}

#[test]
fn an_unchanged_address_changes_nothing() {
    let mut m = Machine::new("home:22\nweb:80\n", vec![("home", Some(4)), ("web", Some(9))]);
    m.sync();
    let before = m.rules();
    let input = m.input.clone();
    assert_eq!(m.sync(), Some(Outcome::Complete));
    assert_eq!(m.changes(), Vec::<String>::new());
    assert_eq!(m.rules(), before);
    assert_eq!(m.input, input);
}

#[test]
fn a_second_run_changes_nothing_even_when_names_fail() {
    let mut m = Machine::new("home:22\naway:22\nnew:80\n", vec![("home", Some(4))]);
    m.chain = Some(vec![accept(7, 22)]);
    assert_eq!(m.sync(), Some(Outcome::Complete));
    assert_eq!(m.rules(), vec![accept(4, 22), accept(7, 22), block(22)]);
    assert_eq!(m.sync(), Some(Outcome::Complete));
    assert_eq!(m.changes(), Vec::<String>::new());
}

#[test]
fn a_new_address_is_admitted_before_the_old_one_goes() {
    let mut m = Machine::new(HOME, vec![("home", Some(4))]);
    m.sync();
    m.names = vec![("home", Some(5))];
    assert_eq!(m.sync(), Some(Outcome::Complete));
    assert_eq!(m.rules(), vec![accept(5, 22), block(22)]);
    assert_eq!(
        m.changes(),
        vec![
            format!("-I DDNS-FW 1 {}", accept(5, 22)),
            format!("-D DDNS-FW {}", accept(4, 22)),
        ]
    );
}

#[test]
fn a_name_that_fails_keeps_the_rules_of_its_port() {
    let mut m = Machine::new(HOME, vec![("home", Some(4))]);
    m.sync();
    let before = m.rules();
    m.names = vec![];
    assert_eq!(m.sync(), Some(Outcome::Complete));
    assert_eq!(m.changes(), Vec::<String>::new());
    assert_eq!(m.rules(), before);
}

#[test]
fn a_name_that_fails_on_the_first_run_blocks_nothing() {
    let mut m = Machine::new(HOME, vec![]);
    assert_eq!(m.sync(), Some(Outcome::Complete));
    assert_eq!(m.rules(), Vec::<String>::new());
    assert_eq!(m.changes(), Vec::<String>::new());
}

#[test]
fn a_blocked_port_that_nobody_is_admitted_to_is_unblocked() {
    let mut m = Machine::new("home:22\nweb:80\n", vec![("web", Some(9))]);
    m.config = Some("home:22\nweb:80".to_string());
    m.chain = Some(vec![block(22), block(443)]);
    let (mut sync, mut command) = start_sync();
    while !matches!(command.request, Request::Finish(_)) {
        let reply = m.perform(&command.request);
        command = sync_firewall(&mut sync, &reply);
    }
    assert!(matches!(command.request, Request::Finish(Outcome::Complete)));
    assert_eq!(m.rules(), vec![accept(9, 80), block(80)]);
}

#[test]
fn a_refused_rule_keeps_the_rules_of_its_port() {
    let mut m = Machine::new(HOME, vec![("home", Some(4))]);
    m.sync();
    let before = m.rules();
    m.names = vec![("home", Some(5))];
    m.broken = vec!["-I DDNS-FW"];
    assert_eq!(m.sync(), Some(Outcome::Complete));
    assert_eq!(m.rules(), before);
    let add = format!("-I DDNS-FW 1 {}", accept(5, 22));
    assert_eq!(m.changes(), vec![add.clone(), add]);
}

#[test]
fn a_port_is_not_blocked_when_its_only_rule_is_refused() {
    let mut m = Machine::new(HOME, vec![("home", Some(5))]);
    m.broken = vec!["-I DDNS-FW"];
    assert_eq!(m.sync(), Some(Outcome::Complete));
    assert_eq!(m.rules(), Vec::<String>::new());
    assert_eq!(m.cache.unwrap(), "STATE:IDLE\nRULES:\nPENDING:\n");
}

#[test]
fn hosts_with_one_address_share_a_rule() {
    let mut m = Machine::new(
        "alice:22\nbob:22\nalice:80\n",
        vec![("alice", Some(4)), ("bob", Some(4))],
    );
    assert_eq!(m.sync(), Some(Outcome::Complete));
    assert_eq!(m.rules(), vec![accept(4, 80), accept(4, 22), block(22), block(80)]);
}

#[test]
fn a_port_that_is_no_longer_configured_is_released() {
    let mut m = Machine::new("home:22\nweb:80\n", vec![("home", Some(4)), ("web", Some(9))]);
    m.sync();
    m.config = Some(HOME.to_string());
    assert_eq!(m.sync(), Some(Outcome::Complete));
    assert_eq!(m.rules(), vec![accept(4, 22), block(22)]);
}

#[test]
fn rules_of_others_in_the_chain_are_left_alone() {
    let own = "-p udp -m udp --dport 53 -j RETURN".to_string();
    let log = "-m comment --comment \"watch port 22\" -j LOG --log-prefix drop".to_string();
    let mut m = Machine::new(HOME, vec![("home", Some(4))]);
    m.chain = Some(vec![own.clone(), accept(7, 22), log.clone(), block(22), block(80)]);
    assert_eq!(m.sync(), Some(Outcome::Complete));
    assert_eq!(m.rules(), vec![accept(4, 22), own, log, block(22)]);
    m.sync();
    assert_eq!(m.changes(), Vec::<String>::new());
}

#[test]
fn rules_of_an_earlier_release_are_removed() {
    let mut m = Machine::new(HOME, vec![("home", Some(4))]);
    m.input = vec![JUMP.to_string(), accept(4, 22), accept(7, 80), "-p tcp -j ACCEPT".to_string()];
    assert_eq!(m.sync(), Some(Outcome::Complete));
    assert_eq!(m.input, vec![JUMP.to_string(), "-p tcp -j ACCEPT".to_string()]);
    assert_eq!(m.rules(), vec![accept(4, 22), block(22)]);
}

#[test]
fn without_entries_only_the_rules_of_an_earlier_release_go() {
    let mut m = Machine::new("# nothing\n", vec![]);
    m.chain = Some(vec![accept(4, 22), block(22)]);
    m.input.push(accept(7, 80));
    assert_eq!(m.sync(), Some(Outcome::NoEntries));
    assert_eq!(m.rules(), vec![accept(4, 22), block(22)]);
    assert_eq!(m.input, vec![JUMP.to_string()]);
    assert_eq!(m.cache, None);
}

#[test]
fn a_configuration_that_cannot_be_read_changes_nothing() {
    let mut m = Machine::new(HOME, vec![("home", Some(4))]);
    m.chain = Some(vec![accept(4, 22), block(22)]);
    m.input.push(accept(7, 80));
    m.config = None;
    assert_eq!(m.sync(), Some(Outcome::ConfigUnread));
    assert_eq!(m.changes(), Vec::<String>::new());
    assert_eq!(m.input, vec![JUMP.to_string(), accept(7, 80)]);
}

#[test]
fn a_listing_that_fails_ends_the_run() {
    let mut m = Machine::new(HOME, vec![("home", Some(5))]);
    m.chain = Some(vec![accept(4, 22), block(22)]);
    let before = m.rules();
    let (mut sync, mut command) = start_sync();
    while !matches!(command.request, Request::Finish(_)) {
        let reply = match command.request {
            Request::ListRules => Reply::Listing(None),
            _ => m.perform(&command.request),
        };
        command = sync_firewall(&mut sync, &reply);
    }
    assert!(matches!(command.request, Request::Finish(Outcome::ListFailed)));
    assert_eq!(m.changes(), Vec::<String>::new());
    assert_eq!(m.rules(), before);
}

#[test]
fn a_rule_of_an_earlier_release_stays_when_its_name_fails() {
    let mut m = Machine::new("a.net:22\n", vec![]);
    m.input.push(accept(4, 22));
    assert_eq!(m.sync(), Some(Outcome::Complete));
    assert_eq!(m.changes(), Vec::<String>::new());
    assert_eq!(m.input, vec![JUMP.to_string(), accept(4, 22)]);
    m.names = vec![("a.net", Some(4))];
    assert_eq!(m.sync(), Some(Outcome::Complete));
    assert_eq!(m.rules(), vec![accept(4, 22), block(22)]);
    assert_eq!(m.input, vec![JUMP.to_string()]);
}

#[test]
fn a_rule_of_an_earlier_release_stays_when_its_successor_is_refused() {
    let mut m = Machine::new(HOME, vec![("home", Some(4))]);
    m.input.push(accept(4, 22));
    m.broken = vec!["-I DDNS-FW"];
    assert_eq!(m.sync(), Some(Outcome::Complete));
    assert_eq!(m.input, vec![JUMP.to_string(), accept(4, 22)]);
    assert_eq!(m.rules(), Vec::<String>::new());
}

#[test]
fn a_rule_of_an_earlier_release_goes_when_the_chain_admits_its_address() {
    let mut m = Machine::new("home:22\naway:22\n", vec![("home", Some(4))]);
    m.input.push(accept(4, 22));
    m.input.push(accept(7, 22));
    m.input.push(accept(7, 8080));
    assert_eq!(m.sync(), Some(Outcome::Complete));
    assert_eq!(m.input, vec![JUMP.to_string(), accept(7, 22)]);
}

#[test]
fn a_chain_that_cannot_be_made_ends_the_run() {
    let mut m = Machine::new(HOME, vec![("home", Some(4))]);
    m.chain = None;
    m.broken = vec!["-N"];
    assert_eq!(m.sync(), Some(Outcome::ChainFailed));
    assert_eq!(m.commands, vec!["-S DDNS-FW", "-N DDNS-FW"]);
}

#[test]
fn a_jump_that_cannot_be_made_ends_the_run() {
    let mut m = Machine::new(HOME, vec![("home", Some(4))]);
    m.input = vec![];
    m.broken = vec!["-I INPUT"];
    assert_eq!(m.sync(), Some(Outcome::JumpFailed));
    assert_eq!(m.rules(), Vec::<String>::new());
}

#[test]
fn a_rule_that_the_listing_misses_is_found() {
    let mut m = Machine::new(HOME, vec![("home", Some(4))]);
    let mut rules: Vec<String> = (1..=100).map(|p| accept(200, 1000 + p)).collect();
    rules.push(accept(4, 22));
    rules.push(block(22));
    m.chain = Some(rules);
    assert_eq!(m.sync(), Some(Outcome::Complete));
    assert_eq!(m.rules(), vec![accept(4, 22), block(22)]);
}

#[test]
fn an_interrupted_run_is_taken_up_again_at_every_point() {
    let fresh = || {
        let mut m = Machine::new(
            "home:22\nweb:80\nweb:22\n",
            vec![("home", Some(4)), ("web", Some(9))],
        );
        m.chain = Some(vec![accept(7, 22), accept(8, 80), accept(6, 443), block(22), block(443)]);
        m
    };
    let mut whole = fresh();
    assert_eq!(whole.sync(), Some(Outcome::Complete));
    let mut wanted = whole.rules();
    wanted.sort();
    for power in 0..60 {
        let mut m = fresh();
        m.power = power;
        let done = m.sync();
        m.power = usize::MAX;
        assert_eq!(m.sync(), Some(Outcome::Complete));
        let mut rules = m.rules();
        rules.sort();
        assert_eq!(rules, wanted, "interrupted after {} requests", power);
        if done.is_some() {
            assert_eq!(m.changes(), Vec::<String>::new());
        }
    }
}

#[test]
fn the_addition_that_was_interrupted_is_made_up_for() {
    let mut m = Machine::new(HOME, vec![]);
    m.cache = Some("STATE:ADDING\nRULES:\nPENDING:1.2.3.4:22\n".to_string());
    assert_eq!(m.sync(), Some(Outcome::Complete));
    assert_eq!(m.rules(), vec![accept(4, 22), block(22)]);
    assert_eq!(m.cache.unwrap(), "STATE:IDLE\nRULES:1.2.3.4:22\nPENDING:\n");
}

#[test]
fn the_deletion_that_was_interrupted_is_forgotten() {
    let mut m = Machine::new(HOME, vec![]);
    m.chain = Some(vec![accept(4, 22)]);
    m.cache = Some("STATE:DELETING\nRULES:1.2.3.4:22\nPENDING:1.2.3.4:22\n".to_string());
    assert_eq!(m.sync(), Some(Outcome::Complete));
    assert_eq!(m.rules(), vec![accept(4, 22), block(22)]);
}

#[test]
fn a_run_ends_whatever_it_is_replied() {
    for reply in [
        Reply::Status(true),
        Reply::Status(false),
        Reply::Listing(None),
        Reply::Config(Some("home:22\n".repeat(100))),
        Reply::CacheLines(vec!["STATE:ADDING".to_string(), "PENDING:1.2.3.4:5".to_string()]),
        Reply::Response(None),
    ] {
        let (mut sync, mut command) = start_sync();
        let mut rounds = 0;
        while !matches!(command.request, Request::Finish(_)) {
            command = sync_firewall(&mut sync, &reply);
            rounds += 1;
            assert!(rounds <= MAX_REQUESTS);
        }
        let again = sync_firewall(&mut sync, &reply);
        assert!(matches!(again.request, Request::Finish(_)));
        assert_eq!(again.saves.len(), 0);
    }
}

#[test]
fn recovery_goes_by_what_is_known() {
    let adding = || {
        let mut c = Cache::new();
        c.set_adding(rule(4, 22));
        c
    };
    let mut c = Cache::new();
    assert!(matches!(recover_from_crash(&mut c, None, None), Recovery::Nothing));
    let mut c = adding();
    assert!(matches!(recover_from_crash(&mut c, None, None), Recovery::Check(r) if r == rule(4, 22)));
    assert!(
        matches!(recover_from_crash(&mut c, Some(false), None), Recovery::Add(r) if r == rule(4, 22))
    );
    assert!(matches!(recover_from_crash(&mut c, Some(false), Some(true)), Recovery::Save(_)));
    assert_eq!(c.rules, vec![rule(4, 22)]);
    let mut c = adding();
    assert!(matches!(recover_from_crash(&mut c, Some(false), Some(false)), Recovery::Save(_)));
    assert_eq!(c.rules, vec![]);
    assert_eq!(c.state, CacheState::Idle);
    let mut c = adding();
    assert!(matches!(recover_from_crash(&mut c, Some(true), None), Recovery::Save(_)));
    assert_eq!(c.rules, vec![rule(4, 22)]);
    let mut c = adding();
    c.pending = None;
    assert!(matches!(recover_from_crash(&mut c, None, None), Recovery::Save(_)));
    assert_eq!(c.state, CacheState::Idle);
    let mut c = Cache::new();
    c.set_deleting(rule(4, 22));
    assert!(matches!(recover_from_crash(&mut c, None, None), Recovery::Save(_)));
    assert_eq!(c.pending, None);
}

#[test]
fn the_commands_are_spelled_out() {
    assert_eq!(
        add_rule(ip(4), 22),
        vec![
            "-I", "DDNS-FW", "1", "-s", "1.2.3.4/32", "-p", "tcp", "-m", "tcp", "--dport", "22", "-m",
            "comment", "--comment", "DDNS-ACCESS", "-j", "ACCEPT",
        ]
    );
    assert_eq!(rule_exists(ip(4), 22).join(" "), format!("-C DDNS-FW {}", accept(4, 22)));
    assert_eq!(delete_rule(ip(4), 22).join(" "), format!("-D DDNS-FW {}", accept(4, 22)));
    assert_eq!(delete_legacy_rule(ip(4), 22).join(" "), format!("-D INPUT {}", accept(4, 22)));
    assert_eq!(
        add_drop_rule(3306),
        vec![
            "-A", "DDNS-FW", "-p", "tcp", "-m", "tcp", "--dport", "3306", "-m", "comment",
            "--comment", "DDNS-DROP", "-j", "DROP",
        ]
    );
    assert_eq!(delete_drop_rule(3306).join(" "), format!("-D DDNS-FW {}", block(3306)));
}

#[test]
fn the_chain_is_made_when_it_is_missing() {
    assert!(matches!(ensure_chain(Some(true), None), Ensure::Done(true)));
    assert!(matches!(ensure_chain(None, None), Ensure::Run(a) if a == vec!["-S", "DDNS-FW"]));
    assert!(matches!(ensure_chain(Some(false), None), Ensure::Run(a) if a == vec!["-N", "DDNS-FW"]));
    assert!(matches!(ensure_chain(Some(false), Some(true)), Ensure::Done(true)));
    assert!(matches!(ensure_chain(Some(false), Some(false)), Ensure::Done(false)));
}

#[test]
fn the_jump_is_made_when_it_is_missing() {
    let check = format!("-C INPUT {}", JUMP);
    let add = format!("-I INPUT 1 {}", JUMP);
    assert!(matches!(ensure_jump_rule(None, None), Ensure::Run(a) if a.join(" ") == check));
    assert!(matches!(ensure_jump_rule(Some(true), None), Ensure::Done(true)));
    assert!(matches!(ensure_jump_rule(Some(false), None), Ensure::Run(a) if a.join(" ") == add));
    assert!(matches!(ensure_jump_rule(Some(false), Some(true)), Ensure::Done(true)));
    assert!(matches!(ensure_jump_rule(Some(false), Some(false)), Ensure::Done(false)));
}
