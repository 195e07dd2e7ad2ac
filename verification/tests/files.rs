use ddnsfw::addr::Ipv4Addr;
use ddnsfw::addr::Rule;
use ddnsfw::cache::Cache;
use ddnsfw::cache::CacheState;
use ddnsfw::chain::cleanup_legacy_rules;
use ddnsfw::chain::get_chain_rules;
use ddnsfw::config::parse_config;
use ddnsfw::config::render_config;
use ddnsfw::config::DdnsEntry;
use ddnsfw::config::Truncation;
use ddnsfw::dns::resolve_dns;
use ddnsfw::dns::resolve_url;
use ddnsfw::dns::DnsAnswer;
use ddnsfw::dns::DnsResponse;

fn rule(d: u8, port: u16) -> Rule {
    Rule { ip: Ipv4Addr { a: 1, b: 2, c: 3, d }, port }
}

fn lines(s: &str) -> Vec<String> {
    s.lines().map(|l| l.to_string()).collect()
}

fn entries(content: &str) -> Vec<(String, u16)> {
    parse_config(content).0.into_iter().map(|e| (e.hostname, e.port)).collect()
}

fn pair(host: &str, port: u16) -> (String, u16) {
    (host.to_string(), port)
}

// Configuration

#[test]
fn the_team_example_is_read() {
    let content = "# SSH Access - Development Team\nalice.ddns.net:22\nbob.ddns.net:22\ncharlie.ddns.net:22\n\n# Database Access - DBA Only\nalice.ddns.net:3306\nalice.ddns.net:5432\n";
    assert_eq!(
        entries(content),
        vec![
            pair("alice.ddns.net", 22),
            pair("bob.ddns.net", 22),
            pair("charlie.ddns.net", 22),
            pair("alice.ddns.net", 3306),
            pair("alice.ddns.net", 5432),
        ]
    );
    assert_eq!(parse_config(content).1, Truncation::Nothing);
}

#[test]
fn odd_lines_are_passed_over() {
    let content = "  home.example : 22  \nno port\n:22\nhost:\nhost:0\nhost:70000\nhost:x\n  # c:1\na:b:8080\r\n\n";
    assert_eq!(entries(content), vec![pair("home.example", 22), pair("a:b", 8080)]);
    assert_eq!(entries(""), vec![]);
}

#[test]
fn entries_are_limited() {
    let many: String = (0..150).map(|i| format!("h{}:{}\n", i, i + 1)).collect();
    let (list, cut) = parse_config(&many);
    assert_eq!(list.len(), 100);
    assert_eq!(list[99].hostname, "h99");
    assert_eq!(cut, Truncation::Entries);
    let exact: String = (0..100).map(|i| format!("h{}:{}\n", i, i + 1)).collect();
    assert_eq!(parse_config(&exact).0.len(), 100);
    assert_eq!(parse_config(&exact).1, Truncation::Nothing);
}

#[test]
fn config_lines_are_limited() {
    let mut content = "# comment\n".repeat(199);
    content.push_str("last:1\nlost:2\n");
    assert_eq!(entries(&content), vec![pair("last", 1)]);
    assert_eq!(parse_config(&content).1, Truncation::Lines);
}

#[test]
fn a_written_configuration_is_read_back() {
    let list = vec![
        DdnsEntry { hostname: "home.dyndns.org".to_string(), port: 22 },
        DdnsEntry { hostname: "x:y".to_string(), port: 65535 },
    ];
    let content = render_config(&list);
    assert_eq!(
        content,
        "# DDNS Firewall Configuration\n# Format: hostname:port\n\nhome.dyndns.org:22\nx:y:65535\n"
    );
    assert_eq!(entries(&content), vec![pair("home.dyndns.org", 22), pair("x:y", 65535)]);
}

// Cache

#[test]
fn an_empty_cache_is_written() {
    assert_eq!(Cache::new().save(), "STATE:IDLE\nRULES:\nPENDING:\n");
}

#[test]
fn a_cache_is_read_back_from_its_text() {
    let mut cache = Cache::new();
    cache.add_rule(rule(4, 22));
    cache.add_rule(rule(5, 22));
    let kept = cache.set_adding(rule(6, 80));
    assert_eq!(kept, "STATE:ADDING\nRULES:1.2.3.4:22,1.2.3.5:22\nPENDING:1.2.3.6:80\n");
    let back = Cache::load(&lines(&kept));
    assert_eq!(back.state, CacheState::Adding);
    assert_eq!(back.rules, vec![rule(4, 22), rule(5, 22)]);
    assert_eq!(back.pending, Some(rule(6, 80)));
    assert_eq!(back.save(), kept);
}

#[test]
fn cache_changes() {
    let mut cache = Cache::new();
    assert_eq!(cache.add_rule(rule(4, 22)), "STATE:IDLE\nRULES:1.2.3.4:22\nPENDING:\n");
    assert_eq!(cache.add_rule(rule(4, 22)), "STATE:IDLE\nRULES:1.2.3.4:22\nPENDING:\n");
    assert_eq!(
        cache.set_deleting(rule(4, 22)),
        "STATE:DELETING\nRULES:1.2.3.4:22\nPENDING:1.2.3.4:22\n"
    );
    assert_eq!(cache.remove_rule(rule(9, 9)), "STATE:IDLE\nRULES:1.2.3.4:22\nPENDING:\n");
    assert_eq!(cache.remove_rule(rule(4, 22)), "STATE:IDLE\nRULES:\nPENDING:\n");
    cache.set_adding(rule(7, 7));
    assert_eq!(cache.set_idle(), "STATE:IDLE\nRULES:\nPENDING:\n");
}

#[test]
fn a_cache_holds_a_limited_number_of_rules() {
    let mut cache = Cache::new();
    for i in 0..120u16 {
        cache.add_rule(rule(1, i));
    }
    assert_eq!(cache.rules.len(), 100);
    assert_eq!(cache.rules[99], rule(1, 99));
    let list: Vec<String> = (0..120).map(|i| format!("1.2.3.1:{}", i)).collect();
    let loaded = Cache::load(&vec![format!("RULES:{}", list.join(","))]);
    assert_eq!(loaded.rules.len(), 100);
    let twice = Cache::load(&vec![
        format!("RULES:{}", list[..60].join(",")),
        format!("RULES:{}", list[60..].join(",")),
    ]);
    assert_eq!(twice.rules.len(), 100);
}

#[test]
fn a_damaged_cache_is_read_as_far_as_it_goes() {
    let cache = Cache::load(&lines("junk\nSTATE:WEIRD\nRULES:x, 1.2.3.4:22 ,,9.9.9.9\nPENDING:no\n"));
    assert_eq!(cache.state, CacheState::Idle);
    assert_eq!(cache.rules, vec![rule(4, 22)]);
    assert_eq!(cache.pending, None);
    let late = Cache::load(&lines("1\n2\n3\n4\n5\n6\n7\n8\n9\n10\nSTATE:ADDING\n"));
    assert_eq!(late.state, CacheState::Idle);
    let tenth = Cache::load(&lines("1\n2\n3\n4\n5\n6\n7\n8\n9\nSTATE:ADDING\n"));
    assert_eq!(tenth.state, CacheState::Adding);
    let last = Cache::load(&lines("STATE:ADDING\nSTATE:DELETING\nPENDING:1.2.3.4:1\nPENDING:1.2.3.5:2\n"));
    assert_eq!(last.state, CacheState::Deleting);
    assert_eq!(last.pending, Some(rule(5, 2)));
    assert_eq!(Cache::load(&vec![" STATE:ADDING".to_string()]).state, CacheState::Idle);
    assert_eq!(Cache::load(&vec![]).state, CacheState::Idle);
}

// Listings

#[test]
fn the_rules_of_the_chain_are_read() {
    let output = "-N DDNS-FW\n-A DDNS-FW -s 1.2.3.4/32 -p tcp -m tcp --dport 22 -m comment --comment DDNS-ACCESS -j ACCEPT\n-A DDNS-FW -s 1.2.3.5/32 -p tcp -m tcp --dport 3306 -m comment --comment DDNS-ACCESS -j ACCEPT\n-A DDNS-FW -s 1.2.3.4/32 -p tcp -m tcp --dport 22 -m comment --comment DDNS-ACCESS -j ACCEPT\n-A DDNS-FW -p tcp -m tcp --dport 22 -m comment --comment DDNS-DROP -j DROP\n-A DDNS-FW -p tcp -m tcp --dport 22 -m comment --comment other -j DROP\n";
    let found = get_chain_rules(Some(output));
    assert_eq!(found.accept, vec![rule(4, 22), rule(5, 3306)]);
    assert_eq!(found.drop, vec![22]);
    assert!(!found.truncated);
}

#[test]
fn without_a_listing_there_are_no_rules() {
    let found = get_chain_rules(None);
    assert_eq!(found.accept, vec![]);
    assert_eq!(found.drop, Vec::<u16>::new());
    assert_eq!(cleanup_legacy_rules(None), vec![]);
}

#[test]
fn quoted_comments_and_incomplete_rules() {
    let output = "-A DDNS-FW -s 1.2.3.4/32 --dport 22 -m comment --comment \"DDNS-ACCESS\" -j ACCEPT\n-A DDNS-FW --dport 22 -m comment --comment DDNS-ACCESS -j ACCEPT\n-A DDNS-FW -s 1.2.3.9 --dport x -m comment --comment DDNS-ACCESS -j ACCEPT\n-A DDNS-FW -s 1.2.3.8 -m comment --comment DDNS-ACCESS -j ACCEPT --dport\n-A X -s 1.2.3.1 -s 1.2.3.2 --dport 7 DDNS-ACCESS ACCEPT\n";
    assert_eq!(get_chain_rules(Some(output)).accept, vec![rule(4, 22), rule(2, 7)]);
}

#[test]
fn a_long_listing_is_cut() {
    let mut output = String::new();
    for i in 0..250u32 {
        output.push_str(&format!("-A DDNS-FW --dport {} DDNS-DROP -j DROP\n", i + 1));
    }
    let found = get_chain_rules(Some(&output));
    assert_eq!(found.drop.len(), 200);
    assert!(found.truncated);
    let mut many = String::new();
    for i in 0..150u32 {
        many.push_str(&format!("-s 1.2.3.4/32 --dport {} DDNS-ACCESS -j ACCEPT\n", i + 1));
    }
    let found = get_chain_rules(Some(&many));
    assert_eq!(found.accept.len(), 100);
    assert_eq!(found.accept[99], rule(4, 100));
    assert!(!found.truncated);
}

#[test]
fn only_the_first_words_of_a_rule_count() {
    let front = "w ".repeat(48);
    let line = format!("{}--dport 22 -s 1.2.3.4 DDNS-DROP DROP", front);
    assert_eq!(get_chain_rules(Some(&line)).drop, vec![22]);
    let front = "w ".repeat(50);
    let line = format!("{}--dport 22 DDNS-DROP DROP", front);
    assert_eq!(get_chain_rules(Some(&line)).drop, Vec::<u16>::new());
}

#[test]
fn rules_of_an_earlier_release_are_told_apart() {
    let output = "-P INPUT ACCEPT\n-A INPUT -m comment --comment DDNS-JUMP -j DDNS-FW\n-A INPUT -s 1.2.3.4/32 -p tcp -m tcp --dport 22 -m comment --comment DDNS-ACCESS -j ACCEPT\n-A INPUT -s 1.2.3.5/32 -p tcp -m tcp --dport 22 -j ACCEPT\n-A DDNS-FW -s 1.2.3.6/32 -p tcp -m tcp --dport 22 -m comment --comment DDNS-ACCESS -j ACCEPT\n-A INPUT -s 1.2.3.4/32 -p tcp -m tcp --dport 22 -m comment --comment DDNS-ACCESS -j ACCEPT\n";
    assert_eq!(cleanup_legacy_rules(Some(output)), vec![rule(4, 22), rule(4, 22)]);
}

// Names

fn answer(record_type: u32, data: &str) -> DnsAnswer {
    DnsAnswer { record_type, data: data.to_string() }
}

#[test]
fn the_first_address_record_counts() {
    let found = resolve_dns(&DnsResponse {
        status: 0,
        answer: vec![answer(5, "alias."), answer(1, "1.2.3.4"), answer(1, "1.2.3.5")],
    });
    assert_eq!(found, Some(rule(4, 0).ip));
    let broken = resolve_dns(&DnsResponse {
        status: 0,
        answer: vec![answer(1, "nonsense"), answer(1, "1.2.3.5")],
    });
    assert_eq!(broken, None);
    assert_eq!(resolve_dns(&DnsResponse { status: 0, answer: vec![] }), None);
    assert_eq!(resolve_dns(&DnsResponse { status: 3, answer: vec![answer(1, "1.2.3.4")] }), None);
}

#[test]
fn the_question_names_the_host() {
    assert_eq!(
        resolve_url("home.dyndns.org"),
        "https://8.8.8.8/resolve?name=home.dyndns.org&type=A"
    );
}
