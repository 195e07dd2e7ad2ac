use ddnsfw::cache::Cache;
use ddnsfw::config::parse_config;
use ddnsfw::config::render_config;
use ddnsfw::config::DdnsEntry;
use ddnsfw::install::install;
use ddnsfw::install::next_step;
use ddnsfw::install::Action;
use ddnsfw::install::Next;
use ddnsfw::install::SERVICE_UNIT;
use ddnsfw::install::TIMER_UNIT;
use ddnsfw::setup::interactive_setup;
use ddnsfw::setup::prompt;
use ddnsfw::setup::prompt_yn;
use ddnsfw::setup::question_text;
use ddnsfw::setup::start_setup;
use ddnsfw::setup::Question;
use ddnsfw::setup::Setup;
use ddnsfw::setup::MAX_ANSWERS;
use ddnsfw::system::acquire_lock;
use ddnsfw::system::find_iptables;
use ddnsfw::system::iptables_paths;
use ddnsfw::system::is_installed;
use ddnsfw::system::is_root;
use ddnsfw::system::is_running_installed;
use ddnsfw::system::run_mode;
use ddnsfw::system::LockStep;
use ddnsfw::system::Mode;
use std::collections::HashMap;

const RUN: &str = "/etc/ddnsfw/run";

#[test]
fn the_first_firewall_command_counts() {
    assert_eq!(
        iptables_paths(),
        vec!["/usr/sbin/iptables", "/sbin/iptables", "/usr/bin/iptables"]
    );
    assert_eq!(find_iptables(&vec![true, true, true]), Some("/usr/sbin/iptables"));
    assert_eq!(find_iptables(&vec![false, true, true]), Some("/sbin/iptables"));
    assert_eq!(find_iptables(&vec![false, false, true]), Some("/usr/bin/iptables"));
    assert_eq!(find_iptables(&vec![false, false, false]), None);
    assert_eq!(find_iptables(&vec![]), None);
    assert_eq!(find_iptables(&vec![false, false, false, true]), None);
}

#[test]
fn what_the_program_does_when_it_is_started() {
    assert_eq!(run_mode(1000, true, true, Some(RUN)), Mode::NotRoot);
    assert_eq!(run_mode(0, true, true, Some(RUN)), Mode::Sync);
    assert_eq!(run_mode(0, true, true, Some("/root/ddnsfw")), Mode::AlreadyInstalled);
    assert_eq!(run_mode(0, true, true, None), Mode::AlreadyInstalled);
    assert_eq!(run_mode(0, true, false, Some(RUN)), Mode::Setup);
    assert_eq!(run_mode(0, false, true, None), Mode::Setup);
    assert!(is_root(0));
    assert!(!is_root(1));
    assert!(is_installed(true, true));
    assert!(!is_installed(true, false));
    assert!(!is_installed(false, true));
    assert!(is_running_installed(Some(RUN)));
    assert!(!is_running_installed(Some("/etc/ddnsfw/run2")));
    assert!(!is_running_installed(None));
}

#[test]
fn the_lock_is_waited_for() {
    assert_eq!(acquire_lock(None, None, None), LockStep::Open);
    assert_eq!(acquire_lock(Some(false), None, None), LockStep::CannotOpen);
    assert_eq!(acquire_lock(Some(true), None, None), LockStep::TryLock);
    assert_eq!(acquire_lock(Some(true), Some(0), None), LockStep::Held);
    assert_eq!(acquire_lock(Some(true), Some(-1), None), LockStep::WaitLock(30));
    assert_eq!(acquire_lock(Some(true), Some(-1), Some(Some(0))), LockStep::Held);
    assert_eq!(acquire_lock(Some(true), Some(-1), Some(Some(-1))), LockStep::TimedOut);
    assert_eq!(acquire_lock(Some(true), Some(-1), Some(None)), LockStep::TimedOut);
}

#[test]
fn yes_and_no_in_any_letters() {
    for yes in ["y", "Y", "yes", "YES", " yEs \n"] {
        assert!(prompt_yn(yes, false), "{:?}", yes);
    }
    for no in ["n", "N", "no", "No\r\n"] {
        assert!(!prompt_yn(no, true), "{:?}", no);
    }
    for other in ["", "\n", "maybe", "yess", "ye s", "ja", "nope"] {
        assert!(prompt_yn(other, true), "{:?}", other);
        assert!(!prompt_yn(other, false), "{:?}", other);
    }
}

#[test]
fn no_other_letter_counts_as_yes_or_no() {
    for n in 0..0x110000u32 {
        if let Some(c) = char::from_u32(n) {
            let input = c.to_string();
            let lowered = input.trim().to_lowercase();
            assert_eq!(prompt_yn(&input, false), lowered == "y", "{:x}", n);
            assert_eq!(!prompt_yn(&input, true), lowered == "n", "{:x}", n);
            for word in [format!("ye{}", c), format!("n{}", c), format!("y{}s", c)] {
                let lowered = word.trim().to_lowercase();
                let yes = lowered == "y" || lowered == "yes";
                let no = lowered == "n" || lowered == "no";
                assert_eq!(prompt_yn(&word, false), yes, "{:?}", word);
                assert_eq!(!prompt_yn(&word, true), no, "{:?}", word);
            }
        }
    }
}

#[test]
fn questions_show_the_proposed_answer() {
    assert_eq!(question_text("Go on?", true), "Go on? [Y/n]: ");
    assert_eq!(question_text("Go on?", false), "Go on? [y/N]: ");
    assert_eq!(prompt("  home.example \n"), "home.example");
}

fn say(s: &mut Setup, answers: &[&str]) {
    for a in answers {
        interactive_setup(s, a);
    }
}

#[test]
fn a_dialogue_gathers_entries() {
    let mut s = start_setup(true).unwrap();
    assert_eq!(s.question, Question::Port);
    say(&mut s, &["0\n", "x\n", "70000\n", ""]);
    assert_eq!(s.question, Question::Port);
    say(&mut s, &["22\n"]);
    assert_eq!(s.question, Question::Hostname(22));
    say(&mut s, &["\n", "two words\n"]);
    assert_eq!(s.question, Question::Hostname(22));
    say(&mut s, &[" home.dyndns.org \n"]);
    assert_eq!(s.question, Question::Another);
    say(&mut s, &["y\n", "+3306\n", "db\n", "\n"]);
    assert_eq!(s.question, Question::Install(false));
    let got: Vec<(String, u16)> =
        s.entries.iter().map(|e| (e.hostname.clone(), e.port)).collect();
    assert_eq!(got, vec![("home.dyndns.org".to_string(), 22), ("db".to_string(), 3306)]);
    say(&mut s, &["\n"]);
    assert_eq!(s.question, Question::Accepted);
    say(&mut s, &["n\n"]);
    assert_eq!(s.question, Question::Accepted);
}

#[test]
fn a_dialogue_can_be_cancelled() {
    let mut s = start_setup(true).unwrap();
    say(&mut s, &["22", "home", "no", "n"]);
    assert_eq!(s.question, Question::Cancelled);
    assert!(start_setup(false).is_none());
}

#[test]
fn a_dialogue_ends_when_the_input_does() {
    let mut s = start_setup(true).unwrap();
    for _ in 0..199 {
        interactive_setup(&mut s, "");
        assert_eq!(s.question, Question::Port);
    }
    interactive_setup(&mut s, "");
    assert_eq!(s.question, Question::Cancelled);
    interactive_setup(&mut s, "22");
    assert_eq!(s.question, Question::Cancelled);
}

#[test]
fn an_answer_that_is_taken_ends_a_row_of_refusals() {
    let mut s = start_setup(true).unwrap();
    for _ in 0..199 {
        interactive_setup(&mut s, "x");
    }
    assert_eq!(s.refused, 199);
    interactive_setup(&mut s, "22");
    assert_eq!(s.question, Question::Hostname(22));
    assert_eq!(s.refused, 0);
    for _ in 0..199 {
        interactive_setup(&mut s, "two words");
    }
    interactive_setup(&mut s, "home");
    assert_eq!(s.question, Question::Another);
    say(&mut s, &["y"]);
    for _ in 0..200 {
        interactive_setup(&mut s, "0");
    }
    assert_eq!(s.question, Question::Cancelled);
}

#[test]
fn a_dialogue_takes_a_limited_number_of_answers() {
    let mut s = start_setup(true).unwrap();
    let mut answers = 0;
    while s.question != Question::Accepted && s.question != Question::Cancelled {
        let input = match s.question {
            Question::Port if s.refused == 199 => "22",
            Question::Hostname(_) if s.refused == 199 => "home",
            Question::Port | Question::Hostname(_) => "",
            _ => "y",
        };
        interactive_setup(&mut s, input);
        answers += 1;
    }
    assert_eq!(s.question, Question::Accepted);
    assert_eq!(s.entries.len(), 100);
    assert_eq!(answers, MAX_ANSWERS);
}

#[test]
fn long_hostnames_are_refused() {
    let fits = "a".repeat(255);
    let long = "a".repeat(256);
    let wide = "é".repeat(128);
    let mut s = start_setup(true).unwrap();
    say(&mut s, &["22", &long]);
    assert_eq!(s.question, Question::Hostname(22));
    say(&mut s, &[&wide]);
    assert_eq!(s.question, Question::Hostname(22));
    say(&mut s, &[&"é".repeat(127)]);
    assert_eq!(s.question, Question::Another);
    say(&mut s, &["y", "22", &fits]);
    assert_eq!(s.question, Question::Another);
    say(&mut s, &["y", "22", &"\u{1f600}".repeat(64)]);
    assert_eq!(s.question, Question::Hostname(22));
    say(&mut s, &[&"\u{20ac}".repeat(86)]);
    assert_eq!(s.question, Question::Hostname(22));
    say(&mut s, &[&"\u{20ac}".repeat(85)]);
    assert_eq!(s.question, Question::Another);
}

#[test]
fn a_dialogue_takes_a_limited_number_of_entries() {
    let mut s = start_setup(true).unwrap();
    for i in 0..100 {
        let host = format!("h{}", i);
        say(&mut s, &["22", &host]);
        assert_eq!(s.question, Question::Another);
        say(&mut s, &["yes"]);
    }
    assert_eq!(s.question, Question::Install(true));
    assert_eq!(s.entries.len(), 100);
}

#[test]
fn what_the_dialogue_took_is_read_from_the_configuration() {
    let mut s = start_setup(true).unwrap();
    say(&mut s, &["22", "home.dyndns.org", "y", "65535", "a\tb:c", "n", ""]);
    let back = parse_config(&render_config(&s.entries)).0;
    assert_eq!(back.len(), 2);
    for (x, y) in back.iter().zip(s.entries.iter()) {
        assert_eq!(x.hostname, y.hostname);
        assert_eq!(x.port, y.port);
    }
}

fn shown(action: &Action) -> String {
    match action {
        Action::MakeDir(p) => format!("mkdir {}", p),
        Action::SetMode(p, m) => format!("chmod {:o} {}", m, p),
        Action::Copy(a, b) => format!("cp {} {}", a, b),
        Action::Write(p, Some(m), c) => format!("write {:o} {} {}", m, p, c.len()),
        Action::Write(p, None, c) => format!("write {} {}", p, c.len()),
        Action::Replace(p, m, c) => format!("replace {:o} {} {}", m, p, c.len()),
        Action::Create(p, m) => format!("create {:o} {}", m, p),
        Action::Systemctl(args) => format!("systemctl {}", args.join(" ")),
        Action::GiveUp => "give up".to_string(),
    }
}

fn one_entry() -> Vec<DdnsEntry> {
    vec![DdnsEntry { hostname: "home".to_string(), port: 22 }]
}

#[test]
fn the_steps_of_the_installation() {
    let entries = one_entry();
    let steps = install(&entries, Some("/root/ddnsfw"));
    let got: Vec<(String, Option<&str>)> =
        steps.iter().map(|s| (shown(&s.action), s.complaint)).collect();
    let config = render_config(&entries).len();
    let cache = Cache::new().save().len();
    let want = vec![
        ("mkdir /etc/ddnsfw".to_string(), Some("Failed to create directory")),
        ("chmod 700 /etc/ddnsfw".to_string(), Some("Failed to set directory permissions")),
        ("cp /root/ddnsfw /etc/ddnsfw/run".to_string(), Some("Failed to copy binary")),
        ("chmod 700 /etc/ddnsfw/run".to_string(), Some("Failed to set binary permissions")),
        (format!("write 600 /etc/ddnsfw/conf.conf {}", config), Some("Failed to write config")),
        (
            "chmod 600 /etc/ddnsfw/conf.conf".to_string(),
            Some("Failed to set config permissions"),
        ),
        (format!("replace 600 /etc/ddnsfw/service.cache {}", cache), None),
        ("create 600 /etc/ddnsfw/.lock".to_string(), Some("Failed to create lock file")),
        (
            "chmod 600 /etc/ddnsfw/.lock".to_string(),
            Some("Failed to set lock file permissions"),
        ),
        (
            format!("write /etc/systemd/system/ddnsfw.service {}", SERVICE_UNIT.len()),
            Some("Failed to write service file"),
        ),
        (
            format!("write /etc/systemd/system/ddnsfw.timer {}", TIMER_UNIT.len()),
            Some("Failed to write timer file"),
        ),
        ("systemctl daemon-reload".to_string(), None),
        ("systemctl enable ddnsfw.timer".to_string(), None),
        ("systemctl start ddnsfw.timer".to_string(), None),
        ("systemctl start ddnsfw.service".to_string(), None),
    ];
    assert_eq!(got, want);
}

#[test]
fn the_contents_that_are_installed() {
    let steps = install(&one_entry(), Some("/root/ddnsfw"));
    let contents: Vec<String> = steps
        .iter()
        .filter_map(|s| match &s.action {
            Action::Write(_, _, c) => Some(c.clone()),
            Action::Replace(_, _, c) => Some(c.clone()),
            _ => None,
        })
        .collect();
    assert_eq!(
        contents,
        vec![
            "# DDNS Firewall Configuration\n# Format: hostname:port\n\nhome:22\n".to_string(),
            "STATE:IDLE\nRULES:\nPENDING:\n".to_string(),
            SERVICE_UNIT.to_string(),
            TIMER_UNIT.to_string(),
        ]
    );
    assert_eq!(
        SERVICE_UNIT,
        r#"[Unit]
Description=DDNS Firewall Synchronizer
After=network-online.target
Wants=network-online.target

[Service]
Type=oneshot
ExecStart=/etc/ddnsfw/run
User=root
StandardOutput=journal
StandardError=journal
SyslogIdentifier=ddnsfw

[Install]
WantedBy=multi-user.target
"#
    );
    assert_eq!(
        TIMER_UNIT,
        r#"[Unit]
Description=DDNS Firewall Synchronizer Timer

[Timer]
OnBootSec=30sec
OnUnitActiveSec=2min
RandomizedDelaySec=10sec
Persistent=true

[Install]
WantedBy=timers.target
"#
    );
}

#[test]
fn a_program_in_its_place_is_not_copied() {
    let steps = install(&one_entry(), Some(RUN));
    assert!(!steps.iter().any(|s| matches!(s.action, Action::Copy(_, _))));
    assert_eq!(steps.len(), 14);
}

#[test]
fn a_program_that_does_not_know_its_place_is_not_installed() {
    let steps = install(&one_entry(), None);
    assert_eq!(steps.len(), 3);
    assert_eq!(shown(&steps[2].action), "give up");
    assert_eq!(steps[2].complaint, Some("Cannot get exe path"));
}

#[test]
fn the_permissions_hold_whatever_was_there() {
    let places = [
        ("/etc/ddnsfw", 0o700),
        ("/etc/ddnsfw/run", 0o700),
        ("/etc/ddnsfw/conf.conf", 0o600),
        ("/etc/ddnsfw/service.cache", 0o600),
        ("/etc/ddnsfw/.lock", 0o600),
    ];
    for there in [true, false] {
        let mut modes: HashMap<String, u32> = HashMap::new();
        if there {
            for (path, _) in places {
                modes.insert(path.to_string(), 0o644);
            }
        }
        for step in install(&one_entry(), Some("/root/ddnsfw")) {
            match step.action {
                Action::MakeDir(p) => {
                    modes.entry(p).or_insert(0o755);
                }
                Action::SetMode(p, m) | Action::Replace(p, m, _) => {
                    modes.insert(p, m);
                }
                Action::Copy(_, to) => {
                    modes.insert(to, 0o755);
                }
                Action::Write(p, m, _) => {
                    modes.entry(p).or_insert(m.unwrap_or(0o644));
                }
                Action::Create(p, m) => {
                    modes.entry(p).or_insert(m);
                }
                _ => {}
            }
        }
        for (path, mode) in places {
            assert_eq!(modes[path], mode, "{}", path);
        }
    }
}

#[test]
fn an_installation_ends_at_the_first_step_that_had_to_succeed() {
    let steps = install(&one_entry(), Some("/root/ddnsfw"));
    assert_eq!(next_step(&steps, 0, true), Next::Perform(1));
    assert_eq!(next_step(&steps, 0, false), Next::Failed("Failed to create directory"));
    assert_eq!(next_step(&steps, 4, false), Next::Failed("Failed to write config"));
    assert_eq!(next_step(&steps, 6, false), Next::Perform(7));
    let last = steps.len() - 1;
    assert_eq!(next_step(&steps, last - 1, false), Next::Perform(last));
    assert_eq!(next_step(&steps, last, true), Next::Complete);
    assert_eq!(next_step(&steps, last, false), Next::Complete);
    assert_eq!(next_step(&steps, last + 1, true), Next::Complete);
}

#[test]
fn nobody_but_the_owner_gets_permissions() {
    for step in install(&one_entry(), Some("/root/ddnsfw")) {
        let mode = match step.action {
            Action::SetMode(_, m) => Some(m),
            Action::Write(_, m, _) => m,
            Action::Replace(_, m, _) => Some(m),
            Action::Create(_, m) => Some(m),
            _ => None,
        };
        if let Some(m) = mode {
            assert_eq!(m & 0o077, 0);
        }
    }
}
