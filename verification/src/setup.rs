//! The dialogue that asks for a configuration.

use crate::addr;
use crate::config;
use crate::config::DdnsEntry;
use crate::config::EntryView;
use crate::config::MAX_ENTRIES;
use crate::config::MAX_LOOP_ITERATIONS;
use crate::text;
use crate::text_facts;
use vstd::prelude::*;

verus! {

/// How long a hostname may be, in bytes.
pub const HOSTNAME_LIMIT: usize = 256;

// ---------------------------------------------------------------------------
// Answers
// ---------------------------------------------------------------------------

/// The small letter for a capital letter of the Latin alphabet; other characters stay as they are.
pub open spec fn lower(c: char) -> char {
    if 'A' <= c && c <= 'Z' {
        ((c as u32) + 32) as char
    } else {
        c
    }
}

/// `s` is the word, in capital or small letters.
pub open spec fn says(s: Seq<char>, word: Seq<char>) -> bool {
    s.len() == word.len() && forall|i: int| 0 <= i < s.len() ==> lower(#[trigger] s[i]) == word[i]
}

/// What an answer to a question decides: `y` or `yes` and `n` or `no` decide it, anything else leaves
/// it as proposed.
pub open spec fn decision(input: Seq<char>, default: bool) -> bool {
    let answer = text::trimmed(input);
    if says(answer, "y"@) || says(answer, "yes"@) {
        true
    } else if says(answer, "n"@) || says(answer, "no"@) {
        false
    } else {
        default
    }
}

/// How the proposed answer is shown behind a question.
pub open spec fn suffix(default: bool) -> Seq<char> {
    if default {
        " [Y/n]: "@
    } else {
        " [y/N]: "@
    }
}

/// The port that an answer gives, if it gives one.
pub open spec fn port_in(answer: Seq<char>) -> Option<u16> {
    match addr::u16_of(answer) {
        Some(port) => if port > 0 {
            Some(port)
        } else {
            None
        },
        None => None,
    }
}

/// How many bytes a character takes.
pub open spec fn bytes_of(c: char) -> nat {
    if (c as u32) < 0x80 {
        1
    } else if (c as u32) < 0x800 {
        2
    } else if (c as u32) < 0x10000 {
        3
    } else {
        4
    }
}

/// How many bytes a text takes.
pub open spec fn size(s: Seq<char>) -> nat
    decreases s.len(),
{
    if s.len() == 0 {
        0
    } else {
        size(s.drop_last()) + bytes_of(s.last())
    }
}

/// An answer that is taken for a hostname: it is not empty, holds no blank and is not too long.
pub open spec fn is_hostname(answer: Seq<char>) -> bool {
    answer.len() > 0 && !answer.contains(' ') && size(answer) < HOSTNAME_LIMIT
}

// ---------------------------------------------------------------------------
// The dialogue
// ---------------------------------------------------------------------------

/// What the dialogue waits for.
#[derive(Clone, Copy, Debug, PartialEq, Eq, Structural)]
pub enum Question {
    /// The port of an entry.
    Port,
    /// The hostname of an entry for this port.
    Hostname(u16),
    /// Whether there is another entry.
    Another,
    /// Whether to install; the flag says that there is no room for another entry.
    Install(bool),
    /// Nothing: the entries are to be installed.
    Accepted,
    /// Nothing: the dialogue was cancelled.
    Cancelled,
}

/// The state of the dialogue.
pub struct Setup {
    pub question: Question,
    pub entries: Vec<DdnsEntry>,
    /// How many answers in a row were refused.
    pub refused: usize,
}

/// What the state of the dialogue says.
#[verifier::ext_equal]
pub struct SetupView {
    pub question: Question,
    pub entries: Seq<EntryView>,
    pub refused: usize,
}

impl View for Setup {
    type V = SetupView;

    open spec fn view(&self) -> SetupView {
        SetupView {
            question: self.question,
            entries: config::entry_views(self.entries@),
            refused: self.refused,
        }
    }
}

/// The state of a dialogue that begins.
pub open spec fn first_question() -> SetupView {
    SetupView { question: Question::Port, entries: Seq::<EntryView>::empty(), refused: 0 }
}

/// An answer was refused: the question stands, until too many answers in a row were refused.
pub open spec fn refusal(s: SetupView) -> SetupView {
    if s.refused + 1 < MAX_LOOP_ITERATIONS {
        SetupView { refused: (s.refused + 1) as usize, ..s }
    } else {
        SetupView { question: Question::Cancelled, ..s }
    }
}

/// Where a line of input leads.
pub open spec fn answered(s: SetupView, input: Seq<char>) -> SetupView {
    let answer = text::trimmed(input);
    match s.question {
        Question::Port => match port_in(answer) {
            Some(port) => SetupView { question: Question::Hostname(port), refused: 0, ..s },
            None => refusal(s),
        },
        Question::Hostname(port) => if is_hostname(answer) {
            SetupView {
                question: Question::Another,
                entries: s.entries.push(EntryView { hostname: answer, port }),
                refused: 0,
            }
        } else {
            refusal(s)
        },
        Question::Another => SetupView {
            question: if !decision(input, false) {
                Question::Install(false)
            } else if s.entries.len() < MAX_ENTRIES {
                Question::Port
            } else {
                Question::Install(true)
            },
            ..s
        },
        Question::Install(_) => SetupView {
            question: if decision(input, true) {
                Question::Accepted
            } else {
                Question::Cancelled
            },
            ..s
        },
        Question::Accepted => s,
        Question::Cancelled => s,
    }
}

/// What holds of every entry that the dialogue takes.
pub open spec fn taken(entry: EntryView) -> bool {
    entry.port > 0 && is_hostname(entry.hostname) && text::trimmed(entry.hostname)
        == entry.hostname
}

/// What holds throughout the dialogue: the entries are such as it takes, there are no more than the
/// limit, there is one once it asks whether to go on, and fewer answers in a row were refused than the
/// limit.
pub open spec fn proper(s: SetupView) -> bool {
    &&& s.entries.len() <= MAX_ENTRIES
    &&& forall|i: int| 0 <= i < s.entries.len() ==> taken(#[trigger] s.entries[i])
    &&& match s.question {
        Question::Port => s.entries.len() < MAX_ENTRIES,
        Question::Hostname(port) => s.entries.len() < MAX_ENTRIES && port > 0,
        Question::Cancelled => true,
        _ => s.entries.len() > 0,
    }
    &&& s.refused < MAX_LOOP_ITERATIONS
    &&& s.question is Another ==> s.refused == 0
}

// ---------------------------------------------------------------------------
// Laws
// ---------------------------------------------------------------------------

/// Throughout the dialogue, the entries are proper.
pub proof fn law_proper_kept(s: SetupView, input: Seq<char>)
    requires
        proper(s),
    ensures
        proper(answered(s, input)),
        proper(first_question()),
{
    text_facts::lemma_trimmed_twice(input);
    let t = answered(s, input);
    assert forall|i: int| 0 <= i < t.entries.len() implies taken(#[trigger] t.entries[i]) by {
        if i < s.entries.len() {
            assert(t.entries[i] == s.entries[i]);
        }
    }
}

/// The texts that decide a question, in capital or small letters.
pub open spec fn affirms(s: Seq<char>) -> bool {
    ||| s.len() == 1 && (s[0] == 'y' || s[0] == 'Y')
    ||| s.len() == 3 && (s[0] == 'y' || s[0] == 'Y') && (s[1] == 'e' || s[1] == 'E') && (s[2] == 's'
        || s[2] == 'S')
}

/// The texts that decide a question the other way.
pub open spec fn denies(s: Seq<char>) -> bool {
    ||| s.len() == 1 && (s[0] == 'n' || s[0] == 'N')
    ||| s.len() == 2 && (s[0] == 'n' || s[0] == 'N') && (s[1] == 'o' || s[1] == 'O')
}

/// Letters are the same when one is the other in small.
proof fn lemma_lower(c: char)
    ensures
        lower(c) == 'y' <==> c == 'y' || c == 'Y',
        lower(c) == 'e' <==> c == 'e' || c == 'E',
        lower(c) == 's' <==> c == 's' || c == 'S',
        lower(c) == 'n' <==> c == 'n' || c == 'N',
        lower(c) == 'o' <==> c == 'o' || c == 'O',
{
}

/// A yes or a no decides a question, whatever white space stands around it; every other answer leaves
/// it as proposed.
pub proof fn law_decision(a: Seq<char>, answer: Seq<char>, b: Seq<char>, default: bool)
    requires
        text_facts::blank(a),
        text_facts::tight(answer),
        text_facts::blank(b),
    ensures
        decision(a + answer + b, default) == if affirms(answer) {
            true
        } else if denies(answer) {
            false
        } else {
            default
        },
{
    text_facts::law_trimmed(a, answer, b);
    reveal_strlit("y");
    reveal_strlit("yes");
    reveal_strlit("n");
    reveal_strlit("no");
    if answer.len() > 0 {
        lemma_lower(answer[0]);
    }
    if answer.len() > 1 {
        lemma_lower(answer[1]);
    }
    if answer.len() > 2 {
        lemma_lower(answer[2]);
    }
    assert(says(answer, "y"@) <==> answer.len() == 1 && lower(answer[0]) == 'y');
    assert(says(answer, "n"@) <==> answer.len() == 1 && lower(answer[0]) == 'n');
    assert(says(answer, "yes"@) <==> answer.len() == 3 && lower(answer[0]) == 'y' && lower(
        answer[1],
    ) == 'e' && lower(answer[2]) == 's');
    assert(says(answer, "no"@) <==> answer.len() == 2 && lower(answer[0]) == 'n' && lower(answer[1])
        == 'o');
}

/// The bytes of two texts one after the other add up; a character of the lower ranges takes fewer.
pub proof fn law_size(a: Seq<char>, b: Seq<char>, c: char)
    ensures
        size(a + b) == size(a) + size(b),
        size(seq![c]) == if (c as u32) < 0x80 {
            1nat
        } else if (c as u32) < 0x800 {
            2nat
        } else if (c as u32) < 0x10000 {
            3nat
        } else {
            4nat
        },
        a.len() <= size(a),
    decreases b.len(), a.len(),
{
    assert(seq![c].drop_last() =~= Seq::<char>::empty());
    assert(size(Seq::<char>::empty()) == 0);
    if b.len() == 0 {
        assert(a + b =~= a);
        if a.len() > 0 {
            law_size(a.drop_last(), b, c);
        }
    } else {
        law_size(a, b.drop_last(), c);
        assert((a + b).drop_last() =~= a + b.drop_last());
    }
}

/// A port in any notation and then a hostname, with any white space around them, make an entry behind
/// those that were taken before.
pub proof fn law_entry_taken(
    s: SetupView,
    a: Seq<char>,
    t: Seq<char>,
    port: u16,
    b: Seq<char>,
    c: Seq<char>,
    hostname: Seq<char>,
    d: Seq<char>,
)
    requires
        s.question == Question::Port,
        text_facts::blank(a),
        text_facts::blank(b),
        text_facts::blank(c),
        text_facts::blank(d),
        addr::u16_of(t) == Some(port),
        port > 0,
        hostname.len() > 0,
        text_facts::tight(hostname),
        !hostname.contains(' '),
        size(hostname) < 256,
    ensures
        answered(answered(s, a + t + b), c + hostname + d) == (SetupView {
            question: Question::Another,
            entries: s.entries.push(EntryView { hostname, port }),
            refused: 0,
        }),
{
    addr::lemma_number_plain(t, port);
    text_facts::law_trimmed(a, t, b);
    text_facts::law_trimmed(c, hostname, d);
}

/// No other answer is taken for a port or for a hostname: the question stands, and after 200 such answers
/// in a row the dialogue ends.
pub proof fn law_answer_refused(s: SetupView, a: Seq<char>, answer: Seq<char>, b: Seq<char>)
    requires
        text_facts::blank(a),
        text_facts::tight(answer),
        text_facts::blank(b),
        match s.question {
            Question::Port => addr::u16_of(answer) is None || addr::u16_of(answer) == Some(0u16),
            Question::Hostname(_) => answer.len() == 0 || answer.contains(' ') || size(answer)
                >= 256,
            _ => false,
        },
    ensures
        answered(s, a + answer + b) == if s.refused < 199 {
            SetupView { question: s.question, entries: s.entries, refused: (s.refused + 1) as usize }
        } else {
            SetupView { question: Question::Cancelled, entries: s.entries, refused: s.refused }
        },
{
    text_facts::law_trimmed(a, answer, b);
}

/// After an entry the dialogue goes on to another one exactly when that is affirmed and there are fewer
/// than 100; and it is accepted unless that is denied. The entries stay.
pub proof fn law_going_on(s: SetupView, a: Seq<char>, answer: Seq<char>, b: Seq<char>)
    requires
        text_facts::blank(a),
        text_facts::tight(answer),
        text_facts::blank(b),
    ensures
        s.question == Question::Another ==> answered(s, a + answer + b).question == if !affirms(
            answer,
        ) {
            Question::Install(false)
        } else if s.entries.len() < 100 {
            Question::Port
        } else {
            Question::Install(true)
        },
        s.question is Install ==> answered(s, a + answer + b).question == if denies(answer) {
            Question::Cancelled
        } else {
            Question::Accepted
        },
        s.question is Another || s.question is Install ==> answered(s, a + answer + b).entries
            == s.entries,
{
    law_decision(a, answer, b, false);
    law_decision(a, answer, b, true);
}

/// Of the two answers, the one that is proposed is shown by a capital letter.
pub proof fn law_proposed(default: bool)
    ensures
        suffix(default).contains('Y') <==> default,
        suffix(default).contains('y') <==> !default,
        suffix(default).contains('n') <==> default,
        suffix(default).contains('N') <==> !default,
{
    reveal_strlit(" [Y/n]: ");
    reveal_strlit(" [y/N]: ");
    assert(suffix(true)[2] == 'Y' && suffix(true)[4] == 'n');
    assert(suffix(false)[2] == 'y' && suffix(false)[4] == 'N');
}

/// The most answers that a dialogue takes.
pub const MAX_ANSWERS: usize = 40101;

/// A bound on how many answers the dialogue still takes: for each entry that there is room for, the
/// answers for its port and for its hostname, and whether there is another; then whether to install.
pub open spec fn answers_left(s: SetupView) -> int {
    let room = MAX_ENTRIES - s.entries.len();
    match s.question {
        Question::Port => 401 * room + 1 - s.refused,
        Question::Hostname(_) => 401 * room - 199 - s.refused,
        Question::Another => 401 * room + 2,
        Question::Install(_) => 1,
        Question::Accepted => 0,
        Question::Cancelled => 0,
    }
}

/// Each answer brings the dialogue nearer to its end.
pub proof fn law_dialogue_progress(s: SetupView, input: Seq<char>)
    requires
        proper(s),
    ensures
        0 <= answers_left(s) <= MAX_ANSWERS,
        answers_left(s) == 0 <==> s.question is Accepted || s.question is Cancelled,
        answers_left(s) > 0 ==> answers_left(answered(s, input)) < answers_left(s),
        answers_left(s) == 0 ==> answered(s, input) == s,
{
    law_proper_kept(s, input);
    assert(s.entries.len() <= MAX_ENTRIES);
}

/// The state of the dialogue after some lines of input.
pub open spec fn after_answers(inputs: Seq<Seq<char>>) -> SetupView
    decreases inputs.len(),
{
    if inputs.len() == 0 {
        first_question()
    } else {
        answered(after_answers(inputs.drop_last()), inputs.last())
    }
}

proof fn lemma_after_answers(inputs: Seq<Seq<char>>)
    ensures
        proper(after_answers(inputs)),
        answers_left(after_answers(inputs)) == 0 || answers_left(after_answers(inputs))
            <= MAX_ANSWERS - inputs.len(),
    decreases inputs.len(),
{
    if inputs.len() > 0 {
        let before = after_answers(inputs.drop_last());
        lemma_after_answers(inputs.drop_last());
        law_proper_kept(before, inputs.last());
        law_dialogue_progress(before, inputs.last());
        law_dialogue_progress(after_answers(inputs), inputs.last());
    }
}

/// Every dialogue ends after a limited number of answers, whatever they are.
pub proof fn law_dialogue_ends(inputs: Seq<Seq<char>>)
    requires
        inputs.len() >= MAX_ANSWERS,
    ensures
        after_answers(inputs).question is Accepted || after_answers(inputs).question is Cancelled,
{
    lemma_after_answers(inputs);
    law_dialogue_progress(after_answers(inputs), Seq::<char>::empty());
}

/// The state after so many refused answers in a row.
pub open spec fn refused_times(s: SetupView, n: int) -> SetupView
    decreases n,
{
    if n <= 0 {
        s
    } else {
        refusal(refused_times(s, n - 1))
    }
}

/// No question is put more often in a row than any loop may take rounds: as many refused answers end
/// the dialogue, and fewer do not.
pub proof fn law_refusals_limited(s: SetupView, n: int)
    requires
        s.question is Port || s.question is Hostname,
        s.refused == 0,
        0 <= n <= MAX_LOOP_ITERATIONS,
    ensures
        refused_times(s, n).question == if n < MAX_LOOP_ITERATIONS {
            s.question
        } else {
            Question::Cancelled
        },
        n < MAX_LOOP_ITERATIONS ==> refused_times(s, n).refused == n,
        refused_times(s, n).entries == s.entries,
    decreases n,
{
    if n > 0 {
        law_refusals_limited(s, n - 1);
    }
}

/// When the input is at its end, every further line is empty: the first question is put as often as
/// any loop may take rounds, and then the dialogue is cancelled.
pub proof fn law_end_of_input(inputs: Seq<Seq<char>>)
    requires
        inputs.len() <= MAX_LOOP_ITERATIONS,
        forall|i: int| 0 <= i < inputs.len() ==> (#[trigger] inputs[i]).len() == 0,
    ensures
        after_answers(inputs).question == if inputs.len() < MAX_LOOP_ITERATIONS {
            Question::Port
        } else {
            Question::Cancelled
        },
        after_answers(inputs).entries.len() == 0,
{
    lemma_empty_answers(inputs);
    law_refusals_limited(first_question(), inputs.len() as int);
}

proof fn lemma_empty_answers(inputs: Seq<Seq<char>>)
    requires
        inputs.len() <= MAX_LOOP_ITERATIONS,
        forall|i: int| 0 <= i < inputs.len() ==> (#[trigger] inputs[i]).len() == 0,
    ensures
        after_answers(inputs) == refused_times(first_question(), inputs.len() as int),
    decreases inputs.len(),
{
    if inputs.len() > 0 {
        let before = inputs.drop_last();
        assert forall|i: int| 0 <= i < before.len() implies (#[trigger] before[i]).len() == 0 by {
            assert(before[i] == inputs[i]);
        }
        lemma_empty_answers(before);
        law_refusals_limited(first_question(), before.len() as int);
        text_facts::lemma_trimmed_same(inputs.last());
        assert(port_in(text::trimmed(inputs.last())) is None);
    }
}

/// What the dialogue took is what is read from the configuration that is written for it, unless a
/// hostname begins like a comment or holds a line feed.
pub proof fn law_setup_read_back(s: SetupView)
    requires
        proper(s),
        forall|i: int|
            0 <= i < s.entries.len() ==> (#[trigger] s.entries[i]).hostname[0] != '#'
                && !s.entries[i].hostname.contains('\n'),
    ensures
        config::config_entries(config::config_text(s.entries)) == s.entries,
{
    assert forall|i: int| 0 <= i < s.entries.len() implies config::storable(
        #[trigger] s.entries[i],
    ) by {
        assert(taken(s.entries[i]));
    }
    config::law_config_round_trip(s.entries);
}

// ---------------------------------------------------------------------------
// Asking
// ---------------------------------------------------------------------------

/// The answer in a line of input.
pub fn prompt(input: &str) -> (out: String)
    ensures
        out@ == text::trimmed(input@),
{
    let chars = text::chars_of(input);
    text::string_of(text::trim(chars.as_slice()))
}

/// The small letter for a capital letter of the Latin alphabet.
fn to_lower(c: char) -> (out: char)
    ensures
        out == lower(c),
{
    if 'A' <= c && c <= 'Z' {
        let n: u8 = c as u8;
        (n + 32) as char
    } else {
        c
    }
}

/// Whether `s` is the word, in capital or small letters.
fn is_word(s: &[char], word: &str) -> (res: bool)
    ensures
        res == says(s@, word@),
{
    let other = text::chars_of(word);
    if s.len() != other.len() {
        return false;
    }
    let mut i: usize = 0;
    while i < s.len()
        invariant
            i <= s@.len(),
            s@.len() == other@.len(),
            other@ == word@,
            forall|k: int| 0 <= k < i ==> lower(#[trigger] s@[k]) == word@[k],
        decreases s@.len() - i,
    {
        if to_lower(s[i]) != other[i] {
            proof {
                assert(lower(s@[i as int]) != word@[i as int]);
            }
            return false;
        }
        i = i + 1;
    }
    true
}

/// What an answer to a question decides.
pub fn prompt_yn(input: &str, default: bool) -> (res: bool)
    ensures
        res == decision(input@, default),
{
    let chars = text::chars_of(input);
    let answer = text::trim(chars.as_slice());
    if is_word(answer, "y") || is_word(answer, "yes") {
        true
    } else if is_word(answer, "n") || is_word(answer, "no") {
        false
    } else {
        default
    }
}

/// A question that is answered by yes or no, with the proposed answer behind it.
pub fn question_text(msg: &str, default: bool) -> (out: String)
    ensures
        out@ == msg@ + suffix(default),
{
    let mut chars = text::chars_of(msg);
    if default {
        text::append_text(&mut chars, " [Y/n]: ");
    } else {
        text::append_text(&mut chars, " [y/N]: ");
    }
    text::string_of(chars.as_slice())
}

/// Whether an answer is taken for a hostname.
fn accepts_hostname(answer: &[char]) -> (res: bool)
    ensures
        res == is_hostname(answer@),
{
    if answer.len() == 0 {
        return false;
    }
    let mut total: usize = 0;
    let mut i: usize = 0;
    proof {
        assert(answer@.take(0) =~= Seq::<char>::empty());
    }
    while i < answer.len()
        invariant
            i <= answer@.len(),
            total == size(answer@.take(i as int)),
            total < HOSTNAME_LIMIT,
            forall|k: int| 0 <= k < i ==> #[trigger] answer@[k] != ' ',
        decreases answer@.len() - i,
    {
        let c = answer[i];
        proof {
            let part = answer@.take(i + 1);
            assert(part.drop_last() =~= answer@.take(i as int));
            assert(part.last() == c);
        }
        if c == ' ' {
            proof {
                assert(answer@.contains(answer@[i as int]));
            }
            return false;
        }
        let n: u32 = c as u32;
        let more: usize = if n < 0x80 {
            1
        } else if n < 0x800 {
            2
        } else if n < 0x10000 {
            3
        } else {
            4
        };
        total = total + more;
        i = i + 1;
        if total >= HOSTNAME_LIMIT {
            proof {
                lemma_size_grows(answer@, i as int);
            }
            return false;
        }
    }
    proof {
        assert(answer@.take(i as int) =~= answer@);
    }
    true
}

/// A beginning takes no more bytes than the whole.
proof fn lemma_size_grows(s: Seq<char>, n: int)
    requires
        0 <= n <= s.len(),
    ensures
        size(s.take(n)) <= size(s),
    decreases s.len(),
{
    if n == s.len() {
        assert(s.take(n) =~= s);
    } else {
        lemma_size_grows(s.drop_last(), n);
        assert(s.drop_last().take(n) =~= s.take(n));
    }
}

/// Begins the dialogue, which is of no use without the firewall command.
pub fn start_setup(iptables_found: bool) -> (out: Option<Setup>)
    ensures
        out is Some == iptables_found,
        out matches Some(s) ==> s@ == first_question() && proper(s@),
{
    if iptables_found {
        let s = Setup { question: Question::Port, entries: Vec::new(), refused: 0 };
        proof {
            assert(s@ =~= first_question());
        }
        Some(s)
    } else {
        None
    }
}

/// Refuses an answer.
fn refuse(s: &mut Setup)
    ensures
        final(s)@ == refusal(old(s)@),
{
    if s.refused < MAX_LOOP_ITERATIONS - 1 {
        s.refused = s.refused + 1;
    } else {
        s.question = Question::Cancelled;
    }
}

/// Goes on with the dialogue after a line of input.
pub fn interactive_setup(s: &mut Setup, input: &str)
    ensures
        final(s)@ == answered(old(s)@, input@),
        proper(old(s)@) ==> proper(final(s)@),
{
    proof {
        if proper(s@) {
            law_proper_kept(s@, input@);
        }
    }
    let chars = text::chars_of(input);
    let answer = text::trim(chars.as_slice());
    match s.question {
        Question::Port => {
            match addr::parse_u16(answer) {
                Some(port) => {
                    if port > 0 {
                        s.question = Question::Hostname(port);
                        s.refused = 0;
                    } else {
                        refuse(s);
                    }
                },
                None => refuse(s),
            }
        },
        Question::Hostname(port) => {
            if accepts_hostname(answer) {
                let ghost before = s.entries@;
                s.entries.push(DdnsEntry { hostname: text::string_of(answer), port });
                s.question = Question::Another;
                s.refused = 0;
                proof {
                    assert(config::entry_views(s.entries@) =~= config::entry_views(before).push(
                        EntryView { hostname: answer@, port },
                    ));
                }
            } else {
                refuse(s);
            }
        },
        Question::Another => {
            if !prompt_yn(input, false) {
                s.question = Question::Install(false);
            } else if s.entries.len() < MAX_ENTRIES {
                s.question = Question::Port;
            } else {
                s.question = Question::Install(true);
            }
        },
        Question::Install(_) => {
            if prompt_yn(input, true) {
                s.question = Question::Accepted;
            } else {
                s.question = Question::Cancelled;
            }
        },
        Question::Accepted => {},
        Question::Cancelled => {},
    }
    proof {
        assert(s@ =~= answered(old(s)@, input@));
    }
}

} // verus!
