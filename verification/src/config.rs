//! The configuration file: one `hostname:port` per line.

use crate::addr;
use crate::lists;
use crate::text;
use crate::text_facts;
use vstd::prelude::*;
use vstd::slice::slice_subrange;

verus! {

/// How many entries a configuration may hold.
pub const MAX_ENTRIES: usize = 100;

/// How many rounds any loop over outside data may take.
pub const MAX_LOOP_ITERATIONS: usize = 200;

/// A host whose address is admitted to a port.
pub struct DdnsEntry {
    pub hostname: String,
    pub port: u16,
}

/// What an entry says.
#[verifier::ext_equal]
pub struct EntryView {
    pub hostname: Seq<char>,
    pub port: u16,
}

impl View for DdnsEntry {
    type V = EntryView;

    open spec fn view(&self) -> EntryView {
        EntryView { hostname: self.hostname@, port: self.port }
    }
}

/// Why the end of a configuration was not read.
#[derive(Clone, Copy, Debug, PartialEq, Eq, Structural)]
pub enum Truncation {
    /// Everything was read.
    Nothing,
    /// There are too many lines.
    Lines,
    /// There are too many entries.
    Entries,
}

// ---------------------------------------------------------------------------
// What a configuration means
// ---------------------------------------------------------------------------

/// What the entries of a list say.
pub open spec fn entry_views(list: Seq<DdnsEntry>) -> Seq<EntryView> {
    list.map_values(|e: DdnsEntry| e@)
}

/// The entry that a line denotes. Empty lines and lines that begin with `#` denote none; in the
/// others the last colon parts the hostname from the port, and neither may be missing or zero.
pub open spec fn entry_of(line: Seq<char>) -> Option<EntryView> {
    let t = text::trimmed(line);
    let colon = text::last_position(t, ':');
    if t.len() == 0 || t[0] == '#' || colon < 0 {
        None
    } else {
        let hostname = text::trimmed(t.take(colon));
        match addr::u16_of(text::trimmed(t.skip(colon + 1))) {
            Some(port) => if hostname.len() > 0 && port > 0 {
                Some(EntryView { hostname, port })
            } else {
                None
            },
            None => None,
        }
    }
}

/// The entries that lines denote, in order.
pub open spec fn entries_in(lines: Seq<Seq<char>>) -> Seq<EntryView> {
    lines.filter_map(|line: Seq<char>| entry_of(line))
}

/// The entries of a configuration: of the first lines only, and no more than the limit.
pub open spec fn config_entries(content: Seq<char>) -> Seq<EntryView> {
    lists::at_most(
        entries_in(lists::at_most(text::lines_of(content), MAX_LOOP_ITERATIONS as nat)),
        MAX_ENTRIES as nat,
    )
}

/// Why the end of a configuration is not read: a line stands behind the last admissible entry, or
/// behind the last admissible line.
pub open spec fn config_truncation(content: Seq<char>) -> Truncation {
    let lines = text::lines_of(content);
    let read = lists::at_most(lines, MAX_LOOP_ITERATIONS as nat);
    if read.len() > 0 && entries_in(read.drop_last()).len() >= MAX_ENTRIES {
        Truncation::Entries
    } else if lines.len() > MAX_LOOP_ITERATIONS {
        Truncation::Lines
    } else {
        Truncation::Nothing
    }
}

/// The line that denotes an entry.
pub open spec fn entry_line(entry: EntryView) -> Seq<char> {
    entry.hostname + seq![':'] + addr::decimal(entry.port as nat)
}

/// The lines at the head of a new configuration.
pub open spec fn config_header() -> Seq<Seq<char>> {
    seq!["# DDNS Firewall Configuration"@, "# Format: hostname:port"@, Seq::<char>::empty()]
}

/// The text of a new configuration.
pub open spec fn config_text(entries: Seq<EntryView>) -> Seq<char> {
    text::unlines(config_header() + entries.map_values(|e: EntryView| entry_line(e)))
}

/// An entry that its line denotes: the hostname is not empty, has no white space at its ends and
/// no line feed in it, and does not begin like a comment; the port is not zero.
pub open spec fn storable(entry: EntryView) -> bool {
    &&& entry.hostname.len() > 0
    &&& text::trimmed(entry.hostname) == entry.hostname
    &&& !entry.hostname.contains('\n')
    &&& entry.hostname[0] != '#'
    &&& entry.port > 0
}

// ---------------------------------------------------------------------------
// Facts
// ---------------------------------------------------------------------------

/// Reading one line more.
pub proof fn lemma_entries_step(lines: Seq<Seq<char>>, i: int)
    requires
        0 <= i < lines.len(),
    ensures
        entries_in(lines.take(i + 1)) == match entry_of(lines[i]) {
            Some(entry) => entries_in(lines.take(i)).push(entry),
            None => entries_in(lines.take(i)),
        },
        entries_in(lines.take(0)) == Seq::<EntryView>::empty(),
{
    let part = lines.take(i + 1);
    assert(part.drop_last() =~= lines.take(i));
    assert(part.last() == lines[i]);
    let f = |line: Seq<char>| entry_of(line);
    match entry_of(lines[i]) {
        Some(entry) => {
            assert(lines.take(i).filter_map(f) + seq![entry] =~= lines.take(i).filter_map(f).push(
                entry,
            ));
        },
        None => {},
    }
}

/// More lines give no fewer entries, and the same ones first.
proof fn lemma_entries_prefix(lines: Seq<Seq<char>>, i: int, j: int)
    requires
        0 <= i <= j <= lines.len(),
    ensures
        entries_in(lines.take(i)).len() <= entries_in(lines.take(j)).len(),
        entries_in(lines.take(j)).take(entries_in(lines.take(i)).len() as int) == entries_in(
            lines.take(i),
        ),
    decreases j,
{
    let part = entries_in(lines.take(i));
    if i == j {
        assert(part.take(part.len() as int) =~= part);
    } else {
        lemma_entries_prefix(lines, i, j - 1);
        lemma_entries_step(lines, j - 1);
        assert(entries_in(lines.take(j)).take(part.len() as int) =~= entries_in(
            lines.take(j - 1),
        ).take(part.len() as int));
    }
}

/// The line of a storable entry denotes that entry.
pub proof fn lemma_entry_line(entry: EntryView)
    requires
        storable(entry),
    ensures
        entry_of(entry_line(entry)) == Some(entry),
        !entry_line(entry).contains('\n'),
        text::without_cr(entry_line(entry)) == entry_line(entry),
{
    let left = entry.hostname;
    let right = addr::decimal(entry.port as nat);
    let line = entry_line(entry);
    addr::lemma_decimal_digits(entry.port as nat);
    addr::lemma_digits_plain(right);
    assert(line.last() == right[right.len() - 1]);
    assert(line[0] == left[0]);
    text_facts::lemma_trimmed_ends(left);
    text_facts::lemma_trimmed_same(line);
    text_facts::lemma_last_position(left, ':', right);
    assert(line.take(left.len() as int) =~= left);
    assert(line.skip((left.len() + 1) as int) =~= right);
    assert(addr::is_digit(right[0]));
    text_facts::lemma_trimmed_same(right);
    addr::lemma_u16_decimal(entry.port);
    if line.contains('\n') {
        let i = choose|i: int| 0 <= i < line.len() && line[i] == '\n';
        if i < left.len() {
            assert(left[i] == '\n');
            assert(left.contains('\n'));
        } else if i > left.len() {
            assert(right[i - left.len() - 1] == '\n');
        }
    }
}

/// Which entries their lines denote: the hostname is not empty, neither begins nor ends with white
/// space, holds no line feed and does not begin like a comment; the port is not zero.
pub proof fn law_storable(entry: EntryView)
    ensures
        storable(entry) <==> entry.hostname.len() > 0 && text_facts::tight(entry.hostname)
            && !entry.hostname.contains('\n') && entry.hostname[0] != '#' && entry.port > 0,
{
    text_facts::lemma_trimmed_ends(entry.hostname);
    if text_facts::tight(entry.hostname) {
        text_facts::lemma_trimmed_same(entry.hostname);
    }
}

/// Reading gives back what was written: the configuration that is written for a list of entries
/// holds exactly these entries, in the same order, and is read to its end.
pub proof fn law_config_round_trip(entries: Seq<EntryView>)
    requires
        entries.len() <= MAX_ENTRIES,
        forall|i: int| 0 <= i < entries.len() ==> storable(#[trigger] entries[i]),
    ensures
        config_entries(config_text(entries)) == entries,
        config_truncation(config_text(entries)) == Truncation::Nothing,
{
    let tail = entries.map_values(|e: EntryView| entry_line(e));
    let lines = config_header() + tail;
    reveal_strlit("# DDNS Firewall Configuration");
    reveal_strlit("# Format: hostname:port");
    assert forall|i: int| 0 <= i < lines.len() implies text::unbroken(
        #[trigger] lines[i],
        Some('\n'),
    ) && text::without_cr(lines[i]) == lines[i] by {
        if i >= 3 {
            assert(lines[i] == entry_line(entries[i - 3]));
            lemma_entry_line(entries[i - 3]);
            let line = lines[i];
            assert forall|k: int| 0 <= k < line.len() implies !text::separates(
                #[trigger] line[k],
                Some('\n'),
            ) by {
                assert(line.contains(line[k]));
            }
        }
    }
    text_facts::lemma_lines_unlines(lines);
    assert(entry_of(lines[0]) is None && entry_of(lines[1]) is None && entry_of(lines[2]) is None)
        by {
        text_facts::lemma_trimmed_same(lines[0]);
        text_facts::lemma_trimmed_same(lines[1]);
        text_facts::lemma_trimmed_same(lines[2]);
    }
    lemma_entries_step(lines, 0);
    lemma_entries_step(lines, 1);
    lemma_entries_step(lines, 2);
    lemma_entries_after_header(lines, entries, entries.len() as int);
    assert(lines.take(lines.len() as int) =~= lines);
    assert(entries.take(entries.len() as int) =~= entries);
    if entries.len() > 0 {
        lemma_entries_after_header(lines, entries, entries.len() - 1);
        assert(lines.drop_last() =~= lines.take(3 + (entries.len() - 1)));
    } else {
        assert(lines.drop_last() =~= lines.take(2));
    }
}

proof fn lemma_entries_after_header(lines: Seq<Seq<char>>, entries: Seq<EntryView>, n: int)
    requires
        0 <= n <= entries.len(),
        lines.len() == 3 + entries.len(),
        entries_in(lines.take(3)) == Seq::<EntryView>::empty(),
        forall|i: int| 0 <= i < entries.len() ==> storable(#[trigger] entries[i]),
        forall|i: int| 0 <= i < entries.len() ==> lines[3 + i] == entry_line(#[trigger] entries[i]),
    ensures
        entries_in(lines.take(3 + n)) == entries.take(n),
    decreases n,
{
    if n > 0 {
        lemma_entries_after_header(lines, entries, n - 1);
        lemma_entries_step(lines, 3 + n - 1);
        lemma_entry_line(entries[n - 1]);
        assert(entries.take(n - 1).push(entries[n - 1]) =~= entries.take(n));
    } else {
        assert(entries.take(0) =~= Seq::<EntryView>::empty());
    }
}

/// An entry is a hostname and a port with a colon between them, however the port is written and
/// whatever white space stands around either. The hostname may hold anything else, colons too, as
/// long as it does not begin like a comment.
pub proof fn law_entry_read(
    a: Seq<char>,
    hostname: Seq<char>,
    b: Seq<char>,
    c: Seq<char>,
    t: Seq<char>,
    port: u16,
    d: Seq<char>,
)
    requires
        text_facts::blank(a),
        text_facts::blank(b),
        text_facts::blank(c),
        text_facts::blank(d),
        hostname.len() > 0,
        text_facts::tight(hostname),
        hostname[0] != '#',
        addr::u16_of(t) == Some(port),
        port > 0,
    ensures
        entry_of(a + (hostname + b + seq![':'] + (c + t)) + d) == Some(
            EntryView { hostname, port },
        ),
{
    let left = hostname + b;
    let right = c + t;
    let core = left + seq![':'] + right;
    let nothing = Seq::<char>::empty();
    addr::lemma_number_plain(t, port);
    assert(core[0] == hostname[0]);
    assert(core[core.len() - 1] == t[t.len() - 1]);
    text_facts::law_trimmed(a, core, d);
    assert(!right.contains(':')) by {
        if right.contains(':') {
            let i = choose|i: int| 0 <= i < right.len() && right[i] == ':';
            if i < c.len() {
                assert(text::is_space(c[i]));
            } else {
                assert(t.contains(t[i - c.len()]));
            }
        }
    }
    text_facts::lemma_last_position(left, ':', right);
    assert(core.take(left.len() as int) =~= left);
    assert(core.skip(left.len() as int + 1) =~= right);
    text_facts::law_trimmed(nothing, hostname, b);
    assert(nothing + hostname + b =~= left);
    text_facts::law_trimmed(c, t, nothing);
    assert(c + t + nothing =~= right);
}

/// Only such a line denotes an entry: it does not begin like a comment, its last colon has the
/// hostname before it and the port behind it, and neither is missing or zero.
pub proof fn law_entry_only(line: Seq<char>, entry: EntryView)
    requires
        entry_of(line) == Some(entry),
    ensures
        entry.hostname.len() > 0,
        entry.port > 0,
        text::trimmed(line)[0] != '#',
        exists|left: Seq<char>, right: Seq<char>|
            text::trimmed(line) == #[trigger] (left + seq![':'] + right) && text::trimmed(left)
                == entry.hostname && addr::u16_of(text::trimmed(right)) == Some(entry.port)
                && !right.contains(':'),
{
    let core = text::trimmed(line);
    let colon = text::last_position(core, ':');
    let left = core.take(colon);
    let right = core.skip(colon + 1);
    text_facts::law_last_position(core, ':');
    assert(core =~= left + seq![':'] + right);
    if right.contains(':') {
        let i = choose|i: int| 0 <= i < right.len() && right[i] == ':';
        assert(core[colon + 1 + i] == ':');
    }
}

/// A line whose first character that is not white space is `#` denotes no entry, whatever follows it.
pub proof fn law_comment(a: Seq<char>, rest: Seq<char>)
    requires
        text_facts::blank(a),
    ensures
        entry_of(a + seq!['#'] + rest) is None,
{
    let line = a + seq!['#'] + rest;
    if let Some(entry) = entry_of(line) {
        law_entry_only(line, entry);
        text_facts::law_trimmed_part(line);
        let core = text::trimmed(line);
        let (x, y) = choose|x: Seq<char>, y: Seq<char>|
            text_facts::blank(x) && text_facts::blank(y) && line == #[trigger] (x + core + y);
        assert(line[x.len() as int] == core[0]);
        if x.len() > a.len() {
            assert(x[a.len() as int] == line[a.len() as int]);
            assert(text::is_space(x[a.len() as int]));
            assert(line[a.len() as int] == '#');
        } else if x.len() < a.len() {
            assert(a[x.len() as int] == line[x.len() as int]);
            assert(text::is_space(a[x.len() as int]));
        }
        assert(line[a.len() as int] == '#');
    }
}

/// A line that is blank, or that lacks a colon, denotes no entry.
pub proof fn law_no_entry(line: Seq<char>)
    requires
        text_facts::blank(line) || !line.contains(':'),
    ensures
        entry_of(line) is None,
{
    if let Some(entry) = entry_of(line) {
        law_entry_only(line, entry);
        text_facts::law_trimmed_part(line);
        let core = text::trimmed(line);
        let (x, y) = choose|x: Seq<char>, y: Seq<char>|
            text_facts::blank(x) && text_facts::blank(y) && line == #[trigger] (x + core + y);
        let (left, right) = choose|left: Seq<char>, right: Seq<char>|
            core == #[trigger] (left + seq![':'] + right) && text::trimmed(left)
                == entry.hostname && addr::u16_of(text::trimmed(right)) == Some(entry.port)
                && !right.contains(':');
        let k = (x.len() + left.len()) as int;
        assert(core[left.len() as int] == ':');
        assert(line[k] == ':');
        assert(line.contains(line[k]));
    }
}

/// The lines of two texts one after the other, when the first ends a line.
proof fn lemma_lines_after(a: Seq<char>, b: Seq<char>)
    requires
        a.len() == 0 || a.last() == '\n',
    ensures
        text::lines_of(a + b) == text::lines_of(a) + text::lines_of(b),
{
    if a.len() == 0 {
        text_facts::law_one_line(a);
        assert(a =~= Seq::<char>::empty());
        assert(a + b =~= b);
        assert(text::lines_of(a) + text::lines_of(b) =~= text::lines_of(b));
    } else {
        let front = a.drop_last();
        assert(a =~= front + seq!['\n']);
        assert(a + b =~= front + seq!['\n'] + b);
        text_facts::law_lines_cut(front, b);
    }
}

/// The entries of two lists of lines one after the other.
proof fn lemma_entries_added(s: Seq<Seq<char>>, t: Seq<Seq<char>>)
    ensures
        entries_in(s + t) == entries_in(s) + entries_in(t),
    decreases t.len(),
{
    let all = s + t;
    let f = |line: Seq<char>| entry_of(line);
    if t.len() == 0 {
        assert(all =~= s);
        assert(entries_in(s) + entries_in(t) =~= entries_in(s));
    } else {
        lemma_entries_added(s, t.drop_last());
        assert(all.drop_last() =~= s + t.drop_last());
        assert(all.last() == t.last());
        match f(t.last()) {
            Some(entry) => {
                let front = entries_in(s);
                let back = entries_in(t.drop_last());
                assert(front + back + seq![entry] =~= front + (back + seq![entry]));
            },
            None => {},
        }
    }
}

/// The entries of two texts one after the other, the first of which ends a line, are those of the
/// first and then those of the second, as long as there are no more than 200 lines and 100 entries.
pub proof fn law_config_parts(a: Seq<char>, b: Seq<char>)
    requires
        a.len() == 0 || a.last() == '\n',
        text::lines_of(a).len() + text::lines_of(b).len() <= 200,
        config_entries(a).len() + config_entries(b).len() <= 100,
    ensures
        config_entries(a + b) == config_entries(a) + config_entries(b),
{
    let p = entries_in(text::lines_of(a));
    let q = entries_in(text::lines_of(b));
    lemma_lines_after(a, b);
    lemma_entries_added(text::lines_of(a), text::lines_of(b));
    if p.len() > 100 {
        assert(q =~= Seq::<EntryView>::empty());
        assert(p + q =~= p);
        assert(config_entries(a) + config_entries(b) =~= config_entries(a));
    } else if p.len() == 0 {
        assert(p + q =~= q);
        assert(config_entries(a) + config_entries(b) =~= config_entries(b));
    }
}

/// A line by itself gives the entry that it denotes, or none.
pub proof fn law_config_line(line: Seq<char>)
    requires
        !line.contains('\n'),
    ensures
        config_entries(line + seq!['\n']) == match entry_of(line) {
            Some(entry) => seq![entry],
            None => Seq::<EntryView>::empty(),
        },
{
    text_facts::law_one_line(line);
    lemma_entry_without_cr(line);
    let one = text::without_cr(line);
    let f = |l: Seq<char>| entry_of(l);
    assert(text::lines_of(line + seq!['\n']) =~= seq![one]);
    assert(seq![one].drop_last() =~= Seq::<Seq<char>>::empty());
    assert(Seq::<Seq<char>>::empty().filter_map(f) =~= Seq::<EntryView>::empty());
    assert(entries_in(seq![one]) =~= match entry_of(one) {
        Some(entry) => seq![entry],
        None => Seq::<EntryView>::empty(),
    });
}

/// A carriage return at the end of a line is white space like any other.
proof fn lemma_entry_without_cr(line: Seq<char>)
    ensures
        entry_of(text::without_cr(line)) == entry_of(line),
{
    if line.len() > 0 && line.last() == '\r' {
        let front = line.drop_last();
        text_facts::law_trimmed_part(front);
        let core = text::trimmed(front);
        let (x, y) = choose|x: Seq<char>, y: Seq<char>|
            text_facts::blank(x) && text_facts::blank(y) && front == #[trigger] (x + core + y);
        let z = y.push('\r');
        assert(text_facts::blank(z)) by {
            assert forall|i: int| 0 <= i < z.len() implies text::is_space(#[trigger] z[i]) by {
                if i < y.len() {
                    assert(z[i] == y[i]);
                }
            }
        }
        assert(line =~= front.push('\r'));
        assert(x + core + z =~= (x + core + y).push('\r'));
        text_facts::law_trimmed(x, core, z);
    }
}

/// A line that denotes no entry, a comment say, can be put in anywhere without changing what is read,
/// as long as there are no more than 200 lines.
pub proof fn law_line_without_entry(a: Seq<char>, line: Seq<char>, b: Seq<char>)
    requires
        a.len() == 0 || a.last() == '\n',
        !line.contains('\n'),
        entry_of(line) is None,
        text::lines_of(a + b).len() < 200,
    ensures
        config_entries(a + (line + seq!['\n']) + b) == config_entries(a + b),
{
    let mid = line + seq!['\n'];
    let one = text::without_cr(line);
    lemma_lines_after(a, b);
    lemma_lines_after(a, mid + b);
    lemma_lines_after(mid, b);
    text_facts::law_one_line(line);
    lemma_entry_without_cr(line);
    assert(a + mid + b =~= a + (mid + b));
    let p = text::lines_of(a);
    let q = text::lines_of(b);
    assert(text::lines_of(mid) =~= seq![one]);
    lemma_entries_added(p, q);
    lemma_entries_added(p, seq![one] + q);
    lemma_entries_added(seq![one], q);
    let f = |l: Seq<char>| entry_of(l);
    assert(seq![one].drop_last() =~= Seq::<Seq<char>>::empty());
    assert(Seq::<Seq<char>>::empty().filter_map(f) =~= Seq::<EntryView>::empty());
    assert(entries_in(seq![one]) =~= Seq::<EntryView>::empty());
    assert(entries_in(seq![one]) + entries_in(q) =~= entries_in(q));
}

/// A comment can be put in anywhere without changing what is read, as long as there are no more than
/// 200 lines.
pub proof fn law_comment_put_in(a: Seq<char>, blank: Seq<char>, rest: Seq<char>, b: Seq<char>)
    requires
        a.len() == 0 || a.last() == '\n',
        text_facts::blank(blank),
        !blank.contains('\n'),
        !rest.contains('\n'),
        text::lines_of(a + b).len() < 200,
    ensures
        config_entries(a + (blank + seq!['#'] + rest + seq!['\n']) + b) == config_entries(a + b),
{
    let line = blank + seq!['#'] + rest;
    law_comment(blank, rest);
    assert(!line.contains('\n')) by {
        if line.contains('\n') {
            let i = choose|i: int| 0 <= i < line.len() && line[i] == '\n';
            if i < blank.len() {
                assert(blank.contains(blank[i]));
            } else if i > blank.len() {
                assert(rest.contains(rest[i - blank.len() - 1]));
            }
        }
    }
    law_line_without_entry(a, line, b);
}

/// Nothing behind the first 200 lines is read, nor behind the line of entry 100; before that nothing
/// is left out.
pub proof fn law_config_limits(a: Seq<char>, b: Seq<char>)
    requires
        a.len() == 0 || a.last() == '\n',
    ensures
        config_entries(a).len() <= 100,
        text::lines_of(a).len() >= 200 ==> config_entries(a + b) == config_entries(a),
        config_entries(a).len() == 100 ==> config_entries(a + b) == config_entries(a),
{
    let p = text::lines_of(a);
    let q = text::lines_of(b);
    lemma_lines_after(a, b);
    let all = p + q;
    let read = lists::at_most(p, 200);
    let more = lists::at_most(all, 200);
    if p.len() >= 200 {
        assert(more =~= read);
    } else {
        let rest = more.skip(p.len() as int);
        assert(more =~= p + rest);
        lemma_entries_added(p, rest);
        if config_entries(a).len() == 100 {
            assert(config_entries(a + b) =~= config_entries(a));
        }
    }
}

/// When a configuration is said to be read to its end, every line counted.
pub proof fn law_truncation(content: Seq<char>)
    ensures
        config_truncation(content) == Truncation::Nothing ==> config_entries(content)
            == entries_in(text::lines_of(content)),
        text::lines_of(content).len() > 200 ==> config_truncation(content) != Truncation::Nothing,
        text::lines_of(content).len() <= 200 ==> config_truncation(content) != Truncation::Lines,
        entries_in(text::lines_of(content)).len() < 100 ==> config_truncation(content)
            != Truncation::Entries,
        entries_in(text::lines_of(content)).len() > 100 ==> config_truncation(content)
            != Truncation::Nothing,
{
    let lines = text::lines_of(content);
    let read = lists::at_most(lines, 200);
    assert(lines.take(lines.len() as int) =~= lines);
    if read.len() > 0 {
        let n = read.len() as int;
        assert(read =~= lines.take(n));
        assert(read.drop_last() =~= lines.take(n - 1));
        lemma_entries_step(lines, n - 1);
        lemma_entries_prefix(lines, n - 1, lines.len() as int);
    }
}

// ---------------------------------------------------------------------------
// Reading and writing
// ---------------------------------------------------------------------------

/// The entry that a line denotes.
pub fn parse_line(line: &[char]) -> (out: Option<DdnsEntry>)
    ensures
        match out {
            Some(entry) => entry_of(line@) == Some(entry@),
            None => entry_of(line@) is None,
        },
{
    let t = text::trim(line);
    if t.len() == 0 || t[0] == '#' {
        return None;
    }
    let colon: usize = match text::rfind(t, ':') {
        Some(i) => i,
        None => {
            return None;
        },
    };
    let left = slice_subrange(t, 0, colon);
    let right = slice_subrange(t, colon + 1, t.len());
    proof {
        assert(left@ =~= t@.take(colon as int));
        assert(right@ =~= t@.skip(colon + 1));
    }
    let hostname = text::trim(left);
    match addr::parse_u16(text::trim(right)) {
        Some(port) => {
            if hostname.len() > 0 && port > 0 {
                Some(DdnsEntry { hostname: text::string_of(hostname), port })
            } else {
                None
            }
        },
        None => None,
    }
}

/// The entries of a configuration, and whether it was read to its end.
pub fn parse_config(content: &str) -> (out: (Vec<DdnsEntry>, Truncation))
    ensures
        entry_views(out.0@) == config_entries(content@),
        out.1 == config_truncation(content@),
        out.0@.len() <= MAX_ENTRIES,
{
    let chars = text::chars_of(content);
    let lines = text::lines(chars.as_slice());
    let ghost all = text::lines_of(content@);
    let mut entries: Vec<DdnsEntry> = Vec::new();
    let mut i: usize = 0;
    proof {
        assert(text::contents(lines@).len() == lines@.len());
        assert(all.take(0) =~= Seq::<Seq<char>>::empty());
        assert(entry_views(entries@) =~= entries_in(all.take(0)));
    }
    while i < lines.len()
        invariant
            text::contents(lines@) == all,
            all == text::lines_of(content@),
            text::contents(lines@).len() == lines@.len(),
            i <= lines@.len(),
            i <= MAX_LOOP_ITERATIONS,
            entries@.len() <= MAX_ENTRIES,
            entries@.len() <= i,
            entry_views(entries@) == entries_in(all.take(i as int)),
            i > 0 ==> entries_in(all.take(i - 1)).len() < MAX_ENTRIES,
        decreases lines@.len() - i,
    {
        let ghost read = lists::at_most(all, MAX_LOOP_ITERATIONS as nat);
        if i >= MAX_LOOP_ITERATIONS {
            proof {
                assert(read =~= all.take(i as int));
                assert(read.drop_last() =~= all.take(i - 1));
            }
            return (entries, Truncation::Lines);
        }
        if entries.len() >= MAX_ENTRIES {
            proof {
                assert(read.take(i as int) =~= all.take(i as int));
                assert(read.drop_last() =~= read.take(read.len() - 1));
                assert(read.take(read.len() as int) =~= read);
                lemma_entries_prefix(read, i as int, read.len() - 1);
                lemma_entries_prefix(read, i as int, read.len() as int);
                assert(entry_views(entries@).len() == MAX_ENTRIES);
                assert(config_entries(content@) =~= entry_views(entries@));
            }
            return (entries, Truncation::Entries);
        }
        proof {
            lemma_entries_step(all, i as int);
            assert(lines@[i as int]@ == text::contents(lines@)[i as int]);
            assert(entry_views(entries@).len() == entries@.len());
        }
        let ghost before = entry_views(entries@);
        match parse_line(lines[i].as_slice()) {
            Some(entry) => {
                entries.push(entry);
                proof {
                    assert(entry_views(entries@) =~= before.push(entry@));
                }
            },
            None => {},
        }
        i = i + 1;
    }
    proof {
        let read = lists::at_most(all, MAX_LOOP_ITERATIONS as nat);
        assert(all.take(i as int) =~= all);
        assert(read == all);
        if read.len() > 0 {
            assert(read.drop_last() =~= all.take(i - 1));
        }
        assert(entry_views(entries@).len() == entries@.len());
    }
    (entries, Truncation::Nothing)
}

/// The text of a new configuration that holds `entries`.
pub fn render_config(entries: &Vec<DdnsEntry>) -> (out: String)
    ensures
        out@ == config_text(entry_views(entries@)),
{
    let mut chars: Vec<char> = Vec::new();
    text::append_text(&mut chars, "# DDNS Firewall Configuration");
    chars.push('\n');
    text::append_text(&mut chars, "# Format: hostname:port");
    chars.push('\n');
    chars.push('\n');
    let ghost tail = entry_views(entries@).map_values(|e: EntryView| entry_line(e));
    let ghost all = config_header() + tail;
    proof {
        let h = config_header();
        assert(all.take(3) =~= h);
        text_facts::lemma_three_lines(h);
        assert(chars@ =~= text::unlines(h));
    }
    for i in 0..entries.len()
        invariant
            tail == entry_views(entries@).map_values(|e: EntryView| entry_line(e)),
            all == config_header() + tail,
            chars@ == text::unlines(all.take(3 + i)),
    {
        let name = text::chars_of(entries[i].hostname.as_str());
        text::append(&mut chars, name.as_slice());
        chars.push(':');
        addr::append_decimal(&mut chars, entries[i].port);
        chars.push('\n');
        proof {
            let part = all.take(3 + i + 1);
            assert(part.drop_last() =~= all.take(3 + i));
            assert(part.last() == tail[i as int]);
            assert(tail[i as int] == entry_line(entries@[i as int]@));
            assert(chars@ =~= text::unlines(part));
        }
    }
    proof {
        assert(all.take(all.len() as int) =~= all);
    }
    text::string_of(chars.as_slice())
}

} // verus!
