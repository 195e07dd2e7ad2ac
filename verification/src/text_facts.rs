//! Facts about the text operations: what splitting and joining give back of each other.

use crate::text;
use vstd::prelude::*;

verus! {

/// There is always a piece.
pub proof fn lemma_pieces_some(s: Seq<char>, sep: Option<char>)
    ensures
        text::pieces(s, sep).len() > 0,
    decreases s.len(),
{
    if s.len() > 0 {
        lemma_pieces_some(s.drop_last(), sep);
    }
}

/// Text without separators extends the last piece.
pub proof fn lemma_pieces_extended(a: Seq<char>, b: Seq<char>, sep: Option<char>)
    requires
        text::unbroken(b, sep),
    ensures
        text::pieces(a + b, sep) == text::pieces(a, sep).drop_last().push(
            text::pieces(a, sep).last() + b,
        ),
    decreases b.len(),
{
    lemma_pieces_some(a, sep);
    let whole = text::pieces(a, sep);
    if b.len() == 0 {
        assert(a + b =~= a);
        assert(whole.last() + b =~= whole.last());
        assert(whole.drop_last().push(whole.last()) =~= whole);
    } else {
        let shorter = b.drop_last();
        assert forall|i: int| 0 <= i < shorter.len() implies !text::separates(
            #[trigger] shorter[i],
            sep,
        ) by {
            assert(shorter[i] == b[i]);
        }
        lemma_pieces_extended(a, shorter, sep);
        assert((a + b).drop_last() =~= a + shorter);
        assert((a + b).last() == b[b.len() - 1]);
        let before = whole.drop_last().push(whole.last() + shorter);
        assert(before.drop_last() =~= whole.drop_last());
        assert((whole.last() + shorter).push(b.last()) =~= whole.last() + b);
    }
}

/// Cutting at one separator cuts the text in two.
pub proof fn lemma_pieces_cut(a: Seq<char>, c: char, b: Seq<char>, sep: Option<char>)
    requires
        text::separates(c, sep),
    ensures
        text::pieces(a + seq![c] + b, sep) == text::pieces(a, sep) + text::pieces(b, sep),
    decreases b.len(),
{
    let all = a + seq![c] + b;
    lemma_pieces_some(b, sep);
    if b.len() == 0 {
        assert(all.drop_last() =~= a);
        assert(all.last() == c);
        assert(text::pieces(all, sep) =~= text::pieces(a, sep) + text::pieces(b, sep));
    } else {
        let shorter = b.drop_last();
        lemma_pieces_cut(a, c, shorter, sep);
        lemma_pieces_some(shorter, sep);
        assert(all.drop_last() =~= a + seq![c] + shorter);
        assert(all.last() == b.last());
        let before = text::pieces(a, sep) + text::pieces(shorter, sep);
        assert(before.last() == text::pieces(shorter, sep).last());
        assert(before.drop_last() =~= text::pieces(a, sep) + text::pieces(shorter, sep).drop_last());
        assert(text::pieces(all, sep) =~= text::pieces(a, sep) + text::pieces(b, sep));
    }
}

/// Text without separators is its own only piece.
pub proof fn lemma_pieces_whole(s: Seq<char>, sep: Option<char>)
    requires
        text::unbroken(s, sep),
    ensures
        text::pieces(s, sep) == seq![s],
{
    let nothing = Seq::<char>::empty();
    lemma_pieces_extended(nothing, s, sep);
    assert(nothing + s =~= s);
    assert(text::pieces(nothing, sep) =~= seq![nothing]);
    assert(seq![nothing].drop_last().push(s) =~= seq![s]);
}

/// Splitting gives back what was joined, when no part holds a separator.
pub proof fn lemma_pieces_joined(parts: Seq<Seq<char>>, c: char, sep: Option<char>)
    requires
        parts.len() > 0,
        text::separates(c, sep),
        forall|i: int| 0 <= i < parts.len() ==> text::unbroken(#[trigger] parts[i], sep),
    ensures
        text::pieces(text::joined(parts, c), sep) == parts,
    decreases parts.len(),
{
    if parts.len() == 1 {
        lemma_pieces_whole(parts[0], sep);
        assert(seq![parts[0]] =~= parts);
    } else {
        let head = parts.drop_last();
        assert forall|i: int| 0 <= i < head.len() implies text::unbroken(
            #[trigger] head[i],
            sep,
        ) by {
            assert(head[i] == parts[i]);
        }
        lemma_pieces_joined(head, c, sep);
        lemma_pieces_cut(text::joined(head, c), c, parts.last(), sep);
        lemma_pieces_whole(parts.last(), sep);
        assert(head + seq![parts.last()] =~= parts);
    }
}

/// Joining gives back what was split.
pub proof fn lemma_joined_pieces(s: Seq<char>, c: char)
    ensures
        text::joined(text::pieces(s, Some(c)), c) == s,
    decreases s.len(),
{
    let sep = Some(c);
    if s.len() == 0 {
        assert(text::joined(text::pieces(s, sep), c) =~= s);
    } else {
        let shorter = s.drop_last();
        let before = text::pieces(shorter, sep);
        lemma_joined_pieces(shorter, c);
        lemma_pieces_some(shorter, sep);
        let now = text::pieces(s, sep);
        if s.last() == c {
            assert(now.drop_last() =~= before);
            assert(text::joined(now, c) =~= s);
        } else {
            assert(now.drop_last() =~= before.drop_last());
            if before.len() == 1 {
                assert(text::joined(now, c) =~= s);
            } else {
                assert(text::joined(now, c) =~= text::joined(before, c).push(s.last()));
                assert(text::joined(now, c) =~= s);
            }
        }
    }
}

/// Cutting lines that were written one after the other at the line feeds.
proof fn lemma_pieces_unlines(parts: Seq<Seq<char>>)
    requires
        forall|i: int| 0 <= i < parts.len() ==> text::unbroken(#[trigger] parts[i], Some('\n')),
    ensures
        text::pieces(text::unlines(parts), Some('\n')) == parts.push(Seq::<char>::empty()),
    decreases parts.len(),
{
    let sep = Some('\n');
    if parts.len() == 0 {
        assert(text::pieces(text::unlines(parts), sep) =~= parts.push(Seq::<char>::empty()));
    } else {
        let head = parts.drop_last();
        assert forall|i: int| 0 <= i < head.len() implies text::unbroken(
            #[trigger] head[i],
            sep,
        ) by {
            assert(head[i] == parts[i]);
        }
        lemma_pieces_unlines(head);
        let before = text::unlines(head);
        lemma_pieces_extended(before, parts.last(), sep);
        let all = text::unlines(parts);
        assert(all.drop_last() =~= before + parts.last());
        assert(all.last() == '\n');
        let cut = head.push(Seq::<char>::empty());
        assert(cut.drop_last() =~= head);
        assert(cut.last() + parts.last() =~= parts.last());
        assert(head.push(parts.last()) =~= parts);
    }
}

/// Reading gives back the lines that were written, when no line holds a line feed or ends with
/// a carriage return.
pub proof fn lemma_lines_unlines(parts: Seq<Seq<char>>)
    requires
        forall|i: int|
            0 <= i < parts.len() ==> text::unbroken(#[trigger] parts[i], Some('\n'))
                && text::without_cr(parts[i]) == parts[i],
    ensures
        text::lines_of(text::unlines(parts)) == parts,
{
    lemma_pieces_unlines(parts);
    let cut = parts.push(Seq::<char>::empty());
    assert(cut.drop_last() =~= parts);
    assert(text::lines_of(text::unlines(parts)) =~= parts);
}

/// Three lines, written one after the other.
pub proof fn lemma_three_lines(l: Seq<Seq<char>>)
    requires
        l.len() == 3,
    ensures
        text::unlines(l) == l[0] + seq!['\n'] + l[1] + seq!['\n'] + l[2] + seq!['\n'],
{
    let two = l.drop_last();
    let one = two.drop_last();
    assert(text::unlines(one.drop_last()) =~= Seq::<char>::empty());
    assert(text::unlines(one) =~= l[0] + seq!['\n']);
    assert(text::unlines(two) =~= l[0] + seq!['\n'] + l[1] + seq!['\n']);
}

/// Splitting at white space gives back words that were joined with a space.
pub proof fn lemma_words_joined(parts: Seq<Seq<char>>)
    requires
        parts.len() > 0,
        forall|i: int|
            0 <= i < parts.len() ==> (#[trigger] parts[i]).len() > 0 && text::space_free(parts[i]),
    ensures
        text::words_of(text::joined(parts, ' ')) == parts,
{
    assert forall|i: int| 0 <= i < parts.len() implies text::unbroken(
        #[trigger] parts[i],
        None,
    ) by {
        let p = parts[i];
        assert forall|k: int| 0 <= k < p.len() implies !text::separates(#[trigger] p[k], None) by {
            assert(!text::is_space(p[k]));
        }
    }
    lemma_pieces_joined(parts, ' ', None);
    lemma_filter_all(parts, |p: Seq<char>| p.len() > 0);
}

/// Filtering keeps everything when everything passes.
pub proof fn lemma_filter_all<A>(s: Seq<A>, keep: spec_fn(A) -> bool)
    requires
        forall|i: int| 0 <= i < s.len() ==> keep(#[trigger] s[i]),
    ensures
        s.filter(keep) == s,
    decreases s.len(),
{
    reveal(Seq::filter);
    if s.len() > 0 {
        let shorter = s.drop_last();
        assert forall|i: int| 0 <= i < shorter.len() implies keep(#[trigger] shorter[i]) by {
            assert(shorter[i] == s[i]);
        }
        lemma_filter_all(shorter, keep);
        assert(keep(s[s.len() - 1]));
        assert(shorter.push(s.last()) =~= s);
    }
}

/// Text that neither begins nor ends with white space is not changed by trimming.
pub proof fn lemma_trimmed_same(s: Seq<char>)
    requires
        s.len() > 0 ==> !text::is_space(s[0]) && !text::is_space(s.last()),
    ensures
        text::trimmed(s) == s,
{
}

/// Trimmed text neither begins nor ends with white space.
pub proof fn lemma_trimmed_ends(s: Seq<char>)
    ensures
        text::trimmed(s).len() > 0 ==> !text::is_space(text::trimmed(s)[0]) && !text::is_space(
            text::trimmed(s).last(),
        ),
{
    lemma_trimmed_start_first(s);
    lemma_trimmed_end_last(text::trimmed_start(s));
}

/// Trimming twice is trimming once.
pub proof fn lemma_trimmed_twice(s: Seq<char>)
    ensures
        text::trimmed(text::trimmed(s)) == text::trimmed(s),
{
    lemma_trimmed_ends(s);
    lemma_trimmed_same(text::trimmed(s));
}

proof fn lemma_trimmed_start_first(s: Seq<char>)
    ensures
        text::trimmed_start(s).len() > 0 ==> !text::is_space(text::trimmed_start(s)[0]),
    decreases s.len(),
{
    if s.len() > 0 && text::is_space(s[0]) {
        lemma_trimmed_start_first(s.drop_first());
    }
}

proof fn lemma_trimmed_end_last(s: Seq<char>)
    ensures
        text::trimmed_end(s).len() > 0 ==> !text::is_space(text::trimmed_end(s).last())
            && text::trimmed_end(s)[0] == s[0],
        text::trimmed_end(s).len() <= s.len(),
    decreases s.len(),
{
    if s.len() > 0 && text::is_space(s.last()) {
        lemma_trimmed_end_last(s.drop_last());
    }
}

/// The last occurrence of a character is the one behind which there is no other.
pub proof fn lemma_last_position(a: Seq<char>, c: char, b: Seq<char>)
    requires
        !b.contains(c),
    ensures
        text::last_position(a + seq![c] + b, c) == a.len(),
    decreases b.len(),
{
    let all = a + seq![c] + b;
    if b.len() > 0 {
        let shorter = b.drop_last();
        assert(!shorter.contains(c)) by {
            if shorter.contains(c) {
                let i = choose|i: int| 0 <= i < shorter.len() && shorter[i] == c;
                assert(b[i] == c);
            }
        }
        assert(b.contains(b[b.len() - 1]));
        assert(all.last() == b.last());
        assert(all.drop_last() =~= a + seq![c] + shorter);
        lemma_last_position(a, c, shorter);
    } else {
        assert(all.last() == c);
    }
}

/// A part that was put into a text occurs in it.
pub proof fn lemma_occurs(a: Seq<char>, part: Seq<char>, b: Seq<char>)
    ensures
        text::occurs(a + part + b, part),
{
    let all = a + part + b;
    assert(all.subrange(a.len() as int, (a.len() + part.len()) as int) =~= part);
    assert(text::occurs_at(all, part, a.len() as int));
}

/// A text that lacks a character of `part` does not hold `part`.
pub proof fn lemma_occurs_not(s: Seq<char>, part: Seq<char>, c: char)
    requires
        part.contains(c),
        !s.contains(c),
    ensures
        !text::occurs(s, part),
{
    if text::occurs(s, part) {
        let i = choose|i: int| text::occurs_at(s, part, i);
        let k = choose|k: int| 0 <= k < part.len() && part[k] == c;
        assert(s.subrange(i, i + part.len())[k] == s[i + k]);
        assert(s.contains(s[i + k]));
    }
}

/// A part of a joined text occurs in it.
pub proof fn lemma_occurs_joined(parts: Seq<Seq<char>>, c: char, k: int)
    requires
        0 <= k < parts.len(),
    ensures
        text::occurs(text::joined(parts, c), parts[k]),
    decreases parts.len(),
{
    let all = text::joined(parts, c);
    let nothing = Seq::<char>::empty();
    if parts.len() == 1 {
        lemma_occurs(nothing, parts[0], nothing);
        assert(nothing + parts[0] + nothing =~= all);
    } else if k == parts.len() - 1 {
        lemma_occurs(text::joined(parts.drop_last(), c) + seq![c], parts[k], nothing);
        assert(text::joined(parts.drop_last(), c) + seq![c] + parts[k] + nothing =~= all);
    } else {
        let head = parts.drop_last();
        lemma_occurs_joined(head, c, k);
        let front = text::joined(head, c);
        let i = choose|i: int| text::occurs_at(front, head[k], i);
        assert(all.subrange(i, i + parts[k].len()) =~= front.subrange(i, i + parts[k].len()));
        assert(text::occurs_at(all, parts[k], i));
    }
}

/// A joined text holds the characters of its parts and the one between them.
pub proof fn lemma_joined_lacks(parts: Seq<Seq<char>>, c: char, x: char)
    requires
        x != c,
        forall|i: int| 0 <= i < parts.len() ==> !(#[trigger] parts[i]).contains(x),
    ensures
        !text::joined(parts, c).contains(x),
    decreases parts.len(),
{
    if parts.len() > 1 {
        let head = parts.drop_last();
        assert forall|i: int| 0 <= i < head.len() implies !(#[trigger] head[i]).contains(x) by {
            assert(head[i] == parts[i]);
        }
        lemma_joined_lacks(head, c, x);
        let front = text::joined(head, c);
        let last = parts[parts.len() - 1];
        let all = front + seq![c] + last;
        if all.contains(x) {
            let i = choose|i: int| 0 <= i < all.len() && all[i] == x;
            if i < front.len() {
                assert(front[i] == x);
                assert(front.contains(x));
            } else if i > front.len() {
                assert(last[i - front.len() - 1] == x);
                assert(last.contains(x));
            }
        }
    } else if parts.len() == 1 {
        assert(!parts[0].contains(x));
    }
}

// ---------------------------------------------------------------------------
// What the operations on text do
// ---------------------------------------------------------------------------

/// Every character of `s` is white space.
pub open spec fn blank(s: Seq<char>) -> bool {
    forall|i: int| 0 <= i < s.len() ==> text::is_space(#[trigger] s[i])
}

/// `s` neither begins nor ends with white space.
pub open spec fn tight(s: Seq<char>) -> bool {
    s.len() > 0 ==> !text::is_space(s[0]) && !text::is_space(s[s.len() - 1])
}

proof fn lemma_blank_front(a: Seq<char>, s: Seq<char>)
    requires
        blank(a),
    ensures
        text::trimmed_start(a + s) == text::trimmed_start(s),
    decreases a.len(),
{
    let all = a + s;
    if a.len() == 0 {
        assert(all =~= s);
    } else {
        let rest = a.drop_first();
        assert(blank(rest)) by {
            assert forall|i: int| 0 <= i < rest.len() implies text::is_space(#[trigger] rest[i]) by {
                assert(text::is_space(a[i + 1]));
            }
        }
        assert(text::is_space(a[0]));
        assert(all[0] == a[0]);
        assert(all.drop_first() =~= rest + s);
        lemma_blank_front(rest, s);
    }
}

proof fn lemma_blank_back(s: Seq<char>, b: Seq<char>)
    requires
        blank(b),
    ensures
        text::trimmed_end(s + b) == text::trimmed_end(s),
    decreases b.len(),
{
    let all = s + b;
    if b.len() == 0 {
        assert(all =~= s);
    } else {
        let rest = b.drop_last();
        assert(blank(rest)) by {
            assert forall|i: int| 0 <= i < rest.len() implies text::is_space(#[trigger] rest[i]) by {
                assert(text::is_space(b[i]));
            }
        }
        assert(text::is_space(b[b.len() - 1]));
        assert(all.last() == b[b.len() - 1]);
        assert(all.drop_last() =~= s + rest);
        lemma_blank_back(s, rest);
    }
}

/// Trimming takes away the white space at the two ends, all of it, and nothing else.
pub proof fn law_trimmed(a: Seq<char>, core: Seq<char>, b: Seq<char>)
    requires
        blank(a),
        tight(core),
        blank(b),
    ensures
        text::trimmed(a + core + b) == core,
{
    assert(a + core + b =~= a + (core + b));
    lemma_blank_front(a, core + b);
    if core.len() == 0 {
        let nothing = Seq::<char>::empty();
        assert(core + b =~= b + nothing);
        lemma_blank_front(b, nothing);
        assert(core =~= nothing);
    } else {
        assert((core + b)[0] == core[0]);
        lemma_blank_back(core, b);
    }
}

/// Every text is its trimmed part with white space around it.
pub proof fn law_trimmed_part(s: Seq<char>)
    ensures
        tight(text::trimmed(s)),
        exists|a: Seq<char>, b: Seq<char>|
            blank(a) && blank(b) && s == #[trigger] (a + text::trimmed(s) + b),
{
    let front = text::trimmed_start(s);
    lemma_start_part(s);
    lemma_end_part(front);
    lemma_trimmed_ends(s);
    let a = choose|a: Seq<char>| blank(a) && s == #[trigger] (a + front);
    let b = choose|b: Seq<char>| blank(b) && front == #[trigger] (text::trimmed(s) + b);
    assert(s =~= a + text::trimmed(s) + b);
}

proof fn lemma_start_part(s: Seq<char>)
    ensures
        exists|a: Seq<char>| blank(a) && s == #[trigger] (a + text::trimmed_start(s)),
    decreases s.len(),
{
    let front = text::trimmed_start(s);
    if s.len() > 0 && text::is_space(s[0]) {
        lemma_start_part(s.drop_first());
        let a = choose|a: Seq<char>| blank(a) && s.drop_first() == #[trigger] (a + front);
        let more = seq![s[0]] + a;
        assert forall|i: int| 0 <= i < more.len() implies text::is_space(#[trigger] more[i]) by {
            if i > 0 {
                assert(more[i] == a[i - 1]);
            }
        }
        assert(s =~= seq![s[0]] + s.drop_first());
        assert(s =~= more + front);
    } else {
        assert(s =~= Seq::<char>::empty() + front);
    }
}

proof fn lemma_end_part(s: Seq<char>)
    ensures
        exists|b: Seq<char>| blank(b) && s == #[trigger] (text::trimmed_end(s) + b),
    decreases s.len(),
{
    let back = text::trimmed_end(s);
    if s.len() > 0 && text::is_space(s.last()) {
        lemma_end_part(s.drop_last());
        let b = choose|b: Seq<char>| blank(b) && s.drop_last() == #[trigger] (back + b);
        let more = b.push(s.last());
        assert(blank(more)) by {
            assert forall|i: int| 0 <= i < more.len() implies text::is_space(#[trigger] more[i]) by {
                if i < b.len() {
                    assert(more[i] == b[i]);
                }
            }
        }
        assert(s =~= s.drop_last().push(s.last()));
        assert(s =~= back + more);
    } else {
        assert(s =~= back + Seq::<char>::empty());
    }
}

/// The last position of a character is where it stands with none behind it, and there is no such
/// position when the text lacks the character.
pub proof fn law_last_position(s: Seq<char>, c: char)
    ensures
        s.contains(c) ==> 0 <= text::last_position(s, c) < s.len() && s[text::last_position(s, c)]
            == c,
        !s.contains(c) ==> text::last_position(s, c) == -1,
        forall|i: int| text::last_position(s, c) < i < s.len() ==> #[trigger] s[i] != c,
    decreases s.len(),
{
    if s.len() > 0 {
        let shorter = s.drop_last();
        law_last_position(shorter, c);
        if s.last() == c {
            assert(s.contains(s[s.len() - 1]));
        } else {
            assert(s.contains(c) <==> shorter.contains(c)) by {
                if s.contains(c) {
                    let i = choose|i: int| 0 <= i < s.len() && s[i] == c;
                    assert(shorter[i] == c);
                }
                if shorter.contains(c) {
                    let i = choose|i: int| 0 <= i < shorter.len() && shorter[i] == c;
                    assert(s[i] == c);
                }
            }
            assert forall|i: int| text::last_position(s, c) < i < s.len() implies #[trigger] s[i]
                != c by {
                if i < shorter.len() {
                    assert(shorter[i] == s[i]);
                }
            }
        }
    }
}

/// A line feed ends a line: the lines of a text are those up to the line feed and those behind it.
pub proof fn law_lines_cut(a: Seq<char>, b: Seq<char>)
    ensures
        text::lines_of(a + seq!['\n'] + b) == text::lines_of(a + seq!['\n']) + text::lines_of(b),
{
    let sep = Some('\n');
    let nothing = Seq::<char>::empty();
    let p = text::pieces(a, sep);
    let q = text::pieces(b, sep);
    lemma_pieces_cut(a, '\n', b, sep);
    lemma_pieces_cut(a, '\n', nothing, sep);
    lemma_pieces_some(b, sep);
    assert(a + seq!['\n'] + nothing =~= a + seq!['\n']);
    assert(text::pieces(nothing, sep) =~= seq![nothing]);
    assert((p + seq![nothing]).drop_last() =~= p);
    assert((p + seq![nothing]).last() == nothing);
    assert((p + q).drop_last() =~= p + q.drop_last());
    assert((p + q).last() == q.last());
    let f = |x: Seq<char>| text::without_cr(x);
    assert((p + q.drop_last()).map_values(f) =~= p.map_values(f) + q.drop_last().map_values(f));
    assert(text::lines_of(a + seq!['\n'] + b) =~= text::lines_of(a + seq!['\n']) + text::lines_of(
        b,
    ));
}

/// A single line, with and without its end.
pub proof fn law_one_line(line: Seq<char>)
    requires
        !line.contains('\n'),
    ensures
        text::lines_of(line + seq!['\n']) == seq![
            if line.len() > 0 && line.last() == '\r' {
                line.drop_last()
            } else {
                line
            },
        ],
        line.len() > 0 ==> text::lines_of(line) == seq![line],
        text::lines_of(Seq::<char>::empty()).len() == 0,
{
    let sep = Some('\n');
    let nothing = Seq::<char>::empty();
    assert(text::unbroken(line, sep)) by {
        assert forall|k: int| 0 <= k < line.len() implies !text::separates(
            #[trigger] line[k],
            sep,
        ) by {
            assert(line.contains(line[k]));
        }
    }
    lemma_pieces_whole(line, sep);
    lemma_pieces_cut(line, '\n', nothing, sep);
    assert(line + seq!['\n'] + nothing =~= line + seq!['\n']);
    assert(text::pieces(nothing, sep) =~= seq![nothing]);
    assert((seq![line] + seq![nothing]).drop_last() =~= seq![line]);
    let f = |x: Seq<char>| text::without_cr(x);
    assert(seq![line].map_values(f) =~= seq![text::without_cr(line)]);
    assert(seq![line].drop_last() =~= Seq::<Seq<char>>::empty());
    assert(Seq::<Seq<char>>::empty().map_values(f) =~= Seq::<Seq<char>>::empty());
    assert(Seq::<Seq<char>>::empty().push(line) =~= seq![line]);
    assert(seq![nothing].drop_last() =~= Seq::<Seq<char>>::empty());
}

/// White space is a blank, a tabulator, the ends of lines and pages, and the wider and narrower spaces
/// of printing; nothing else is.
pub proof fn law_white_space(c: char)
    ensures
        text::is_space(c) <==> {
            ||| c == '\t'
            ||| c == '\n'
            ||| c == '\u{b}'
            ||| c == '\u{c}'
            ||| c == '\r'
            ||| c == ' '
            ||| c == '\u{85}'
            ||| c == '\u{a0}'
            ||| c == '\u{1680}'
            ||| c == '\u{2000}'
            ||| c == '\u{2001}'
            ||| c == '\u{2002}'
            ||| c == '\u{2003}'
            ||| c == '\u{2004}'
            ||| c == '\u{2005}'
            ||| c == '\u{2006}'
            ||| c == '\u{2007}'
            ||| c == '\u{2008}'
            ||| c == '\u{2009}'
            ||| c == '\u{200a}'
            ||| c == '\u{2028}'
            ||| c == '\u{2029}'
            ||| c == '\u{202f}'
            ||| c == '\u{205f}'
            ||| c == '\u{3000}'
        },
{
}

/// White space parts words, and a text without white space is one word, unless it is empty.
pub proof fn law_words_cut(a: Seq<char>, c: char, b: Seq<char>)
    requires
        text::is_space(c),
    ensures
        text::words_of(a + seq![c] + b) == text::words_of(a) + text::words_of(b),
        text::space_free(a) && a.len() > 0 ==> text::words_of(a) == seq![a],
        text::words_of(Seq::<char>::empty()).len() == 0,
{
    let keep = |p: Seq<char>| p.len() > 0;
    let nothing = Seq::<char>::empty();
    lemma_pieces_cut(a, c, b, None);
    Seq::filter_distributes_over_add(text::pieces(a, None), text::pieces(b, None), keep);
    if text::space_free(a) && a.len() > 0 {
        assert(text::unbroken(a, None)) by {
            assert forall|k: int| 0 <= k < a.len() implies !text::separates(
                #[trigger] a[k],
                None,
            ) by {
                assert(!text::is_space(a[k]));
            }
        }
        lemma_pieces_whole(a, None);
        lemma_filter_all(seq![a], keep);
    }
    reveal(Seq::filter);
    assert(text::pieces(nothing, None) =~= seq![nothing]);
    let rest = seq![nothing].drop_last();
    assert(rest =~= Seq::<Seq<char>>::empty());
    assert(rest.filter(keep).len() == 0);
    assert(!keep(seq![nothing].last()));
}

/// An ending is taken away as often as it is there.
pub proof fn law_without_tails(s: Seq<char>, tail: Seq<char>)
    requires
        tail.len() > 0,
    ensures
        text::without_tails(s + tail, tail) == text::without_tails(s, tail),
        (forall|a: Seq<char>| s != #[trigger] (a + tail)) ==> text::without_tails(s, tail) == s,
{
    let all = s + tail;
    assert(all.skip(all.len() - tail.len()) =~= tail);
    assert(all.take(all.len() - tail.len()) =~= s);
    if text::ends(s, tail) {
        let a = s.take(s.len() - tail.len());
        assert(s =~= a + s.skip(s.len() - tail.len()));
        assert(s == a + tail);
    }
}

/// A text holds a part when it is the part with something before it and behind it.
pub proof fn law_occurs(s: Seq<char>, part: Seq<char>)
    ensures
        text::occurs(s, part) <==> exists|a: Seq<char>, b: Seq<char>| s == #[trigger] (a + part
            + b),
{
    if text::occurs(s, part) {
        let i = choose|i: int| text::occurs_at(s, part, i);
        let a = s.take(i);
        let b = s.skip(i + part.len());
        assert(s =~= a + s.subrange(i, i + part.len()) + b);
        assert(s == a + part + b);
    }
    if exists|a: Seq<char>, b: Seq<char>| s == #[trigger] (a + part + b) {
        let (a, b) = choose|a: Seq<char>, b: Seq<char>| s == #[trigger] (a + part + b);
        lemma_occurs(a, part, b);
    }
}

} // verus!
