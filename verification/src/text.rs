//! Text as a sequence of characters: trimming, splitting, joining and searching.

use vstd::prelude::*;
use vstd::slice::slice_subrange;

verus! {

/// `String::push` appends one character to the end of the string.
pub assume_specification[ std::string::String::push ](s: &mut std::string::String, ch: char)
    ensures
        final(s)@ == old(s)@.push(ch),
;

// ---------------------------------------------------------------------------
// The mathematical meaning of the text operations
// ---------------------------------------------------------------------------

/// The characters with the Unicode property `White_Space`.
pub open spec fn is_space(c: char) -> bool {
    let n = c as u32;
    ||| 0x09 <= n <= 0x0d
    ||| n == 0x20
    ||| n == 0x85
    ||| n == 0xa0
    ||| n == 0x1680
    ||| 0x2000 <= n <= 0x200a
    ||| n == 0x2028
    ||| n == 0x2029
    ||| n == 0x202f
    ||| n == 0x205f
    ||| n == 0x3000
}

/// No character of `s` is white space.
pub open spec fn space_free(s: Seq<char>) -> bool {
    forall|i: int| 0 <= i < s.len() ==> !is_space(#[trigger] s[i])
}

/// `s` without its leading white space.
pub open spec fn trimmed_start(s: Seq<char>) -> Seq<char>
    decreases s.len(),
{
    if s.len() > 0 && is_space(s[0]) {
        trimmed_start(s.drop_first())
    } else {
        s
    }
}

/// `s` without its trailing white space.
pub open spec fn trimmed_end(s: Seq<char>) -> Seq<char>
    decreases s.len(),
{
    if s.len() > 0 && is_space(s.last()) {
        trimmed_end(s.drop_last())
    } else {
        s
    }
}

/// `s` without the white space at its two ends.
pub open spec fn trimmed(s: Seq<char>) -> Seq<char> {
    trimmed_end(trimmed_start(s))
}

/// Whether `c` separates pieces: it is the given character or, when none is given, white space.
pub open spec fn separates(c: char, sep: Option<char>) -> bool {
    match sep {
        Some(x) => c == x,
        None => is_space(c),
    }
}

/// No character of `s` separates pieces.
pub open spec fn unbroken(s: Seq<char>, sep: Option<char>) -> bool {
    forall|i: int| 0 <= i < s.len() ==> !separates(#[trigger] s[i], sep)
}

/// `s` cut at every separator; there is always one piece more than there are separators.
pub open spec fn pieces(s: Seq<char>, sep: Option<char>) -> Seq<Seq<char>>
    decreases s.len(),
{
    if s.len() == 0 {
        seq![Seq::<char>::empty()]
    } else {
        let before = pieces(s.drop_last(), sep);
        if separates(s.last(), sep) {
            before.push(Seq::<char>::empty())
        } else {
            before.drop_last().push(before.last().push(s.last()))
        }
    }
}

/// `parts` one after the other, with `c` between neighbours.
pub open spec fn joined(parts: Seq<Seq<char>>, c: char) -> Seq<char>
    decreases parts.len(),
{
    if parts.len() == 0 {
        Seq::<char>::empty()
    } else if parts.len() == 1 {
        parts[0]
    } else {
        joined(parts.drop_last(), c) + seq![c] + parts.last()
    }
}

/// `parts` one after the other, each followed by a line feed.
pub open spec fn unlines(parts: Seq<Seq<char>>) -> Seq<char>
    decreases parts.len(),
{
    if parts.len() == 0 {
        Seq::<char>::empty()
    } else {
        unlines(parts.drop_last()) + parts.last() + seq!['\n']
    }
}

/// `s` without one carriage return at its end.
pub open spec fn without_cr(s: Seq<char>) -> Seq<char> {
    if s.len() > 0 && s.last() == '\r' {
        s.drop_last()
    } else {
        s
    }
}

/// The lines of `s`: each ends with a line feed, or with a carriage return and a line feed,
/// which are not part of it. What follows the last line feed is a line unless it is empty.
pub open spec fn lines_of(s: Seq<char>) -> Seq<Seq<char>> {
    let cut = pieces(s, Some('\n'));
    let ended = cut.drop_last().map_values(|p: Seq<char>| without_cr(p));
    if cut.last().len() == 0 {
        ended
    } else {
        ended.push(cut.last())
    }
}

/// The maximal runs of `s` that hold no white space.
pub open spec fn words_of(s: Seq<char>) -> Seq<Seq<char>> {
    pieces(s, None).filter(|p: Seq<char>| p.len() > 0)
}

/// `s` begins with `head`.
pub open spec fn begins(s: Seq<char>, head: Seq<char>) -> bool {
    s.len() >= head.len() && s.take(head.len() as int) == head
}

/// `s` ends with `tail`.
pub open spec fn ends(s: Seq<char>, tail: Seq<char>) -> bool {
    s.len() >= tail.len() && s.skip(s.len() - tail.len()) == tail
}

/// `s` without every repetition of `tail` at its end.
pub open spec fn without_tails(s: Seq<char>, tail: Seq<char>) -> Seq<char>
    decreases s.len(),
{
    if tail.len() > 0 && ends(s, tail) {
        without_tails(s.take(s.len() - tail.len()), tail)
    } else {
        s
    }
}

/// `part` occurs in `s` from position `i` on.
pub open spec fn occurs_at(s: Seq<char>, part: Seq<char>, i: int) -> bool {
    0 <= i && i + part.len() <= s.len() && s.subrange(i, i + part.len()) == part
}

/// `part` occurs in `s`.
pub open spec fn occurs(s: Seq<char>, part: Seq<char>) -> bool {
    exists|i: int| occurs_at(s, part, i)
}

/// The last position of `c` in `s`, or -1 when it does not occur.
pub open spec fn last_position(s: Seq<char>, c: char) -> int
    decreases s.len(),
{
    if s.len() == 0 {
        -1
    } else if s.last() == c {
        s.len() - 1
    } else {
        last_position(s.drop_last(), c)
    }
}

/// The character sequences that a vector holds.
pub open spec fn contents(v: Seq<Vec<char>>) -> Seq<Seq<char>> {
    v.map_values(|w: Vec<char>| w@)
}

/// What an optional text says.
pub open spec fn optional(given: Option<&str>) -> Option<Seq<char>> {
    match given {
        Some(shown) => Some(shown@),
        None => None,
    }
}

/// The texts that a vector of strings holds.
pub open spec fn texts(v: Seq<String>) -> Seq<Seq<char>> {
    v.map_values(|w: String| w@)
}

// ---------------------------------------------------------------------------
// Between strings and characters
// ---------------------------------------------------------------------------

/// The characters of `text`, in order.
pub fn chars_of(text: &str) -> (out: Vec<char>)
    ensures
        out@ == text@,
{
    let mut out: Vec<char> = Vec::new();
    for c in it: text.chars()
        invariant
            out@ == it.seq().take(it.index()),
            it.seq() == text@,
    {
        out.push(c);
    }
    out
}

/// The string that holds exactly `chars`.
pub fn string_of(chars: &[char]) -> (out: String)
    ensures
        out@ == chars@,
{
    let mut out: String = String::new();
    for i in 0..chars.len()
        invariant
            out@ == chars@.take(i as int),
    {
        out.push(chars[i]);
    }
    out
}

/// Whether two character sequences are the same.
pub fn same(a: &[char], b: &[char]) -> (res: bool)
    ensures
        res == (a@ == b@),
{
    if a.len() != b.len() {
        return false;
    }
    for i in 0..a.len()
        invariant
            a@.len() == b@.len(),
            forall|k: int| 0 <= k < i ==> a@[k] == b@[k],
    {
        if a[i] != b[i] {
            return false;
        }
    }
    proof {
        assert(a@ =~= b@);
    }
    true
}

/// Whether `chars` spells `text`.
pub fn spells(chars: &[char], text: &str) -> (res: bool)
    ensures
        res == (chars@ == text@),
{
    let other = chars_of(text);
    same(chars, other.as_slice())
}

/// Appends `more` to `chars`.
pub fn append(chars: &mut Vec<char>, more: &[char])
    ensures
        final(chars)@ == old(chars)@ + more@,
{
    for i in 0..more.len()
        invariant
            chars@ == old(chars)@ + more@.take(i as int),
    {
        chars.push(more[i]);
    }
    proof {
        assert(more@.take(more@.len() as int) =~= more@);
    }
}

/// Appends the characters of `text` to `chars`.
pub fn append_text(chars: &mut Vec<char>, text: &str)
    ensures
        final(chars)@ == old(chars)@ + text@,
{
    let more = chars_of(text);
    append(chars, more.as_slice());
}

// ---------------------------------------------------------------------------
// Executable operations
// ---------------------------------------------------------------------------

/// Whether `c` is white space.
pub fn is_whitespace(c: char) -> (res: bool)
    ensures
        res == is_space(c),
{
    let n: u32 = c as u32;
    (0x09 <= n && n <= 0x0d) || n == 0x20 || n == 0x85 || n == 0xa0 || n == 0x1680 || (0x2000 <= n
        && n <= 0x200a) || n == 0x2028 || n == 0x2029 || n == 0x202f || n == 0x205f || n == 0x3000
}

/// `s` without the white space at its two ends.
pub fn trim(s: &[char]) -> (out: &[char])
    ensures
        out@ == trimmed(s@),
{
    let mut from: usize = 0;
    proof {
        assert(s@.skip(0) =~= s@);
    }
    while from < s.len() && is_whitespace(s[from])
        invariant
            from <= s@.len(),
            trimmed_start(s@) == trimmed_start(s@.skip(from as int)),
        decreases s@.len() - from,
    {
        proof {
            assert(s@.skip(from as int).drop_first() =~= s@.skip(from + 1));
        }
        from = from + 1;
    }
    let rest = slice_subrange(s, from, s.len());
    proof {
        assert(rest@ =~= s@.skip(from as int));
        assert(trimmed_start(s@) == rest@);
        assert(rest@.take(rest@.len() as int) =~= rest@);
    }
    let mut to: usize = rest.len();
    while to > 0 && is_whitespace(rest[to - 1])
        invariant
            to <= rest@.len(),
            trimmed_end(rest@) == trimmed_end(rest@.take(to as int)),
        decreases to,
    {
        proof {
            assert(rest@.take(to as int).drop_last() =~= rest@.take(to - 1));
        }
        to = to - 1;
    }
    proof {
        assert(rest@.subrange(0, to as int) =~= rest@.take(to as int));
    }
    slice_subrange(rest, 0, to)
}

/// Whether `c` separates pieces.
fn is_separator(c: char, sep: Option<char>) -> (res: bool)
    ensures
        res == separates(c, sep),
{
    match sep {
        Some(x) => c == x,
        None => is_whitespace(c),
    }
}

/// `s` cut at every separator.
pub fn split(s: &[char], sep: Option<char>) -> (out: Vec<Vec<char>>)
    ensures
        contents(out@) == pieces(s@, sep),
        out@.len() > 0,
{
    let mut out: Vec<Vec<char>> = Vec::new();
    let mut piece: Vec<char> = Vec::new();
    proof {
        assert(s@.take(0) =~= Seq::<char>::empty());
        assert(contents(out@).push(piece@) =~= pieces(s@.take(0), sep));
    }
    for i in 0..s.len()
        invariant
            contents(out@).push(piece@) == pieces(s@.take(i as int), sep),
    {
        let ghost before = contents(out@).push(piece@);
        proof {
            assert(s@.take(i + 1).drop_last() =~= s@.take(i as int));
            assert(s@.take(i + 1).last() == s@[i as int]);
            assert(before.drop_last() =~= contents(out@));
        }
        if is_separator(s[i], sep) {
            let ghost done = out@;
            let ghost last = piece;
            out.push(piece);
            piece = Vec::new();
            proof {
                assert(contents(out@) =~= contents(done).push(last@));
                assert(piece@ =~= Seq::<char>::empty());
            }
        } else {
            piece.push(s[i]);
        }
    }
    proof {
        assert(s@.take(s@.len() as int) =~= s@);
    }
    let ghost done = out@;
    let ghost last = piece;
    out.push(piece);
    proof {
        assert(contents(out@) =~= contents(done).push(last@));
    }
    out
}

/// The lines of `s`, without their line endings.
pub fn lines(s: &[char]) -> (out: Vec<Vec<char>>)
    ensures
        contents(out@) == lines_of(s@),
{
    let cut = split(s, Some('\n'));
    let ghost all = pieces(s@, Some('\n'));
    let count: usize = cut.len() - 1;
    let mut out: Vec<Vec<char>> = Vec::new();
    proof {
        assert(contents(cut@).len() == all.len());
    }
    for i in 0..count
        invariant
            count == all.len() - 1,
            contents(cut@) == all,
            contents(cut@).len() == cut@.len(),
            contents(out@) =~= all.take(i as int).map_values(|p: Seq<char>| without_cr(p)),
    {
        let line = cut[i].as_slice();
        let mut to: usize = line.len();
        if to > 0 && line[to - 1] == '\r' {
            to = to - 1;
        }
        let mut kept: Vec<char> = Vec::new();
        append(&mut kept, slice_subrange(line, 0, to));
        proof {
            assert(line@ == contents(cut@)[i as int]);
            assert(kept@ =~= without_cr(all[i as int]));
        }
        let ghost ended = contents(out@);
        out.push(kept);
        proof {
            assert(contents(out@) =~= ended.push(without_cr(all[i as int])));
        }
    }
    proof {
        assert(all.take(count as int) =~= all.drop_last());
    }
    let rest = cut[count].as_slice();
    proof {
        assert(rest@ == contents(cut@)[count as int]);
        assert(rest@ == all.last());
    }
    if rest.len() > 0 {
        let mut kept: Vec<char> = Vec::new();
        append(&mut kept, rest);
        proof {
            assert(kept@ =~= all.last());
        }
        let ghost ended = contents(out@);
        out.push(kept);
        proof {
            assert(contents(out@) =~= ended.push(all.last()));
        }
    }
    out
}

/// The maximal runs of `s` that hold no white space.
pub fn split_whitespace(s: &[char]) -> (out: Vec<Vec<char>>)
    ensures
        contents(out@) == words_of(s@),
{
    let cut = split(s, None);
    let ghost all = pieces(s@, None);
    let ghost filled = |p: Seq<char>| p.len() > 0;
    let mut out: Vec<Vec<char>> = Vec::new();
    proof {
        reveal(Seq::filter);
        assert(all.take(0).filter(filled) =~= Seq::<Seq<char>>::empty());
        assert(contents(out@) =~= Seq::<Seq<char>>::empty());
        assert(contents(cut@).len() == cut@.len());
    }
    for i in 0..cut.len()
        invariant
            contents(cut@) == all,
            contents(cut@).len() == cut@.len(),
            filled == (|p: Seq<char>| p.len() > 0),
            contents(out@) == all.take(i as int).filter(filled),
    {
        let piece = cut[i].as_slice();
        let ghost before = contents(out@);
        proof {
            reveal(Seq::filter);
            assert(piece@ == contents(cut@)[i as int]);
            assert(all.take(i + 1).drop_last() =~= all.take(i as int));
            assert(all.take(i + 1).last() == piece@);
        }
        if piece.len() > 0 {
            let mut kept: Vec<char> = Vec::new();
            append(&mut kept, piece);
            proof {
                assert(kept@ =~= piece@);
            }
            out.push(kept);
            proof {
                assert(contents(out@) =~= before.push(piece@));
            }
        }
    }
    proof {
        assert(all.take(all.len() as int) =~= all);
    }
    out
}

/// What follows `head` in `s`, when `s` begins with it.
pub fn strip_prefix<'a>(s: &'a [char], head: &str) -> (out: Option<&'a [char]>)
    ensures
        out is Some <==> begins(s@, head@),
        out matches Some(rest) ==> rest@ == s@.skip(head@.len() as int),
{
    let h = chars_of(head);
    if s.len() < h.len() {
        return None;
    }
    let start = slice_subrange(s, 0, h.len());
    proof {
        assert(start@ =~= s@.take(head@.len() as int));
    }
    if same(start, h.as_slice()) {
        let rest = slice_subrange(s, h.len(), s.len());
        proof {
            assert(rest@ =~= s@.skip(head@.len() as int));
        }
        Some(rest)
    } else {
        None
    }
}

/// `s` without every repetition of `tail` at its end.
pub fn trim_end_matches<'a>(s: &'a [char], tail: &str) -> (out: &'a [char])
    ensures
        out@ == without_tails(s@, tail@),
{
    let t = chars_of(tail);
    let mut to: usize = s.len();
    proof {
        assert(s@.take(to as int) =~= s@);
    }
    while t.len() > 0 && t.len() <= to && same(slice_subrange(s, to - t.len(), to), t.as_slice())
        invariant
            to <= s@.len(),
            t@ == tail@,
            without_tails(s@, tail@) == without_tails(s@.take(to as int), tail@),
        decreases to,
    {
        proof {
            let now = s@.take(to as int);
            assert(now.skip(now.len() - t@.len()) =~= s@.subrange(to - t@.len(), to as int));
            assert(now.take(now.len() - t@.len()) =~= s@.take(to - t@.len()));
        }
        to = to - t.len();
    }
    proof {
        let now = s@.take(to as int);
        if t@.len() > 0 && t@.len() <= to {
            assert(now.skip(now.len() - t@.len()) =~= s@.subrange(to - t@.len(), to as int));
        }
        assert(s@.subrange(0, to as int) =~= now);
    }
    slice_subrange(s, 0, to)
}

/// Whether `part` occurs in `s`.
pub fn contains(s: &[char], part: &str) -> (res: bool)
    ensures
        res == occurs(s@, part@),
{
    let p = chars_of(part);
    let n: usize = s.len();
    let mut i: usize = 0;
    while p.len() <= n - i
        invariant
            p@ == part@,
            n == s@.len(),
            i <= n,
            forall|k: int| k < i ==> !occurs_at(s@, part@, k),
        decreases n - i,
    {
        if same(slice_subrange(s, i, i + p.len()), p.as_slice()) {
            proof {
                assert(occurs_at(s@, part@, i as int));
            }
            return true;
        }
        proof {
            if p@.len() == 0 {
                assert(s@.subrange(i as int, i as int) =~= p@);
            }
        }
        i = i + 1;
    }
    false
}

/// The last position of `c` in `s`.
pub fn rfind(s: &[char], c: char) -> (out: Option<usize>)
    ensures
        out matches Some(i) ==> i < s@.len() && i == last_position(s@, c),
        out is None ==> last_position(s@, c) == -1,
{
    let mut to: usize = s.len();
    proof {
        assert(s@.take(to as int) =~= s@);
    }
    while to > 0
        invariant
            to <= s@.len(),
            last_position(s@, c) == last_position(s@.take(to as int), c),
        decreases to,
    {
        proof {
            assert(s@.take(to as int).drop_last() =~= s@.take(to - 1));
        }
        if s[to - 1] == c {
            return Some(to - 1);
        }
        to = to - 1;
    }
    None
}

/// Appends `c` and `part` to `chars`; `c` is left out before the first part.
pub fn append_joined(chars: &mut Vec<char>, part: &[char], c: char, first: bool)
    ensures
        final(chars)@ == if first {
            old(chars)@ + part@
        } else {
            old(chars)@ + seq![c] + part@
        },
{
    if !first {
        chars.push(c);
        proof {
            assert(chars@ =~= old(chars)@ + seq![c]);
        }
    }
    append(chars, part);
}

} // verus!
