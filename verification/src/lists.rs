//! Lists without repetition.

use crate::addr::Rule;
use vstd::prelude::*;

verus! {

/// The first `n` elements of `s`, or all of them when there are fewer.
pub open spec fn at_most<A>(s: Seq<A>, n: nat) -> Seq<A> {
    if s.len() <= n {
        s
    } else {
        s.take(n as int)
    }
}

/// `s` with `x` at its end, unless it holds `x` already.
pub open spec fn included<A>(s: Seq<A>, x: A) -> Seq<A> {
    if s.contains(x) {
        s
    } else {
        s.push(x)
    }
}

/// The different elements of `s`, in the order in which they first occur.
pub open spec fn distinct<A>(s: Seq<A>) -> Seq<A>
    decreases s.len(),
{
    if s.len() == 0 {
        s
    } else {
        included(distinct(s.drop_last()), s.last())
    }
}

/// `s` without every occurrence of `x`.
pub open spec fn without<A>(s: Seq<A>, x: A) -> Seq<A> {
    s.filter(|y: A| y != x)
}

/// Leaving an element out keeps a list free of repetition and keeps everything else.
pub proof fn lemma_without<A>(s: Seq<A>, x: A)
    ensures
        s.no_duplicates() ==> without(s, x).no_duplicates(),
        forall|y: A| #[trigger] without(s, x).contains(y) <==> s.contains(y) && y != x,
        without(s, x).len() <= s.len(),
    decreases s.len(),
{
    reveal(Seq::filter);
    if s.len() > 0 {
        let shorter = s.drop_last();
        lemma_without(shorter, x);
        if shorter.contains(s.last()) {
            let i = choose|i: int| 0 <= i < shorter.len() && shorter[i] == s.last();
            assert(s[i] == s[s.len() - 1]);
        }
        if s.no_duplicates() {
            assert(shorter.no_duplicates()) by {
                assert forall|i: int, j: int|
                    0 <= i < shorter.len() && 0 <= j < shorter.len() && i != j implies shorter[i]
                    != shorter[j] by {
                    assert(s[i] != s[j]);
                }
            }
        }
        lemma_contains_last(s);
        if s.last() != x {
            lemma_included(without(shorter, x), s.last());
            lemma_pushed(without(shorter, x), s.last());
        }
    }
}

/// Leaving an element out can be done element by element.
proof fn lemma_without_step<A>(s: Seq<A>, x: A, i: int)
    requires
        0 <= i < s.len(),
    ensures
        without(s.take(i + 1), x) == if s[i] != x {
            without(s.take(i), x).push(s[i])
        } else {
            without(s.take(i), x)
        },
{
    reveal(Seq::filter);
    assert(s.take(i + 1).drop_last() =~= s.take(i));
    assert(s.take(i + 1).last() == s[i]);
}

/// What a list holds is its last element and what the rest holds.
pub proof fn lemma_contains_last<A>(s: Seq<A>)
    requires
        s.len() > 0,
    ensures
        forall|y: A| #[trigger] s.contains(y) <==> s.drop_last().contains(y) || y == s.last(),
{
    assert(s.drop_last().push(s.last()) =~= s);
    lemma_pushed(s.drop_last(), s.last());
}

/// What a list holds after an element was put at its end.
pub proof fn lemma_pushed<A>(s: Seq<A>, x: A)
    ensures
        forall|y: A| #[trigger] s.push(x).contains(y) <==> s.contains(y) || y == x,
{
    let t = s.push(x);
    assert(t[s.len() as int] == x);
    assert forall|y: A| #[trigger] t.contains(y) <==> s.contains(y) || y == x by {
        if s.contains(y) {
            let i = choose|i: int| 0 <= i < s.len() && s[i] == y;
            assert(t[i] == y);
        }
        if t.contains(y) && y != x {
            let i = choose|i: int| 0 <= i < t.len() && t[i] == y;
            assert(s[i] == y);
        }
    }
}

/// Filtering keeps exactly what passes, and as many times as it was there.
pub proof fn lemma_filter_holds<A>(s: Seq<A>, keep: spec_fn(A) -> bool)
    ensures
        forall|x: A| #[trigger] s.filter(keep).contains(x) <==> s.contains(x) && keep(x),
        s.filter(keep).len() <= s.len(),
        s.no_duplicates() ==> s.filter(keep).no_duplicates(),
    decreases s.len(),
{
    reveal(Seq::filter);
    if s.len() > 0 {
        let shorter = s.drop_last();
        lemma_filter_holds(shorter, keep);
        lemma_contains_last(s);
        lemma_pushed(shorter.filter(keep), s.last());
        if s.no_duplicates() {
            assert(shorter.no_duplicates()) by {
                assert forall|i: int, j: int|
                    0 <= i < shorter.len() && 0 <= j < shorter.len() && i != j implies shorter[i]
                    != shorter[j] by {
                    assert(s[i] != s[j]);
                }
            }
            assert(!shorter.contains(s.last())) by {
                if shorter.contains(s.last()) {
                    let i = choose|i: int| 0 <= i < shorter.len() && shorter[i] == s.last();
                    assert(s[i] == s[s.len() - 1]);
                }
            }
            lemma_included(shorter.filter(keep), s.last());
        }
    }
}

/// What comes out of a mapping is what some element is mapped to.
pub proof fn lemma_filter_map_holds<A, B>(s: Seq<A>, f: spec_fn(A) -> Option<B>, y: B)
    ensures
        s.filter_map(f).contains(y) <==> exists|x: A| #[trigger] s.contains(x) && f(x) == Some(y),
        s.filter_map(f).len() <= s.len(),
    decreases s.len(),
{
    if s.len() > 0 {
        let shorter = s.drop_last();
        lemma_filter_map_holds(shorter, f, y);
        lemma_contains_last(s);
        match f(s.last()) {
            Some(last) => {
                assert(shorter.filter_map(f) + seq![last] =~= shorter.filter_map(f).push(last));
                lemma_pushed(shorter.filter_map(f), last);
                if last == y {
                    assert(s.contains(s.last()));
                }
            },
            None => {},
        }
        if exists|x: A| #[trigger] shorter.contains(x) && f(x) == Some(y) {
            let x = choose|x: A| #[trigger] shorter.contains(x) && f(x) == Some(y);
            assert(s.contains(x));
        }
        if exists|x: A| #[trigger] s.contains(x) && f(x) == Some(y) {
            let x = choose|x: A| #[trigger] s.contains(x) && f(x) == Some(y);
            if x != s.last() {
                assert(shorter.contains(x));
            }
        }
    }
}

/// A mapping that maps no two elements to one keeps a list free of repetition.
pub proof fn lemma_filter_map_distinct<A, B>(s: Seq<A>, f: spec_fn(A) -> Option<B>)
    requires
        s.no_duplicates(),
        forall|x: A, y: A| #![trigger f(x), f(y)] f(x) is Some && f(x) == f(y) ==> x == y,
    ensures
        s.filter_map(f).no_duplicates(),
    decreases s.len(),
{
    if s.len() > 0 {
        let shorter = s.drop_last();
        assert(shorter.no_duplicates()) by {
            assert forall|i: int, j: int|
                0 <= i < shorter.len() && 0 <= j < shorter.len() && i != j implies shorter[i]
                != shorter[j] by {
                assert(s[i] != s[j]);
            }
        }
        lemma_filter_map_distinct(shorter, f);
        match f(s.last()) {
            Some(last) => {
                let before = shorter.filter_map(f);
                assert(before + seq![last] =~= before.push(last));
                lemma_filter_map_holds(shorter, f, last);
                if before.contains(last) {
                    let x = choose|x: A| #[trigger] shorter.contains(x) && f(x) == Some(last);
                    let i = choose|i: int| 0 <= i < shorter.len() && shorter[i] == x;
                    assert(f(x) == f(s.last()));
                    assert(s[i] == s[s.len() - 1]);
                }
                lemma_included(before, last);
            },
            None => {},
        }
    }
}

/// One element more of a list.
pub proof fn lemma_take_more<A>(s: Seq<A>, n: int)
    requires
        0 <= n < s.len(),
    ensures
        forall|x: A| #[trigger]
            s.take(n + 1).contains(x) <==> s.take(n).contains(x) || x == s[n],
        s.no_duplicates() ==> !s.take(n).contains(s[n]),
{
    assert(s.take(n + 1) =~= s.take(n).push(s[n]));
    lemma_pushed(s.take(n), s[n]);
    if s.no_duplicates() && s.take(n).contains(s[n]) {
        let i = choose|i: int| 0 <= i < n && s.take(n)[i] == s[n];
        assert(s[i] == s[n]);
    }
}

/// How often `x` is in `s`.
pub open spec fn times<A>(s: Seq<A>, x: A) -> nat
    decreases s.len(),
{
    if s.len() == 0 {
        0
    } else {
        times(s.drop_first(), x) + if s[0] == x {
            1nat
        } else {
            0nat
        }
    }
}

/// What is in a list is there at least once.
pub proof fn lemma_times<A>(s: Seq<A>, x: A)
    ensures
        s.contains(x) <==> times(s, x) > 0,
    decreases s.len(),
{
    if s.len() > 0 {
        let rest = s.drop_first();
        lemma_times(rest, x);
        if s[0] == x {
            assert(s.contains(s[0]));
        } else if rest.contains(x) {
            let i = choose|i: int| 0 <= i < rest.len() && rest[i] == x;
            assert(s[i + 1] == x);
        } else if s.contains(x) {
            let i = choose|i: int| 0 <= i < s.len() && s[i] == x;
            assert(rest[i - 1] == x);
        }
    }
}

/// How often an element is in a list with one more at its end.
pub proof fn lemma_times_push<A>(s: Seq<A>, y: A, x: A)
    ensures
        times(s.push(y), x) == times(s, x) + if x == y {
            1nat
        } else {
            0nat
        },
    decreases s.len(),
{
    let all = s.push(y);
    if s.len() == 0 {
        assert(all.drop_first() =~= s);
    } else {
        assert(all.drop_first() =~= s.drop_first().push(y));
        lemma_times_push(s.drop_first(), y, x);
    }
}

/// Filtering keeps what passes as often as it was there.
pub proof fn lemma_times_filter<A>(s: Seq<A>, keep: spec_fn(A) -> bool, x: A)
    ensures
        times(s.filter(keep), x) == if keep(x) {
            times(s, x)
        } else {
            0
        },
    decreases s.len(),
{
    reveal(Seq::filter);
    if s.len() > 0 {
        let shorter = s.drop_last();
        lemma_times_filter(shorter, keep, x);
        assert(s =~= shorter.push(s.last()));
        lemma_times_push(shorter, s.last(), x);
        lemma_times_push(shorter.filter(keep), s.last(), x);
    }
}

/// Including an element keeps a list free of repetition and adds nothing else.
pub proof fn lemma_included<A>(s: Seq<A>, x: A)
    ensures
        s.no_duplicates() ==> included(s, x).no_duplicates(),
        forall|y: A| #[trigger] included(s, x).contains(y) <==> s.contains(y) || y == x,
{
    let t = included(s, x);
    if !s.contains(x) {
        assert(t[s.len() as int] == x);
        assert forall|y: A| #[trigger] t.contains(y) <==> s.contains(y) || y == x by {
            if s.contains(y) {
                let i = choose|i: int| 0 <= i < s.len() && s[i] == y;
                assert(t[i] == y);
            }
            if t.contains(y) && y != x {
                let i = choose|i: int| 0 <= i < t.len() && t[i] == y;
                assert(s[i] == y);
            }
        }
        if s.no_duplicates() {
            assert forall|i: int, j: int| 0 <= i < t.len() && 0 <= j < t.len() && i != j implies t[i]
                != t[j] by {
                if i < s.len() {
                    assert(s.contains(s[i]));
                }
                if j < s.len() {
                    assert(s.contains(s[j]));
                }
            }
        }
    }
}

/// Dropping repetitions leaves every element once and loses none.
pub proof fn lemma_distinct<A>(s: Seq<A>)
    ensures
        distinct(s).no_duplicates(),
        forall|x: A| #[trigger] distinct(s).contains(x) <==> s.contains(x),
        distinct(s).len() <= s.len(),
    decreases s.len(),
{
    if s.len() > 0 {
        let shorter = s.drop_last();
        lemma_distinct(shorter);
        lemma_included(distinct(shorter), s.last());
        assert forall|x: A| #[trigger] distinct(s).contains(x) <==> s.contains(x) by {
            if s.contains(x) {
                let i = choose|i: int| 0 <= i < s.len() && s[i] == x;
                if i < s.len() - 1 {
                    assert(shorter[i] == x);
                    assert(shorter.contains(x));
                }
            }
            if distinct(shorter).contains(x) {
                let i = choose|i: int| 0 <= i < shorter.len() && shorter[i] == x;
                assert(s[i] == x);
            }
            assert(s[s.len() - 1] == s.last());
        }
    }
}

/// A list without repetition is left as it is.
pub proof fn lemma_distinct_same<A>(s: Seq<A>)
    requires
        s.no_duplicates(),
    ensures
        distinct(s) == s,
    decreases s.len(),
{
    if s.len() > 0 {
        let shorter = s.drop_last();
        assert forall|i: int, j: int|
            0 <= i < shorter.len() && 0 <= j < shorter.len() && i != j implies shorter[i]
            != shorter[j] by {
            assert(s[i] != s[j]);
        }
        lemma_distinct_same(shorter);
        assert(!shorter.contains(s.last())) by {
            if shorter.contains(s.last()) {
                let i = choose|i: int| 0 <= i < shorter.len() && shorter[i] == s.last();
                assert(s[i] == s[s.len() - 1]);
            }
        }
        assert(shorter.push(s.last()) =~= s);
    }
}

/// Dropping repetitions can be done element by element.
pub proof fn lemma_distinct_push<A>(s: Seq<A>, x: A)
    ensures
        distinct(s.push(x)) == included(distinct(s), x),
{
    assert(s.push(x).drop_last() =~= s);
}

/// Whether `list` holds `rule`.
pub fn holds_rule(list: &Vec<Rule>, rule: Rule) -> (res: bool)
    ensures
        res == list@.contains(rule),
{
    for i in 0..list.len()
        invariant
            forall|k: int| 0 <= k < i ==> list@[k] != rule,
    {
        if list[i] == rule {
            return true;
        }
    }
    false
}

/// Whether `list` holds `port`.
pub fn holds_port(list: &Vec<u16>, port: u16) -> (res: bool)
    ensures
        res == list@.contains(port),
{
    for i in 0..list.len()
        invariant
            forall|k: int| 0 <= k < i ==> list@[k] != port,
    {
        if list[i] == port {
            return true;
        }
    }
    false
}

/// Puts `rule` at the end of `list`, unless it is there already.
pub fn include_rule(list: &mut Vec<Rule>, rule: Rule)
    ensures
        final(list)@ == included(old(list)@, rule),
{
    if !holds_rule(list, rule) {
        list.push(rule);
    }
}

/// Puts `port` at the end of `list`, unless it is there already.
pub fn include_port(list: &mut Vec<u16>, port: u16)
    ensures
        final(list)@ == included(old(list)@, port),
{
    if !holds_port(list, port) {
        list.push(port);
    }
}

/// A copy of `list`.
pub fn copy_rules(list: &Vec<Rule>) -> (out: Vec<Rule>)
    ensures
        out@ == list@,
{
    let mut out: Vec<Rule> = Vec::new();
    for i in 0..list.len()
        invariant
            out@ == list@.take(i as int),
    {
        out.push(list[i]);
    }
    out
}

/// The rules of `list` other than `rule`.
pub fn leave_out(list: &Vec<Rule>, rule: Rule) -> (out: Vec<Rule>)
    ensures
        out@ == without(list@, rule),
{
    let mut out: Vec<Rule> = Vec::new();
    proof {
        lemma_without(list@.take(0), rule);
        assert(without(list@.take(0), rule) =~= Seq::<Rule>::empty());
    }
    for i in 0..list.len()
        invariant
            out@ == without(list@.take(i as int), rule),
    {
        proof {
            lemma_without_step(list@, rule, i as int);
        }
        if list[i] != rule {
            out.push(list[i]);
        }
    }
    proof {
        assert(list@.take(list@.len() as int) =~= list@);
    }
    out
}

} // verus!
