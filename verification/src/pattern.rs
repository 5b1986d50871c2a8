//! Glob patterns over node names.
//!
//! A pattern is matched against one whole name. `*` stands for any run of characters, `?`
//! for any one character, `[a-cx]` for one character of the listed ranges (`[!...]` for one
//! character outside them), and `{one,two}` for one of the alternatives, which are taken
//! literally. A `[` or `{` that is never closed stands for itself.

use crate::text::texts;
use vstd::prelude::*;
use vstd::string::{StrSliceExecFns, StringExecFns};

verus! {

/// The first position at or after `from` where `p` holds `c`.
pub open spec fn find_char(p: Seq<char>, from: int, c: char) -> Option<int>
    decreases p.len() - from,
{
    if from < 0 || from >= p.len() {
        None
    } else if p[from] == c {
        Some(from)
    } else {
        find_char(p, from + 1, c)
    }
}

/// The end of the alternative that starts at `a` inside braces that close at `k`: the next
/// comma, or `k`.
pub open spec fn alt_end(p: Seq<char>, a: int, k: int) -> int
    decreases k - a,
{
    if a >= k || a < 0 || a >= p.len() {
        k
    } else if p[a] == ',' {
        a
    } else {
        alt_end(p, a + 1, k)
    }
}

/// Whether the class body `p[a..k)` lists `c`, alone or within a range `x-y`.
pub open spec fn class_lists(p: Seq<char>, a: int, k: int, c: char) -> bool
    decreases k - a,
{
    if a < 0 || a >= k || k > p.len() {
        false
    } else if a + 2 < k && p[a + 1] == '-' {
        (p[a] as u32 <= c as u32 <= p[a + 2] as u32) || class_lists(p, a + 3, k, c)
    } else {
        p[a] == c || class_lists(p, a + 1, k, c)
    }
}

/// Whether the class `p[a..k)`, negation mark included, admits `c`.
pub open spec fn class_admits(p: Seq<char>, a: int, k: int, c: char) -> bool {
    if a < k <= p.len() && p[a] == '!' {
        !class_lists(p, a + 1, k, c)
    } else {
        class_lists(p, a, k, c)
    }
}

/// Whether `s` holds the text `p[a..e)` at position `j`.
pub open spec fn holds_at(s: Seq<char>, j: int, p: Seq<char>, a: int, e: int) -> bool {
    &&& 0 <= a <= e <= p.len()
    &&& 0 <= j
    &&& j + (e - a) <= s.len()
    &&& s.subrange(j, j + (e - a)) == p.subrange(a, e)
}

/// Whether the pattern from position `i` on matches the name from position `j` on.
pub open spec fn glob_at(p: Seq<char>, i: int, s: Seq<char>, j: int) -> bool
    decreases p.len() - i, s.len() - j, 1int,
{
    if i < 0 || j < 0 || j > s.len() {
        false
    } else if i >= p.len() {
        j == s.len()
    } else if p[i] == '*' {
        glob_at(p, i + 1, s, j) || (j < s.len() && glob_at(p, i, s, j + 1))
    } else if p[i] == '?' {
        j < s.len() && glob_at(p, i + 1, s, j + 1)
    } else if p[i] == '[' && find_char(p, i + 1, ']') is Some {
        let k = find_char(p, i + 1, ']')->Some_0;
        proof {
            lemma_find_char(p, i + 1, ']');
        }
        j < s.len() && class_admits(p, i + 1, k, s[j]) && glob_at(p, k + 1, s, j + 1)
    } else if p[i] == '{' && find_char(p, i + 1, '}') is Some {
        let k = find_char(p, i + 1, '}')->Some_0;
        alt_at(p, i + 1, k, s, j)
    } else {
        j < s.len() && s[j] == p[i] && glob_at(p, i + 1, s, j + 1)
    }
}

/// Whether one of the alternatives from position `a` on, inside braces that close at `k`,
/// stands in the name at `j` with the rest of the pattern matching what follows it.
pub open spec fn alt_at(p: Seq<char>, a: int, k: int, s: Seq<char>, j: int) -> bool
    decreases p.len() - a, s.len() - j, 0int,
{
    if a < 1 || a > k || k >= p.len() || j < 0 {
        false
    } else {
        let e = alt_end(p, a, k);
        (holds_at(s, j, p, a, e) && glob_at(p, k + 1, s, j + (e - a))) || (e < k && a <= e && alt_at(
            p,
            e + 1,
            k,
            s,
            j,
        ))
    }
}

/// Whether the pattern `p` matches the whole name `s`.
pub open spec fn glob(p: Seq<char>, s: Seq<char>) -> bool {
    glob_at(p, 0, s, 0)
}

/// Whether `p` holds one of the wildcard characters `*`, `?` and `[`.
pub open spec fn is_wild(p: Seq<char>) -> bool {
    exists|i: int| 0 <= i < p.len() && (p[i] == '*' || p[i] == '?' || p[i] == '[')
}

/// The position found by [`find_char`] holds the character, and nothing before it does.
pub proof fn lemma_find_char(p: Seq<char>, from: int, c: char)
    requires
        0 <= from,
    ensures
        match find_char(p, from, c) {
            Some(k) => from <= k < p.len() && p[k] == c && forall|x: int| from <= x < k ==> p[x] != c,
            None => forall|x: int| from <= x < p.len() ==> p[x] != c,
        },
    decreases p.len() - from,
{
    if from < p.len() && p[from] != c {
        lemma_find_char(p, from + 1, c);
    }
}

/// The end found by [`alt_end`] lies in `a..=k`, and no comma stands before it.
pub proof fn lemma_alt_end(p: Seq<char>, a: int, k: int)
    requires
        0 <= a <= k <= p.len(),
    ensures
        a <= alt_end(p, a, k) <= k,
        alt_end(p, a, k) < k ==> p[alt_end(p, a, k)] == ',',
        forall|x: int| a <= x < alt_end(p, a, k) ==> p[x] != ',',
    decreases k - a,
{
    if a < k && p[a] != ',' {
        lemma_alt_end(p, a + 1, k);
    }
}

/// The first position at or after `from` where `p` holds `c`.
pub fn find(p: &Vec<char>, from: usize, c: char) -> (r: Option<usize>)
    ensures
        match r {
            Some(k) => find_char(p@, from as int, c) == Some(k as int) && from <= k < p.len(),
            None => find_char(p@, from as int, c) is None,
        },
{
    let mut i: usize = from;
    while i < p.len()
        invariant
            from <= i,
            find_char(p@, from as int, c) == find_char(p@, i as int, c),
        decreases p.len() - i,
    {
        if p[i] == c {
            return Some(i);
        }
        i += 1;
    }
    None
}

/// The end of the alternative that starts at `a` inside braces that close at `k`.
fn alternative_end(p: &Vec<char>, a: usize, k: usize) -> (r: usize)
    requires
        a <= k <= p.len(),
    ensures
        r == alt_end(p@, a as int, k as int),
        a <= r <= k,
{
    let mut i: usize = a;
    while i < k
        invariant
            a <= i <= k <= p.len(),
            alt_end(p@, a as int, k as int) == alt_end(p@, i as int, k as int),
        decreases k - i,
    {
        if p[i] == ',' {
            return i;
        }
        i += 1;
    }
    i
}

/// Whether the class body `p[a..k)` lists `c`.
fn lists(p: &Vec<char>, a: usize, k: usize, c: char) -> (r: bool)
    requires
        k <= p.len(),
    ensures
        r == class_lists(p@, a as int, k as int, c),
{
    let mut i: usize = a;
    while i < k
        invariant
            k <= p.len(),
            class_lists(p@, a as int, k as int, c) == class_lists(p@, i as int, k as int, c),
        decreases k - i,
    {
        if k - i > 2 && p[i + 1] == '-' {
            if p[i] as u32 <= c as u32 && c as u32 <= p[i + 2] as u32 {
                return true;
            }
            i += 3;
        } else {
            if p[i] == c {
                return true;
            }
            i += 1;
        }
    }
    false
}

/// Whether the class `p[a..k)`, negation mark included, admits `c`.
fn admits(p: &Vec<char>, a: usize, k: usize, c: char) -> (r: bool)
    requires
        k <= p.len(),
    ensures
        r == class_admits(p@, a as int, k as int, c),
{
    if a < k && p[a] == '!' {
        !lists(p, a + 1, k, c)
    } else {
        lists(p, a, k, c)
    }
}

/// Whether `s` holds the text `p[a..e)` at position `j`.
fn holds(s: &Vec<char>, j: usize, p: &Vec<char>, a: usize, e: usize) -> (r: bool)
    requires
        a <= e <= p.len(),
        j <= s.len(),
    ensures
        r == holds_at(s@, j as int, p@, a as int, e as int),
{
    if e - a > s.len() - j {
        return false;
    }
    let n: usize = e - a;
    let mut x: usize = 0;
    while x < n
        invariant
            x <= n,
            n == e - a,
            a <= e <= p.len(),
            j + n <= s.len(),
            forall|y: int| 0 <= y < x ==> #[trigger] s[j + y] == p[a + y],
        decreases n - x,
    {
        if s[j + x] != p[a + x] {
            assert(s@.subrange(j as int, j + n)[x as int] != p@.subrange(a as int, e as int)[x as int]);
            return false;
        }
        x += 1;
    }
    assert forall|y: int| 0 <= y < n implies s@.subrange(j as int, j + n)[y] == p@.subrange(
        a as int,
        e as int,
    )[y] by {
        assert(s[j + y] == p[a + y]);
    }
    assert(s@.subrange(j as int, j + n) =~= p@.subrange(a as int, e as int));
    true
}

/// Whether the pattern from position `i` on matches the name from position `j` on.
fn matches_at(p: &Vec<char>, i: usize, s: &Vec<char>, j: usize) -> (r: bool)
    requires
        i <= p.len(),
        j <= s.len(),
    ensures
        r == glob_at(p@, i as int, s@, j as int),
    decreases p.len() - i, s.len() - j, 1int,
{
    if i == p.len() {
        return j == s.len();
    }
    let c = p[i];
    if c == '*' {
        if matches_at(p, i + 1, s, j) {
            true
        } else {
            j < s.len() && matches_at(p, i, s, j + 1)
        }
    } else if c == '?' {
        j < s.len() && matches_at(p, i + 1, s, j + 1)
    } else if c == '[' {
        match find(p, i + 1, ']') {
            Some(k) => j < s.len() && admits(p, i + 1, k, s[j]) && matches_at(p, k + 1, s, j + 1),
            None => j < s.len() && s[j] == c && matches_at(p, i + 1, s, j + 1),
        }
    } else if c == '{' {
        match find(p, i + 1, '}') {
            Some(k) => alternatives_at(p, i + 1, k, s, j),
            None => j < s.len() && s[j] == c && matches_at(p, i + 1, s, j + 1),
        }
    } else {
        j < s.len() && s[j] == c && matches_at(p, i + 1, s, j + 1)
    }
}

/// Whether one of the alternatives from position `a` on matches at `j`.
fn alternatives_at(p: &Vec<char>, a: usize, k: usize, s: &Vec<char>, j: usize) -> (r: bool)
    requires
        1 <= a <= k < p.len(),
        j <= s.len(),
    ensures
        r == alt_at(p@, a as int, k as int, s@, j as int),
    decreases p.len() - a, s.len() - j, 0int,
{
    let e = alternative_end(p, a, k);
    if holds(s, j, p, a, e) && matches_at(p, k + 1, s, j + (e - a)) {
        true
    } else if e < k {
        alternatives_at(p, e + 1, k, s, j)
    } else {
        false
    }
}

/// Whether the pattern `p` matches the whole name `s`.
pub fn matches(p: &Vec<char>, s: &Vec<char>) -> (r: bool)
    ensures
        r == glob(p@, s@),
{
    matches_at(p, 0, s, 0)
}

/// Whether `p` holds one of the wildcard characters `*`, `?` and `[`.
pub fn wild(p: &Vec<char>) -> (r: bool)
    ensures
        r == is_wild(p@),
{
    let mut i: usize = 0;
    while i < p.len()
        invariant
            i <= p.len(),
            forall|x: int| 0 <= x < i ==> !(p[x] == '*' || p[x] == '?' || p[x] == '['),
        decreases p.len() - i,
    {
        if p[i] == '*' || p[i] == '?' || p[i] == '[' {
            return true;
        }
        i += 1;
    }
    false
}

/// `head` set before each of `tails`.
pub open spec fn prepend_each(head: Seq<char>, tails: Seq<Seq<char>>) -> Seq<Seq<char>> {
    Seq::new(tails.len(), |i: int| head + tails[i])
}

/// The texts that the pattern from position `i` on spells out when every brace group is
/// replaced by one of its alternatives, in the order of the alternatives.
pub open spec fn expansions_at(p: Seq<char>, i: int) -> Seq<Seq<char>>
    decreases p.len() - i, 1int,
{
    if i < 0 || i >= p.len() {
        seq![Seq::empty()]
    } else if p[i] == '{' && find_char(p, i + 1, '}') is Some {
        let k = find_char(p, i + 1, '}')->Some_0;
        alt_expansions(p, i + 1, k)
    } else {
        prepend_each(p.subrange(i, i + 1), expansions_at(p, i + 1))
    }
}

/// The expansions that begin with one of the alternatives from position `a` on, inside
/// braces that close at `k`.
pub open spec fn alt_expansions(p: Seq<char>, a: int, k: int) -> Seq<Seq<char>>
    decreases p.len() - a, 0int,
{
    if a < 1 || a > k || k >= p.len() {
        Seq::empty()
    } else {
        let e = alt_end(p, a, k);
        if a <= e <= k {
            prepend_each(p.subrange(a, e), expansions_at(p, k + 1)) + (if e < k {
                alt_expansions(p, e + 1, k)
            } else {
                Seq::empty()
            })
        } else {
            Seq::empty()
        }
    }
}

/// The texts that the pattern spells out when every brace group is replaced by one of its
/// alternatives.
pub open spec fn expansions(p: Seq<char>) -> Seq<Seq<char>> {
    expansions_at(p, 0)
}

/// `head` set before each of `tails`.
fn prepend(head: &str, tails: &Vec<String>) -> (r: Vec<String>)
    ensures
        texts(r@) == prepend_each(head@, texts(tails@)),
{
    let mut out: Vec<String> = Vec::new();
    let mut i: usize = 0;
    while i < tails.len()
        invariant
            i <= tails.len(),
            out.len() == i,
            forall|k: int| 0 <= k < i ==> out[k]@ == head@ + tails[k]@,
        decreases tails.len() - i,
    {
        let mut s = String::from_str(head);
        s.append(tails[i].as_str());
        out.push(s);
        i += 1;
    }
    assert(texts(out@) =~= prepend_each(head@, texts(tails@)));
    out
}

/// The expansions of the pattern from position `i` on.
fn expand_at(pat: &str, p: &Vec<char>, i: usize) -> (r: Vec<String>)
    requires
        p@ == pat@,
        i <= p.len(),
    ensures
        texts(r@) == expansions_at(p@, i as int),
    decreases p.len() - i, 1int,
{
    if i == p.len() {
        let r = vec![String::new()];
        assert(texts(r@) =~= seq![Seq::<char>::empty()]);
        return r;
    }
    if p[i] == '{' {
        match find(p, i + 1, '}') {
            Some(k) => {
                return expand_alts(pat, p, i + 1, k);
            },
            None => {},
        }
    }
    let tails = expand_at(pat, p, i + 1);
    prepend(pat.substring_char(i, i + 1), &tails)
}

/// The expansions that begin with one of the alternatives from position `a` on.
fn expand_alts(pat: &str, p: &Vec<char>, a: usize, k: usize) -> (r: Vec<String>)
    requires
        p@ == pat@,
        1 <= a <= k < p.len(),
    ensures
        texts(r@) == alt_expansions(p@, a as int, k as int),
    decreases p.len() - a, 0int,
{
    let e = alternative_end(p, a, k);
    let tails = expand_at(pat, p, k + 1);
    let mut out = prepend(pat.substring_char(a, e), &tails);
    if e < k {
        let mut more = expand_alts(pat, p, e + 1, k);
        let ghost first = out@;
        let ghost second = more@;
        out.append(&mut more);
        assert(texts(out@) =~= texts(first) + texts(second));
    } else {
        assert(texts(out@) + Seq::<Seq<char>>::empty() =~= texts(out@));
    }
    out
}

/// The texts that the pattern spells out when every brace group is replaced by one of its
/// alternatives, in the order of the alternatives.
pub fn expand(pat: &str) -> (r: Vec<String>)
    ensures
        texts(r@) == expansions(pat@),
{
    let p = crate::text::chars_of(pat);
    expand_at(pat, &p, 0)
}

/// A text is among the texts with `head` set before them exactly when it begins with `head`
/// and goes on with one of them.
pub proof fn lemma_prepend_contains(head: Seq<char>, tails: Seq<Seq<char>>, y: Seq<char>)
    ensures
        prepend_each(head, tails).contains(y) <==> (head.len() <= y.len() && y.subrange(0, head.len() as int)
            == head && tails.contains(y.skip(head.len() as int))),
{
    let all = prepend_each(head, tails);
    if all.contains(y) {
        let i = choose|i: int| 0 <= i < all.len() && all[i] == y;
        assert(y == head + tails[i]);
        assert(y.subrange(0, head.len() as int) =~= head);
        assert(y.skip(head.len() as int) =~= tails[i]);
    }
    if head.len() <= y.len() && y.subrange(0, head.len() as int) == head && tails.contains(
        y.skip(head.len() as int),
    ) {
        let i = choose|i: int| 0 <= i < tails.len() && tails[i] == y.skip(head.len() as int);
        assert(head + tails[i] =~= y);
        assert(all[i] == y);
    }
}

/// A pattern without a wildcard matches exactly the names that it expands to, from every
/// position on.
pub proof fn lemma_match_is_expansion(p: Seq<char>, i: int, s: Seq<char>, j: int)
    requires
        !is_wild(p),
        0 <= i <= p.len(),
        0 <= j <= s.len(),
    ensures
        glob_at(p, i, s, j) == expansions_at(p, i).contains(s.skip(j)),
    decreases p.len() - i, 1int,
{
    let rest = s.skip(j);
    if i >= p.len() {
        let only = seq![Seq::<char>::empty()];
        assert(only[0] == Seq::<char>::empty());
        if j == s.len() {
            assert(rest =~= Seq::<char>::empty());
            assert(only[0] == rest);
        } else {
            assert(rest.len() > 0);
        }
    } else {
        assert(!(p[i] == '*' || p[i] == '?' || p[i] == '['));
        if p[i] == '{' && find_char(p, i + 1, '}') is Some {
            let k = find_char(p, i + 1, '}')->Some_0;
            lemma_find_char(p, i + 1, '}');
            lemma_alternatives_are_expansion(p, i + 1, k, s, j);
        } else {
            let head = p.subrange(i, i + 1);
            lemma_prepend_contains(head, expansions_at(p, i + 1), rest);
            if j < s.len() {
                lemma_match_is_expansion(p, i + 1, s, j + 1);
                assert(rest.skip(1) =~= s.skip(j + 1));
                assert(rest[0] == s[j]);
                assert(head[0] == p[i]);
                if s[j] == p[i] {
                    assert(rest.subrange(0, 1) =~= head);
                } else {
                    assert(rest.subrange(0, 1)[0] != head[0]);
                }
            }
        }
    }
}

/// The alternatives of a brace group match exactly the names that they expand to.
pub proof fn lemma_alternatives_are_expansion(p: Seq<char>, a: int, k: int, s: Seq<char>, j: int)
    requires
        !is_wild(p),
        1 <= a <= k < p.len(),
        0 <= j <= s.len(),
    ensures
        alt_at(p, a, k, s, j) == alt_expansions(p, a, k).contains(s.skip(j)),
    decreases p.len() - a, 0int,
{
    let rest = s.skip(j);
    let e = alt_end(p, a, k);
    lemma_alt_end(p, a, k);
    let head = p.subrange(a, e);
    let first = prepend_each(head, expansions_at(p, k + 1));
    let more = if e < k { alt_expansions(p, e + 1, k) } else { Seq::<Seq<char>>::empty() };
    assert(alt_expansions(p, a, k) == first + more);
    lemma_prepend_contains(head, expansions_at(p, k + 1), rest);
    if j + (e - a) <= s.len() {
        lemma_match_is_expansion(p, k + 1, s, j + (e - a));
        assert(rest.skip(e - a) =~= s.skip(j + (e - a)));
        assert(rest.subrange(0, e - a) =~= s.subrange(j, j + (e - a)));
    }
    if e < k {
        lemma_alternatives_are_expansion(p, e + 1, k, s, j);
    }
    let here = first.contains(rest);
    let later = more.contains(rest);
    assert(here == (holds_at(s, j, p, a, e) && glob_at(p, k + 1, s, j + (e - a))));
    assert(later == (e < k && alt_at(p, e + 1, k, s, j)));
    if here {
        let x = choose|x: int| 0 <= x < first.len() && first[x] == rest;
        assert((first + more)[x] == rest);
    }
    if later {
        let x = choose|x: int| 0 <= x < more.len() && more[x] == rest;
        assert((first + more)[first.len() + x] == rest);
    }
    if (first + more).contains(rest) {
        let x = choose|x: int| 0 <= x < (first + more).len() && (first + more)[x] == rest;
        if x < first.len() {
            assert(first[x] == rest);
        } else {
            assert(more[x - first.len()] == rest);
        }
    }
}

/// A pattern without a wildcard matches a name exactly when the name is one of its
/// expansions.
pub proof fn lemma_literal_pattern_matches_its_expansions(p: Seq<char>, s: Seq<char>)
    requires
        !is_wild(p),
    ensures
        glob(p, s) == expansions(p).contains(s),
{
    lemma_match_is_expansion(p, 0, s, 0);
    assert(s.skip(0) =~= s);
}

} // verus!
