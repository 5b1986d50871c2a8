//! Paths and names as sequences of characters.
//!
//! A path is a run of names separated by `/`. Empty pieces are dropped, so a leading, a
//! trailing or a doubled separator changes nothing.

use vstd::prelude::*;
use vstd::string::StrSliceExecFns;
use vstd::utf8::{decode_utf8, encode_utf8, valid_utf8};

verus! {

/// The texts of a sequence of strings, one by one.
pub open spec fn texts(v: Seq<String>) -> Seq<Seq<char>> {
    Seq::new(v.len(), |i: int| v[i]@)
}

/// A name is not empty and holds no separator.
pub open spec fn is_name(s: Seq<char>) -> bool {
    s.len() > 0 && forall|i: int| 0 <= i < s.len() ==> s[i] != '/'
}

/// The first position at or after `i` that holds a separator, or the length of `p`.
pub open spec fn segment_end(p: Seq<char>, i: int) -> int
    decreases p.len() - i,
{
    if i < 0 || i >= p.len() {
        p.len() as int
    } else if p[i] == '/' {
        i
    } else {
        segment_end(p, i + 1)
    }
}

/// The names of the path `p` from position `i` on.
pub open spec fn segments_from(p: Seq<char>, i: int) -> Seq<Seq<char>>
    decreases p.len() - i,
{
    if i < 0 || i >= p.len() {
        Seq::empty()
    } else if p[i] == '/' {
        segments_from(p, i + 1)
    } else {
        let e = segment_end(p, i);
        if i < e <= p.len() {
            seq![p.subrange(i, e)] + segments_from(p, e)
        } else {
            Seq::empty()
        }
    }
}

/// The names of the path `p`, in order.
pub open spec fn segments(p: Seq<char>) -> Seq<Seq<char>> {
    segments_from(p, 0)
}

/// The end of a segment lies after its start, within the path, on a separator or at the end,
/// and no separator stands before it.
pub proof fn lemma_segment_end(p: Seq<char>, i: int)
    requires
        0 <= i <= p.len(),
    ensures
        i <= segment_end(p, i) <= p.len(),
        segment_end(p, i) < p.len() ==> p[segment_end(p, i)] == '/',
        forall|x: int| i <= x < segment_end(p, i) ==> p[x] != '/',
        i < p.len() && p[i] != '/' ==> i < segment_end(p, i),
    decreases p.len() - i,
{
    if i < p.len() && p[i] != '/' {
        lemma_segment_end(p, i + 1);
    }
}

/// Every segment of a path is a name.
pub proof fn lemma_segments_are_names(p: Seq<char>, i: int)
    requires
        0 <= i <= p.len(),
    ensures
        forall|k: int| 0 <= k < segments_from(p, i).len() ==> is_name(#[trigger] segments_from(p, i)[k]),
    decreases p.len() - i,
{
    if i < p.len() {
        if p[i] == '/' {
            lemma_segments_are_names(p, i + 1);
            assert(segments_from(p, i) == segments_from(p, i + 1));
        } else {
            lemma_segment_end(p, i);
            let e = segment_end(p, i);
            lemma_segments_are_names(p, e);
            let head = p.subrange(i, e);
            assert(is_name(head));
            assert(segments_from(p, i) == seq![head] + segments_from(p, e));
            assert forall|k: int| 0 <= k < segments_from(p, i).len() implies is_name(
                #[trigger] segments_from(p, i)[k],
            ) by {
                if k > 0 {
                    assert(segments_from(p, i)[k] == segments_from(p, e)[k - 1]);
                } else {
                    assert(segments_from(p, i)[0] == head);
                }
            }
        }
    }
}

/// The characters of `s`, in order.
pub fn chars_of(s: &str) -> (r: Vec<char>)
    ensures
        r@ == s@,
{
    let mut out: Vec<char> = Vec::new();
    for c in it: s.chars()
        invariant
            out@ == it.seq().take(it.index() as int),
            it.seq() == s@,
    {
        out.push(c);
    }
    out
}

/// Whether `s` is a name: not empty and without a separator.
pub fn name_ok(s: &str) -> (r: bool)
    ensures
        r == is_name(s@),
{
    let c = chars_of(s);
    if c.len() == 0 {
        return false;
    }
    let mut i: usize = 0;
    while i < c.len()
        invariant
            i <= c.len(),
            c@ == s@,
            forall|x: int| 0 <= x < i ==> c[x] != '/',
        decreases c.len() - i,
    {
        if c[i] == '/' {
            assert(s@[i as int] == '/');
            return false;
        }
        i += 1;
    }
    true
}

/// The names of the path, in order.
pub fn split(path: &str) -> (r: Vec<String>)
    ensures
        texts(r@) == segments(path@),
{
    let c = chars_of(path);
    let mut out: Vec<String> = Vec::new();
    let mut i: usize = 0;
    while i < c.len()
        invariant
            i <= c.len(),
            c@ == path@,
            texts(out@) + segments_from(c@, i as int) == segments(c@),
        decreases c.len() - i,
    {
        if c[i] == '/' {
            i += 1;
        } else {
            let mut e: usize = i + 1;
            while e < c.len() && c[e] != '/'
                invariant
                    i < e <= c.len(),
                    segment_end(c@, i as int) == segment_end(c@, e as int),
                decreases c.len() - e,
            {
                e += 1;
            }
            let name = path.substring_char(i, e).to_owned();
            proof {
                let before = texts(out@);
                assert(texts(out@.push(name)) =~= before + seq![c@.subrange(i as int, e as int)]);
                assert(before + (seq![c@.subrange(i as int, e as int)] + segments_from(c@, e as int))
                    =~= (before + seq![c@.subrange(i as int, e as int)]) + segments_from(c@, e as int));
            }
            out.push(name);
            i = e;
        }
    }
    assert(texts(out@) + Seq::<Seq<char>>::empty() =~= texts(out@));
    out
}

/// The texts of a slice of string slices, one by one.
pub open spec fn slice_texts(v: Seq<&str>) -> Seq<Seq<char>> {
    Seq::new(v.len(), |i: int| v[i]@)
}

/// The elements of `s` in order of first occurrence, each once.
pub open spec fn distinct(s: Seq<Seq<char>>) -> Seq<Seq<char>>
    decreases s.len(),
{
    if s.len() == 0 {
        Seq::empty()
    } else if distinct(s.drop_last()).contains(s.last()) {
        distinct(s.drop_last())
    } else {
        distinct(s.drop_last()).push(s.last())
    }
}

/// The position that ends a segment is the only one at or after its start that holds a
/// separator, or is the end, with no separator before it.
pub proof fn lemma_segment_end_is(p: Seq<char>, i: int, e: int)
    requires
        0 <= i <= e <= p.len(),
        forall|x: int| i <= x < e ==> p[x] != '/',
        e < p.len() ==> p[e] == '/',
    ensures
        segment_end(p, i) == e,
    decreases e - i,
{
    if i < e {
        lemma_segment_end_is(p, i + 1, e);
    }
}

/// A separator and a name behind a path add that name to its segments.
pub proof fn lemma_segments_append(q: Seq<char>, name: Seq<char>, i: int)
    requires
        is_name(name),
        0 <= i <= q.len(),
    ensures
        segments_from(q + seq!['/'] + name, i) == segments_from(q, i).push(name),
    decreases q.len() - i,
{
    let p = q + seq!['/'] + name;
    let n = q.len() as int;
    if i == n {
        assert(p[n] == '/');
        assert(p[n + 1] == name[0]);
        assert forall|x: int| n + 1 <= x < p.len() implies p[x] != '/' by {
            assert(p[x] == name[x - n - 1]);
        }
        lemma_segment_end_is(p, n + 1, p.len() as int);
        assert(p.subrange(n + 1, p.len() as int) =~= name);
        assert(segments_from(p, p.len() as int) =~= Seq::<Seq<char>>::empty());
        assert(segments_from(p, n + 1) =~= seq![name]);
        assert(segments_from(q, n) =~= Seq::<Seq<char>>::empty());
        assert(segments_from(p, n) == segments_from(p, n + 1));
        assert(Seq::<Seq<char>>::empty().push(name) =~= seq![name]);
    } else {
        assert(p[i] == q[i]);
        if q[i] == '/' {
            lemma_segments_append(q, name, i + 1);
        } else {
            lemma_segment_end(q, i);
            let e = segment_end(q, i);
            assert forall|x: int| i <= x < e implies p[x] != '/' by {
                assert(p[x] == q[x]);
            }
            if e < n {
                assert(p[e] == q[e]);
            } else {
                assert(p[e] == '/');
            }
            lemma_segment_end_is(p, i, e);
            lemma_segments_append(q, name, e);
            assert(p.subrange(i, e) =~= q.subrange(i, e));
            assert(seq![q.subrange(i, e)] + segments_from(q, e).push(name) =~= (seq![q.subrange(i, e)]
                + segments_from(q, e)).push(name));
        }
    }
}

/// The text of a run of names: each name behind a separator.
pub open spec fn joined(names: Seq<Seq<char>>) -> Seq<char>
    decreases names.len(),
{
    if names.len() == 0 {
        Seq::empty()
    } else {
        joined(names.drop_last()) + seq!['/'] + names.last()
    }
}

/// The address that the names spell: `/` for none, else the joined names.
pub open spec fn address_of(names: Seq<Seq<char>>) -> Seq<char> {
    if names.len() == 0 {
        seq!['/']
    } else {
        joined(names)
    }
}

/// Splitting the joined names gives the names back.
pub proof fn lemma_segments_of_joined(names: Seq<Seq<char>>)
    requires
        forall|k: int| 0 <= k < names.len() ==> is_name(#[trigger] names[k]),
    ensures
        segments(joined(names)) == names,
        segments(address_of(names)) == names,
    decreases names.len(),
{
    if names.len() == 0 {
        let root = seq!['/'];
        assert(segments_from(root, 1) =~= Seq::<Seq<char>>::empty());
        assert(segments_from(root, 0) == segments_from(root, 1));
        assert(segments(joined(names)) =~= names);
        assert(segments(root) =~= names);
    } else {
        let pre = names.drop_last();
        assert forall|k: int| 0 <= k < pre.len() implies is_name(#[trigger] pre[k]) by {
            assert(pre[k] == names[k]);
        }
        lemma_segments_of_joined(pre);
        lemma_segments_append(joined(pre), names.last(), 0);
        assert(pre.push(names.last()) =~= names);
    }
}

/// The distinct strings of `tags`, in order of first occurrence.
pub fn unique(tags: &[&str]) -> (r: Vec<String>)
    ensures
        texts(r@) == distinct(slice_texts(tags@)),
{
    let mut out: Vec<String> = Vec::new();
    let mut i: usize = 0;
    assert(slice_texts(tags@).take(0) =~= Seq::<Seq<char>>::empty());
    assert(texts(out@) =~= Seq::<Seq<char>>::empty());
    while i < tags.len()
        invariant
            i <= tags.len(),
            texts(out@) == distinct(slice_texts(tags@).take(i as int)),
        decreases tags.len() - i,
    {
        let tag = tags[i].to_owned();
        let mut found = false;
        let mut k: usize = 0;
        while k < out.len()
            invariant
                k <= out.len(),
                found == exists|x: int| 0 <= x < k && (#[trigger] out[x])@ == tag@,
            decreases out.len() - k,
        {
            if out[k] == tag {
                found = true;
            }
            k += 1;
        }
        proof {
            let all = slice_texts(tags@);
            assert(all.take(i + 1).drop_last() =~= all.take(i as int));
            assert(all.take(i + 1).last() == tag@);
            if found {
                let x = choose|x: int| 0 <= x < out.len() && (#[trigger] out[x])@ == tag@;
                assert(texts(out@)[x] == tag@);
            } else {
                if texts(out@).contains(tag@) {
                    let x = choose|x: int| 0 <= x < texts(out@).len() && texts(out@)[x] == tag@;
                    assert(out[x]@ == tag@);
                }
                assert(texts(out@.push(tag)) =~= texts(out@).push(tag@));
            }
        }
        if !found {
            out.push(tag);
        }
        i += 1;
    }
    assert(slice_texts(tags@).take(tags.len() as int) =~= slice_texts(tags@));
    out
}

/// Copies of the given strings, in order.
pub fn clone_strings(v: &Vec<String>) -> (r: Vec<String>)
    ensures
        texts(r@) == texts(v@),
{
    let mut out: Vec<String> = Vec::new();
    let mut i: usize = 0;
    while i < v.len()
        invariant
            i <= v.len(),
            out.len() == i,
            forall|k: int| 0 <= k < i ==> out[k]@ == v[k]@,
        decreases v.len() - i,
    {
        out.push(v[i].clone());
        i += 1;
    }
    assert(texts(out@) =~= texts(v@));
    out
}

/// A name is a path of one segment: itself.
pub proof fn lemma_name_is_one_segment(name: Seq<char>)
    requires
        is_name(name),
    ensures
        segments(name) == seq![name],
{
    lemma_segment_end_is(name, 0, name.len() as int);
    assert(name.subrange(0, name.len() as int) =~= name);
    assert(segments_from(name, name.len() as int) =~= Seq::<Seq<char>>::empty());
    assert(seq![name] + Seq::<Seq<char>>::empty() =~= seq![name]);
}

/// The text that the bytes spell in UTF-8, or `None` where they spell none.
///
/// Trusted: this wraps `String::from_utf8` of the standard library, which hands back a
/// string made of exactly the given bytes where they are valid UTF-8, and an error where
/// they are not.
#[verifier::external_body]
fn text_of_utf8(bytes: Vec<u8>) -> (r: Option<String>)
    ensures
        r matches Some(s) ==> encode_utf8(s@) == bytes@,
        r is None ==> !valid_utf8(bytes@),
{
    String::from_utf8(bytes).ok()
}

/// The text that the bytes spell in UTF-8, telling exactly when there is one.
pub fn text_of(bytes: Vec<u8>) -> (r: Option<String>)
    ensures
        match r {
            Some(s) => valid_utf8(bytes@) && s@ == decode_utf8(bytes@),
            None => !valid_utf8(bytes@),
        },
{
    let r = text_of_utf8(bytes);
    proof {
        if r is Some {
            vstd::utf8::encode_utf8_valid_utf8(r->Some_0@);
            vstd::utf8::encode_utf8_decode_utf8(r->Some_0@);
        }
    }
    r
}

} // verus!
