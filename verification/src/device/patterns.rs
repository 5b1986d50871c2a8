//! Patterns over the tree: finding the nodes that a pattern path names, and creating the
//! ones it spells out.
//!
//! A pattern path is split into segments like a path. Each segment is a glob pattern for the
//! names of one level. When nodes are to be created, a segment with a wildcard (`*`, `?`,
//! `[`) stands for the children that are there and match it; a segment without one stands for
//! the names it expands to, and a child is created for each name that has none.

use super::{
    lemma_child_named_from, lemma_tree_basics, lemma_with_child_ok, notices_of_range, Device, DeviceModel,
    Node, NodeData, NodeModel, Notice, TreeEvent,
};
use crate::pattern::{expand, expansions, glob, is_wild, wild};
use crate::text::{chars_of, is_name, name_ok, segments, split, texts};
use vstd::prelude::*;

verus! {

/// The slots that the handles name, one by one.
pub open spec fn node_ids(v: Seq<Node>) -> Seq<usize> {
    Seq::new(v.len(), |i: int| v[i].id)
}

impl DeviceModel {
    /// The children of `p` among the slots below `n` whose names the pattern matches, in
    /// creation order.
    pub open spec fn children_matching_below(self, p: int, pat: Seq<char>, n: int) -> Seq<usize>
        decreases n,
    {
        if n <= 1 {
            Seq::empty()
        } else if self.is_child(n - 1, p) && glob(pat, self.nodes[n - 1].name) {
            self.children_matching_below(p, pat, n - 1).push((n - 1) as usize)
        } else {
            self.children_matching_below(p, pat, n - 1)
        }
    }

    /// The children of `p` whose names the pattern matches, in creation order.
    pub open spec fn children_matching(self, p: int, pat: Seq<char>) -> Seq<usize> {
        self.children_matching_below(p, pat, self.nodes.len() as int)
    }

    /// The matching children of each of `parents`, parent by parent.
    pub open spec fn level_matching(self, parents: Seq<usize>, pat: Seq<char>) -> Seq<usize>
        decreases parents.len(),
    {
        if parents.len() == 0 {
            Seq::empty()
        } else {
            self.level_matching(parents.drop_last(), pat) + self.children_matching(parents.last() as int, pat)
        }
    }

    /// The nodes reached from `starts` by matching one pattern per level, in tree order:
    /// siblings in creation order, depth first.
    pub open spec fn found(self, starts: Seq<usize>, pats: Seq<Seq<char>>) -> Seq<usize>
        decreases pats.len(),
    {
        if pats.len() == 0 {
            starts
        } else {
            self.found(self.level_matching(starts, pats[0]), pats.drop_first())
        }
    }

    /// The device after a child of `p` was found or created for each of `names` in order,
    /// and those children. A text that is no name is passed over.
    pub open spec fn grown(self, p: int, names: Seq<Seq<char>>) -> (DeviceModel, Seq<usize>)
        decreases names.len(),
    {
        if names.len() == 0 {
            (self, Seq::empty())
        } else {
            let (d, ns) = self.grown(p, names.drop_last());
            let name = names.last();
            if !is_name(name) {
                (d, ns)
            } else {
                match d.child_named(p, name) {
                    Some(c) => (d, ns.push(c as usize)),
                    None => (d.with_child(p, name), ns.push(d.nodes.len() as usize)),
                }
            }
        }
    }

    /// The device after one level of a pattern was worked off under each of `parents`, and
    /// the nodes of the next level: under a wildcard the matching children, else the
    /// children found or created for the expansions of the segment.
    pub open spec fn level_made(self, parents: Seq<usize>, pat: Seq<char>) -> (DeviceModel, Seq<usize>)
        decreases parents.len(),
    {
        if parents.len() == 0 {
            (self, Seq::empty())
        } else {
            let (d, ns) = self.level_made(parents.drop_last(), pat);
            let p = parents.last() as int;
            if !d.live(p) {
                (d, ns)
            } else if is_wild(pat) {
                (d, ns + d.children_matching(p, pat))
            } else {
                let (e, cs) = d.grown(p, expansions(pat));
                (e, ns + cs)
            }
        }
    }

    /// The device after every level of a pattern path was worked off from `starts`, and the
    /// nodes of the last level.
    pub open spec fn made_all(self, starts: Seq<usize>, pats: Seq<Seq<char>>) -> (DeviceModel, Seq<usize>)
        decreases pats.len(),
    {
        if pats.len() == 0 {
            (self, starts)
        } else {
            let (d, next) = self.level_made(starts, pats[0]);
            d.made_all(next, pats.drop_first())
        }
    }
}

/// The matching children below a bound are the children below it, in rising order, whose
/// names the pattern matches: none is left out and none is there that does not belong.
pub proof fn lemma_children_matching(d: DeviceModel, p: int, pat: Seq<char>, n: int)
    requires
        n <= d.nodes.len() <= usize::MAX,
    ensures
        forall|i: int|
            0 <= i < d.children_matching_below(p, pat, n).len() ==> {
                let x = (#[trigger] d.children_matching_below(p, pat, n)[i]) as int;
                1 <= x < n && d.is_child(x, p) && glob(pat, d.nodes[x].name)
            },
        forall|i: int, j: int|
            0 <= i < j < d.children_matching_below(p, pat, n).len() ==> (#[trigger] d.children_matching_below(
                p,
                pat,
                n,
            )[i]) < (#[trigger] d.children_matching_below(p, pat, n)[j]),
        forall|x: int|
            1 <= x < n && d.is_child(x, p) && glob(pat, (#[trigger] d.nodes[x]).name)
                ==> d.children_matching_below(p, pat, n).contains(x as usize),
    decreases n,
{
    if n > 1 {
        lemma_children_matching(d, p, pat, n - 1);
        let pre = d.children_matching_below(p, pat, n - 1);
        let m = d.children_matching_below(p, pat, n);
        let took = d.is_child(n - 1, p) && glob(pat, d.nodes[n - 1].name);
        assert(m == if took { pre.push((n - 1) as usize) } else { pre });
        assert forall|i: int| 0 <= i < m.len() implies {
            let x = (#[trigger] m[i]) as int;
            1 <= x < n && d.is_child(x, p) && glob(pat, d.nodes[x].name)
        } by {
            if i < pre.len() {
                assert(m[i] == pre[i]);
            }
        }
        assert forall|i: int, j: int| 0 <= i < j < m.len() implies (#[trigger] m[i]) < (#[trigger] m[j]) by {
            assert(m[i] == pre[i]);
            if j < pre.len() {
                assert(m[j] == pre[j]);
            }
        }
        assert forall|x: int| 1 <= x < n && d.is_child(x, p) && glob(pat, (#[trigger] d.nodes[x]).name) implies m.contains(
            x as usize,
        ) by {
            if x < n - 1 {
                assert(pre.contains(x as usize));
                let k = choose|k: int| 0 <= k < pre.len() && pre[k] == x as usize;
                assert(m[k] == x as usize);
            } else {
                assert(m[m.len() - 1] == x as usize);
            }
        }
    }
}

/// The nodes that a level of matching finds are live.
pub proof fn lemma_level_matching_live(d: DeviceModel, parents: Seq<usize>, pat: Seq<char>)
    requires
        d.nodes.len() <= usize::MAX,
    ensures
        forall|i: int|
            0 <= i < d.level_matching(parents, pat).len() ==> d.live(
                (#[trigger] d.level_matching(parents, pat)[i]) as int,
            ),
    decreases parents.len(),
{
    if parents.len() > 0 {
        lemma_level_matching_live(d, parents.drop_last(), pat);
        lemma_children_matching(d, parents.last() as int, pat, d.nodes.len() as int);
        let a = d.level_matching(parents.drop_last(), pat);
        let b = d.children_matching(parents.last() as int, pat);
        let all = d.level_matching(parents, pat);
        assert(all == a + b);
        assert forall|i: int| 0 <= i < all.len() implies d.live((#[trigger] all[i]) as int) by {
            if i < a.len() {
                assert(all[i] == a[i]);
            } else {
                assert(all[i] == b[i - a.len()]);
                let x = b[i - a.len()] as int;
                assert(d.is_child(x, parents.last() as int));
            }
        }
    }
}

impl Device {
    /// Appends the children of `p` whose names the pattern matches.
    fn matching_children(&self, p: usize, pat: &Vec<char>, out: &mut Vec<usize>)
        requires
            self.wf(),
        ensures
            final(out)@ == old(out)@ + self@.children_matching(p as int, pat@),
    {
        proof {
            lemma_tree_basics(self@);
        }
        let mut i: usize = 1;
        assert(old(out)@ + self@.children_matching_below(p as int, pat@, 1) =~= old(out)@);
        while i < self.nodes.len()
            invariant
                1 <= i <= self.nodes.len(),
                out@ == old(out)@ + self@.children_matching_below(p as int, pat@, i as int),
            decreases self.nodes.len() - i,
        {
            let ghost before = self@.children_matching_below(p as int, pat@, i as int);
            if self.nodes[i].alive && self.nodes[i].parent == p {
                let name = chars_of(self.nodes[i].name.as_str());
                if crate::pattern::matches(pat, &name) {
                    out.push(i);
                    assert(old(out)@ + before.push(i) =~= (old(out)@ + before).push(i));
                }
            }
            i += 1;
        }
    }

    /// The matching children of each of `parents`, parent by parent.
    fn level(&self, parents: &Vec<usize>, pat: &Vec<char>) -> (r: Vec<usize>)
        requires
            self.wf(),
        ensures
            r@ == self@.level_matching(parents@, pat@),
    {
        let mut out: Vec<usize> = Vec::new();
        let mut k: usize = 0;
        assert(parents@.take(0) =~= Seq::<usize>::empty());
        while k < parents.len()
            invariant
                k <= parents.len(),
                self.wf(),
                out@ == self@.level_matching(parents@.take(k as int), pat@),
            decreases parents.len() - k,
        {
            proof {
                assert(parents@.take(k + 1).drop_last() =~= parents@.take(k as int));
            }
            self.matching_children(parents[k], pat, &mut out);
            k += 1;
        }
        assert(parents@.take(parents.len() as int) =~= parents@);
        out
    }

    /// Finds or creates a child of `p` for each of `names`, and appends those children.
    fn grow(&mut self, p: usize, names: &Vec<String>, out: &mut Vec<usize>)
        requires
            old(self).wf(),
            old(self)@.live(p as int),
        ensures
            final(self).wf(),
            final(self)@.live(p as int),
            (final(self)@, final(out)@) == ({
                let (d, ns) = old(self)@.grown(p as int, texts(names@));
                (d, old(out)@ + ns)
            }),
            final(self)@.created == old(self)@.created,
            final(self)@.nodes.len() >= old(self)@.nodes.len(),
            forall|x: int| old(self)@.live(x) ==> final(self)@.live(x),
            forall|i: int| old(out)@.len() <= i < final(out)@.len() ==> final(self)@.live(#[trigger] final(out)@[i] as int),
    {
        let ghost all = texts(names@);
        let ghost start = self@;
        let mut k: usize = 0;
        assert(all.take(0) =~= Seq::<Seq<char>>::empty());
        assert(old(out)@ + Seq::<usize>::empty() =~= old(out)@);
        while k < names.len()
            invariant
                k <= names.len(),
                all == texts(names@),
                self.wf(),
                self@.live(p as int),
                (self@, out@) == ({
                    let (d, ns) = start.grown(p as int, all.take(k as int));
                    (d, old(out)@ + ns)
                }),
                self@.created == start.created,
                self@.nodes.len() >= start.nodes.len(),
                forall|x: int| start.live(x) ==> self@.live(x),
                out@.len() >= old(out)@.len(),
                forall|i: int| old(out)@.len() <= i < out@.len() ==> self@.live(#[trigger] out@[i] as int),
            decreases names.len() - k,
        {
            let ghost (d, ns) = start.grown(p as int, all.take(k as int));
            proof {
                assert(all.take(k + 1).drop_last() =~= all.take(k as int));
                assert(all.take(k + 1).last() == names[k as int]@);
                lemma_child_named_from(self@, p as int, names[k as int]@, 1);
            }
            if name_ok(names[k].as_str()) {
                match self.child_index(p, &names[k]) {
                    Some(c) => {
                        out.push(c);
                        assert(old(out)@ + ns.push(c) =~= (old(out)@ + ns).push(c));
                    },
                    None => {
                        let c = self.nodes.len();
                        let ghost prev = self@;
                        proof {
                            lemma_with_child_ok(self@, p as int, names[k as int]@);
                        }
                        self.nodes.push(NodeData::fresh(p, names[k].clone()));
                        assert(self@.nodes =~= prev.nodes.push(NodeModel::fresh(p as int, names[k as int]@)));
                        assert(self@ == prev.with_child(p as int, names[k as int]@));
                        out.push(c);
                        assert(old(out)@ + ns.push(c) =~= (old(out)@ + ns).push(c));
                        assert forall|x: int| prev.live(x) implies self@.live(x) by {
                            assert(self@.nodes[x] == prev.nodes[x]);
                        }
                    },
                }
            }
            k += 1;
        }
        assert(all.take(names.len() as int) =~= all);
    }

    /// Works one level of a pattern off under each of `parents`.
    fn make_level(&mut self, parents: &Vec<usize>, segment: &String) -> (r: Vec<usize>)
        requires
            old(self).wf(),
        ensures
            final(self).wf(),
            (final(self)@, r@) == old(self)@.level_made(parents@, segment@),
            final(self)@.created == old(self)@.created,
            final(self)@.nodes.len() >= old(self)@.nodes.len(),
            forall|i: int| 0 <= i < r@.len() ==> final(self)@.live(#[trigger] r@[i] as int),
    {
        let pat = chars_of(segment.as_str());
        let is_wild = wild(&pat);
        let names = if is_wild {
            Vec::new()
        } else {
            expand(segment.as_str())
        };
        let ghost start = self@;
        let mut out: Vec<usize> = Vec::new();
        let mut k: usize = 0;
        assert(parents@.take(0) =~= Seq::<usize>::empty());
        while k < parents.len()
            invariant
                k <= parents.len(),
                self.wf(),
                pat@ == segment@,
                is_wild == crate::pattern::is_wild(pat@),
                !is_wild ==> texts(names@) == expansions(pat@),
                (self@, out@) == start.level_made(parents@.take(k as int), pat@),
                self@.created == start.created,
                self@.nodes.len() >= start.nodes.len(),
                forall|i: int| 0 <= i < out@.len() ==> self@.live(#[trigger] out@[i] as int),
            decreases parents.len() - k,
        {
            proof {
                assert(parents@.take(k + 1).drop_last() =~= parents@.take(k as int));
            }
            let p = parents[k];
            if self.contains(Node { id: p }) {
                if is_wild {
                    let ghost before = out@;
                    self.matching_children(p, &pat, &mut out);
                    proof {
                        assert(self@.nodes.len() == self.nodes.len());
                        lemma_children_matching(self@, p as int, pat@, self@.nodes.len() as int);
                        let m = self@.children_matching(p as int, pat@);
                        assert forall|i: int| 0 <= i < out@.len() implies self@.live(#[trigger] out@[i] as int) by {
                            if i >= before.len() {
                                assert(out@[i] == m[i - before.len()]);
                            } else {
                                assert(out@[i] == before[i]);
                            }
                        }
                    }
                } else {
                    let ghost before = out@;
                    self.grow(p, &names, &mut out);
                    proof {
                        assert forall|i: int| 0 <= i < out@.len() implies self@.live(#[trigger] out@[i] as int) by {
                            if i < before.len() {
                                assert(out@[i] == before[i]);
                            }
                        }
                    }
                }
            }
            k += 1;
        }
        assert(parents@.take(parents.len() as int) =~= parents@);
        out
    }
}

/// Handles for the given slots, one by one.
fn handles(ids: &Vec<usize>) -> (r: Vec<Node>)
    ensures
        node_ids(r@) == ids@,
{
    let mut out: Vec<Node> = Vec::new();
    let mut i: usize = 0;
    while i < ids.len()
        invariant
            i <= ids.len(),
            out.len() == i,
            forall|k: int| 0 <= k < i ==> out[k].id == ids[k],
        decreases ids.len() - i,
    {
        out.push(Node { id: ids[i] });
        i += 1;
    }
    assert(node_ids(out@) =~= ids@);
    out
}

impl Node {
    /// The nodes that the pattern path names from this node, in tree order: siblings in
    /// creation order, depth first. Empty where nothing matches, and for a handle of no
    /// live node.
    pub fn find_pattern(&self, device: &Device, pattern: &str) -> (r: Vec<Node>)
        requires
            device.wf(),
        ensures
            node_ids(r@) == if device@.live(self.id as int) {
                device@.found(seq![self.id], segments(pattern@))
            } else {
                Seq::empty()
            },
    {
        if !device.contains(*self) {
            let r: Vec<Node> = Vec::new();
            assert(node_ids(r@) =~= Seq::<usize>::empty());
            return r;
        }
        let segs = split(pattern);
        let ghost all = texts(segs@);
        let mut cur: Vec<usize> = vec![self.id];
        let mut i: usize = 0;
        assert(all.skip(0) =~= all);
        assert(cur@ =~= seq![self.id]);
        while i < segs.len()
            invariant
                i <= segs.len(),
                device.wf(),
                all == texts(segs@),
                device@.found(cur@, all.skip(i as int)) == device@.found(seq![self.id], all),
            decreases segs.len() - i,
        {
            proof {
                assert(all.skip(i as int)[0] == segs[i as int]@);
                assert(all.skip(i as int).drop_first() =~= all.skip(i + 1));
            }
            let pat = chars_of(segs[i].as_str());
            cur = device.level(&cur, &pat);
            i += 1;
        }
        assert(all.skip(segs.len() as int) =~= Seq::<Seq<char>>::empty());
        handles(&cur)
    }

    /// Works the pattern path off from this node, level by level, and returns the nodes of
    /// its last level with the notices owed to the subscribers of node creation, one for
    /// each node created, in order of creation.
    ///
    /// A segment with a wildcard stands for the children that are there and match it, in
    /// creation order. A segment without one stands for the names it expands to: for each,
    /// the child of that name, created where there was none. For a handle of no live node
    /// nothing is found and nothing changes.
    pub fn from_pattern(&self, device: &mut Device, pattern: &str) -> (r: (Vec<Node>, Vec<Notice>))
        requires
            old(device).wf(),
        ensures
            final(device).wf(),
            (final(device)@, node_ids(r.0@)) == if old(device)@.live(self.id as int) {
                old(device)@.made_all(seq![self.id], segments(pattern@))
            } else {
                (old(device)@, Seq::empty())
            },
            r.1@ == notices_of_range(
                TreeEvent::NodeCreated,
                old(device)@.created.tokens,
                old(device)@.nodes.len() as int,
                final(device)@.nodes.len() as int,
            ),
    {
        let before = device.nodes.len();
        if !device.contains(*self) {
            let r: Vec<Node> = Vec::new();
            assert(node_ids(r@) =~= Seq::<usize>::empty());
            let notices = device.notices(TreeEvent::NodeCreated, before, before);
            return (r, notices);
        }
        let segs = split(pattern);
        let ghost all = texts(segs@);
        let ghost start = device@;
        let mut cur: Vec<usize> = vec![self.id];
        let mut i: usize = 0;
        assert(all.skip(0) =~= all);
        assert(cur@ =~= seq![self.id]);
        while i < segs.len()
            invariant
                i <= segs.len(),
                device.wf(),
                all == texts(segs@),
                device@.made_all(cur@, all.skip(i as int)) == start.made_all(seq![self.id], all),
                device@.created == start.created,
                device@.nodes.len() >= start.nodes.len(),
            decreases segs.len() - i,
        {
            proof {
                assert(all.skip(i as int)[0] == segs[i as int]@);
                assert(all.skip(i as int).drop_first() =~= all.skip(i + 1));
            }
            cur = device.make_level(&cur, &segs[i]);
            i += 1;
        }
        assert(all.skip(segs.len() as int) =~= Seq::<Seq<char>>::empty());
        let notices = device.notices(TreeEvent::NodeCreated, before, device.nodes.len());
        (handles(&cur), notices)
    }
}

/// A pattern of one segment with a wildcard creates nothing and gives exactly the children
/// that are there and match it, in creation order: each such child once, and nothing else.
pub proof fn lemma_wildcard_gives_matching_children(d: DeviceModel, n: usize, pat: Seq<char>)
    requires
        d.live(n as int),
        d.nodes.len() <= usize::MAX,
        is_name(pat),
        is_wild(pat),
    ensures
        d.made_all(seq![n], segments(pat)) == (d, d.children_matching(n as int, pat)),
        d.found(seq![n], segments(pat)) == d.children_matching(n as int, pat),
        forall|i: int|
            0 <= i < d.children_matching(n as int, pat).len() ==> {
                let x = (#[trigger] d.children_matching(n as int, pat)[i]) as int;
                d.is_child(x, n as int) && glob(pat, d.nodes[x].name)
            },
        forall|i: int, j: int|
            0 <= i < j < d.children_matching(n as int, pat).len() ==> (#[trigger] d.children_matching(
                n as int,
                pat,
            )[i]) < (#[trigger] d.children_matching(n as int, pat)[j]),
        forall|x: int|
            d.is_child(x, n as int) && glob(pat, (#[trigger] d.nodes[x]).name) ==> d.children_matching(
                n as int,
                pat,
            ).contains(x as usize),
{
    crate::text::lemma_name_is_one_segment(pat);
    lemma_children_matching(d, n as int, pat, d.nodes.len() as int);
    let starts = seq![n];
    let pats = seq![pat];
    let m = d.children_matching(n as int, pat);
    assert(starts.drop_last() =~= Seq::<usize>::empty());
    assert(starts.last() == n);
    assert(pats.drop_first() =~= Seq::<Seq<char>>::empty());
    assert(d.level_made(starts.drop_last(), pat) == (d, Seq::<usize>::empty()));
    assert(Seq::<usize>::empty() + m =~= m);
    assert(d.level_made(starts, pat) == (d, m));
    assert(d.level_matching(starts.drop_last(), pat) == Seq::<usize>::empty());
    assert(d.level_matching(starts, pat) == m);
    assert(d.made_all(m, pats.drop_first()) == (d, m));
    assert(d.found(m, pats.drop_first()) == m);
}

} // verus!
