//! Operations on the nodes of a device.

use super::{
    lemma_child_named_from, lemma_tree_basics, lemma_walk_live, lemma_with_child_ok, lemma_with_node_ok,
    notices_about, notices_of_range, Device, DeviceModel, Node, NodeData, NodeModel, Notice, TreeEvent,
};
use crate::float::{Double, Float};
use crate::text::{clone_strings, distinct, joined, lemma_segments_are_names, slice_texts, unique};
use crate::value::Value;
use crate::domain::opt_model;
use crate::error::Error;
use crate::text::{is_name, segments, split, texts};
use vstd::prelude::*;
use vstd::string::StringExecFns;

verus! {

impl Device {
    /// The child of `p` that bears `name`.
    pub(crate) fn child_index(&self, p: usize, name: &String) -> (r: Option<usize>)
        ensures
            match r {
                Some(c) => self@.child_named(p as int, name@) == Some(c as int) && c < self@.nodes.len(),
                None => self@.child_named(p as int, name@) is None,
            },
    {
        let mut i: usize = 1;
        while i < self.nodes.len()
            invariant
                1 <= i,
                self@.child_named(p as int, name@) == self@.child_named_from(p as int, name@, i as int),
            decreases self.nodes.len() - i,
        {
            if self.nodes[i].alive && self.nodes[i].parent == p && self.nodes[i].name == *name {
                return Some(i);
            }
            i += 1;
        }
        None
    }

    /// The node reached from `start` by following the names in order.
    pub(crate) fn walk_from(&self, start: usize, names: &Vec<String>) -> (r: Option<usize>)
        ensures
            match r {
                Some(n) => self@.walk(start as int, texts(names@)) == Some(n as int),
                None => self@.walk(start as int, texts(names@)) is None,
            },
    {
        let ghost all = texts(names@);
        let mut cur: usize = start;
        let mut i: usize = 0;
        assert(all.skip(0) =~= all);
        while i < names.len()
            invariant
                i <= names.len(),
                all == texts(names@),
                self@.walk(start as int, all) == self@.walk(cur as int, all.skip(i as int)),
            decreases names.len() - i,
        {
            proof {
                assert(all.skip(i as int)[0] == names[i as int]@);
                assert(all.skip(i as int).drop_first() =~= all.skip(i + 1));
            }
            match self.child_index(cur, &names[i]) {
                Some(c) => {
                    cur = c;
                },
                None => {
                    return None;
                },
            }
            i += 1;
        }
        Some(cur)
    }

    /// The notices about the slots `from..to` to the subscribers of `event`.
    pub(crate) fn notices(&self, event: TreeEvent, from: usize, to: usize) -> (r: Vec<Notice>)
        ensures
            r@ == notices_of_range(event, self@.subscribers(event).tokens, from as int, to as int),
    {
        let tokens = match event {
            TreeEvent::NodeCreated => self.created.tokens(),
            TreeEvent::NodeRemoving => self.removing.tokens(),
            TreeEvent::ParameterDeleting => self.deleting.tokens(),
        };
        let mut out: Vec<Notice> = Vec::new();
        let mut n: usize = from;
        while n < to
            invariant
                from <= n <= to || to < from,
                to < from ==> n == from,
                tokens@ == self@.subscribers(event).tokens,
                out@ == notices_of_range(event, tokens@, from as int, n as int),
            decreases to - n,
        {
            let mut k: usize = 0;
            let ghost before = out@;
            while k < tokens.len()
                invariant
                    k <= tokens.len(),
                    out@ == before + notices_about(event, tokens@, n as int).take(k as int),
                decreases tokens.len() - k,
            {
                proof {
                    let all = notices_about(event, tokens@, n as int);
                    assert(all.take(k + 1) =~= all.take(k as int).push(all[k as int]));
                    assert(before + all.take(k as int).push(all[k as int]) =~= (before + all.take(
                        k as int,
                    )).push(all[k as int]));
                }
                out.push(Notice { callback: event.callback(tokens[k]), node: Node { id: n } });
                k += 1;
            }
            proof {
                let all = notices_about(event, tokens@, n as int);
                assert(all.take(tokens.len() as int) =~= all);
            }
            n += 1;
        }
        out
    }
}

impl Node {
    /// The name of the node, or `NotFound` for a handle of no live node.
    pub fn name(&self, device: &Device) -> (r: Result<String, Error>)
        ensures
            match r {
                Ok(s) => device@.live(self.id as int) && s@ == device@.nodes[self.id as int].name,
                Err(e) => e == Error::NotFound && !device@.live(self.id as int),
            },
    {
        if !device.contains(*self) {
            return Err(Error::NotFound);
        }
        Ok(device.nodes[self.id].name.clone())
    }

    /// The parent of the node. `None` for the root and for a handle of no live node.
    pub fn parent(&self, device: &Device) -> (r: Option<Node>)
        ensures
            match r {
                Some(p) => device@.live(self.id as int) && self.id != 0 && p.id
                    == device@.nodes[self.id as int].parent,
                None => !device@.live(self.id as int) || self.id == 0,
            },
    {
        if !device.contains(*self) || self.id == 0 {
            return None;
        }
        Some(Node { id: device.nodes[self.id].parent })
    }

    /// The child that bears `name`, or `None` where there is none.
    pub fn find_child(&self, device: &Device, name: &str) -> (r: Option<Node>)
        ensures
            match r {
                Some(c) => device@.child_named(self.id as int, name@) == Some(c.id as int),
                None => device@.child_named(self.id as int, name@) is None,
            },
    {
        let owned = name.to_owned();
        match device.child_index(self.id, &owned) {
            Some(c) => Some(Node { id: c }),
            None => None,
        }
    }

    /// The number of children, or `NotFound` for a handle of no live node.
    pub fn num_children(&self, device: &Device) -> (r: Result<usize, Error>)
        ensures
            match r {
                Ok(n) => device@.live(self.id as int) && n == device@.children(self.id as int).len(),
                Err(e) => e == Error::NotFound && !device@.live(self.id as int),
            },
    {
        if !device.contains(*self) {
            return Err(Error::NotFound);
        }
        let mut count: usize = 0;
        let mut i: usize = 1;
        while i < device.nodes.len()
            invariant
                1 <= i <= device.nodes.len(),
                count == device@.children_below(self.id as int, i as int).len(),
                count < i,
            decreases device.nodes.len() - i,
        {
            if device.nodes[i].alive && device.nodes[i].parent == self.id {
                count += 1;
            }
            i += 1;
        }
        Ok(count)
    }

    /// The child at position `idx` in creation order, or `None` where there is none.
    pub fn child(&self, device: &Device, idx: usize) -> (r: Option<Node>)
        requires
            device.wf(),
        ensures
            match r {
                Some(c) => idx < device@.children(self.id as int).len() && c.id == device@.children(
                    self.id as int,
                )[idx as int],
                None => idx >= device@.children(self.id as int).len(),
            },
    {
        let mut count: usize = 0;
        let mut i: usize = 1;
        proof {
            super::lemma_tree_basics(device@);
            assert forall|k: int| 1 <= k <= device.nodes.len() implies #[trigger] device@.children_below(
                self.id as int,
                k,
            ).take(0) == device@.children_below(self.id as int, 1) by {
                assert(device@.children_below(self.id as int, k).take(0) =~= Seq::<int>::empty());
            }
        }
        while i < device.nodes.len()
            invariant
                1 <= i <= device.nodes.len(),
                count == device@.children_below(self.id as int, i as int).len(),
                count < i,
                count <= idx,
                forall|k: int| i <= k <= device.nodes.len() ==> #[trigger] device@.children_below(self.id as int, k).take(
                    count as int,
                ) == device@.children_below(self.id as int, i as int),
            decreases device.nodes.len() - i,
        {
            if device.nodes[i].alive && device.nodes[i].parent == self.id {
                if count == idx {
                    proof {
                        let d = device@;
                        let p = self.id as int;
                        lemma_children_grow(d, p, i + 1, d.nodes.len() as int);
                        assert(d.children_below(p, i + 1) == d.children_below(p, i as int).push(i as int));
                        assert(d.children_below(p, i + 1)[idx as int] == i);
                        assert(d.children(p).take(idx + 1)[idx as int] == d.children(p)[idx as int]);
                    }
                    return Some(Node { id: i });
                }
                count += 1;
            }
            proof {
                assert forall|k: int| i + 1 <= k <= device.nodes.len() implies #[trigger] device@.children_below(
                    self.id as int,
                    k,
                ).take(count as int) == device@.children_below(self.id as int, i + 1) by {
                    lemma_children_grow(device@, self.id as int, i + 1, k);
                }
            }
            i += 1;
        }
        None
    }

    /// The node that `path` leads to from this node, or `None` where a name on the way is
    /// missing.
    pub fn find(&self, device: &Device, path: &str) -> (r: Option<Node>)
        ensures
            match r {
                Some(n) => device@.walk(self.id as int, segments(path@)) == Some(n.id as int),
                None => device@.walk(self.id as int, segments(path@)) is None,
            },
    {
        let names = split(path);
        match device.walk_from(self.id, &names) {
            Some(n) => Some(Node { id: n }),
            None => None,
        }
    }

}

/// The slots of `d` with the nodes at or below `root` dead among the slots below `i`.
pub open spec fn removed_below(d: DeviceModel, root: int, i: int) -> Seq<NodeModel> {
    Seq::new(
        d.nodes.len(),
        |k: int|
            if k < i && d.in_subtree(k, root) {
                NodeModel { alive: false, ..d.nodes[k] }
            } else {
                d.nodes[k]
            },
    )
}

/// The children below a bound are a prefix of the children below any greater bound.
pub proof fn lemma_children_grow(d: DeviceModel, p: int, a: int, b: int)
    requires
        a <= b,
    ensures
        d.children_below(p, a).len() <= d.children_below(p, b).len(),
        d.children_below(p, b).take(d.children_below(p, a).len() as int) == d.children_below(p, a),
    decreases b - a,
{
    if a < b {
        lemma_children_grow(d, p, a, b - 1);
        let small = d.children_below(p, a);
        let mid = d.children_below(p, b - 1);
        if b > 1 && d.is_child(b - 1, p) {
            assert(mid.push(b - 1).take(small.len() as int) =~= mid.take(small.len() as int));
        }
    } else {
        assert(d.children_below(p, a).take(d.children_below(p, a).len() as int) =~= d.children_below(p, a));
    }
}

impl Node {
    /// The description of the node, or `NotFound` for a handle of no live node.
    pub fn description(&self, device: &Device) -> (r: Result<String, Error>)
        ensures
            match r {
                Ok(v) => device@.live(self.id as int) && v@ == device@.nodes[self.id as int].description,
                Err(e) => e == Error::NotFound && !device@.live(self.id as int),
            },
    {
        if !device.contains(*self) {
            return Err(Error::NotFound);
        }
        Ok(device.nodes[self.id].description.clone())
    }

    /// Replaces the description. `NotFound`, and no change, for a handle of no live node.
    pub fn set_description(&self, device: &mut Device, desc: &str) -> (r: Result<(), Error>)
        requires
            old(device).wf(),
        ensures
            final(device).wf(),
            match r {
                Ok(_) => old(device)@.live(self.id as int) && final(device)@ == old(device)@.with_node(
                    self.id as int,
                    NodeModel { description: desc@, ..old(device)@.nodes[self.id as int] },
                ),
                Err(e) => e == Error::NotFound && !old(device)@.live(self.id as int) && final(device)@ == old(
                    device,
                )@,
            },
    {
        if !device.contains(*self) {
            return Err(Error::NotFound);
        }
        let ghost target = NodeModel { description: desc@, ..device@.nodes[self.id as int] };
        proof {
            lemma_tree_basics(device@);
            lemma_with_node_ok(device@, self.id as int, target);
        }
        device.nodes[self.id].description = desc.to_owned();
        assert(device@.nodes =~= old(device)@.nodes.update(self.id as int, target));
        assert(device@ == old(device)@.with_node(self.id as int, target));
        Ok(())
    }

    /// The extended type of the node, empty while unset, or `NotFound` for a handle of no live node.
    pub fn extended_type(&self, device: &Device) -> (r: Result<String, Error>)
        ensures
            match r {
                Ok(v) => device@.live(self.id as int) && v@ == device@.nodes[self.id as int].extended_type,
                Err(e) => e == Error::NotFound && !device@.live(self.id as int),
            },
    {
        if !device.contains(*self) {
            return Err(Error::NotFound);
        }
        Ok(device.nodes[self.id].extended_type.clone())
    }

    /// Replaces the extended type. `NotFound`, and no change, for a handle of no live node.
    pub fn set_extended_type(&self, device: &mut Device, ext_type: &str) -> (r: Result<(), Error>)
        requires
            old(device).wf(),
        ensures
            final(device).wf(),
            match r {
                Ok(_) => old(device)@.live(self.id as int) && final(device)@ == old(device)@.with_node(
                    self.id as int,
                    NodeModel { extended_type: ext_type@, ..old(device)@.nodes[self.id as int] },
                ),
                Err(e) => e == Error::NotFound && !old(device)@.live(self.id as int) && final(device)@ == old(
                    device,
                )@,
            },
    {
        if !device.contains(*self) {
            return Err(Error::NotFound);
        }
        let ghost target = NodeModel { extended_type: ext_type@, ..device@.nodes[self.id as int] };
        proof {
            lemma_tree_basics(device@);
            lemma_with_node_ok(device@, self.id as int, target);
        }
        device.nodes[self.id].extended_type = ext_type.to_owned();
        assert(device@.nodes =~= old(device)@.nodes.update(self.id as int, target));
        assert(device@ == old(device)@.with_node(self.id as int, target));
        Ok(())
    }

    /// The tags of the node, each once, in the order they were first given, or `NotFound` for a handle of no live node.
    pub fn tags(&self, device: &Device) -> (r: Result<Vec<String>, Error>)
        ensures
            match r {
                Ok(v) => device@.live(self.id as int) && texts(v@) == device@.nodes[self.id as int].tags,
                Err(e) => e == Error::NotFound && !device@.live(self.id as int),
            },
    {
        if !device.contains(*self) {
            return Err(Error::NotFound);
        }
        Ok(clone_strings(&device.nodes[self.id].tags))
    }

    /// Replaces the tags by the distinct ones among `tags`, in order of first occurrence. `NotFound`, and no change, for a handle of no live node.
    pub fn set_tags(&self, device: &mut Device, tags: &[&str]) -> (r: Result<(), Error>)
        requires
            old(device).wf(),
        ensures
            final(device).wf(),
            match r {
                Ok(_) => old(device)@.live(self.id as int) && final(device)@ == old(device)@.with_node(
                    self.id as int,
                    NodeModel { tags: distinct(slice_texts(tags@)), ..old(device)@.nodes[self.id as int] },
                ),
                Err(e) => e == Error::NotFound && !old(device)@.live(self.id as int) && final(device)@ == old(
                    device,
                )@,
            },
    {
        if !device.contains(*self) {
            return Err(Error::NotFound);
        }
        let fresh = unique(tags);
        let ghost target = NodeModel { tags: distinct(slice_texts(tags@)), ..device@.nodes[self.id as int] };
        proof {
            lemma_tree_basics(device@);
            lemma_with_node_ok(device@, self.id as int, target);
        }
        device.nodes[self.id].tags = fresh;
        assert(device@.nodes =~= old(device)@.nodes.update(self.id as int, target));
        assert(device@ == old(device)@.with_node(self.id as int, target));
        Ok(())
    }

    /// Whether the node is hidden, or `NotFound` for a handle of no live node.
    pub fn hidden(&self, device: &Device) -> (r: Result<bool, Error>)
        ensures
            match r {
                Ok(v) => device@.live(self.id as int) && v == device@.nodes[self.id as int].hidden,
                Err(e) => e == Error::NotFound && !device@.live(self.id as int),
            },
    {
        if !device.contains(*self) {
            return Err(Error::NotFound);
        }
        Ok(device.nodes[self.id].hidden)
    }

    /// Marks the node hidden or not. `NotFound`, and no change, for a handle of no live node.
    pub fn set_hidden(&self, device: &mut Device, hidden: bool) -> (r: Result<(), Error>)
        requires
            old(device).wf(),
        ensures
            final(device).wf(),
            match r {
                Ok(_) => old(device)@.live(self.id as int) && final(device)@ == old(device)@.with_node(
                    self.id as int,
                    NodeModel { hidden: hidden, ..old(device)@.nodes[self.id as int] },
                ),
                Err(e) => e == Error::NotFound && !old(device)@.live(self.id as int) && final(device)@ == old(
                    device,
                )@,
            },
    {
        if !device.contains(*self) {
            return Err(Error::NotFound);
        }
        let ghost target = NodeModel { hidden: hidden, ..device@.nodes[self.id as int] };
        proof {
            lemma_tree_basics(device@);
            lemma_with_node_ok(device@, self.id as int, target);
        }
        device.nodes[self.id].hidden = hidden;
        assert(device@.nodes =~= old(device)@.nodes.update(self.id as int, target));
        assert(device@ == old(device)@.with_node(self.id as int, target));
        Ok(())
    }

    /// The refresh rate, if one is set, or `NotFound` for a handle of no live node.
    pub fn refresh_rate(&self, device: &Device) -> (r: Result<Option<i32>, Error>)
        ensures
            match r {
                Ok(v) => device@.live(self.id as int) && v == device@.nodes[self.id as int].refresh_rate,
                Err(e) => e == Error::NotFound && !device@.live(self.id as int),
            },
    {
        if !device.contains(*self) {
            return Err(Error::NotFound);
        }
        Ok(device.nodes[self.id].refresh_rate)
    }

    /// Sets the refresh rate. `NotFound`, and no change, for a handle of no live node.
    pub fn set_refresh_rate(&self, device: &mut Device, rate: i32) -> (r: Result<(), Error>)
        requires
            old(device).wf(),
        ensures
            final(device).wf(),
            match r {
                Ok(_) => old(device)@.live(self.id as int) && final(device)@ == old(device)@.with_node(
                    self.id as int,
                    NodeModel { refresh_rate: Some(rate), ..old(device)@.nodes[self.id as int] },
                ),
                Err(e) => e == Error::NotFound && !old(device)@.live(self.id as int) && final(device)@ == old(
                    device,
                )@,
            },
    {
        if !device.contains(*self) {
            return Err(Error::NotFound);
        }
        let ghost target = NodeModel { refresh_rate: Some(rate), ..device@.nodes[self.id as int] };
        proof {
            lemma_tree_basics(device@);
            lemma_with_node_ok(device@, self.id as int, target);
        }
        device.nodes[self.id].refresh_rate = Some(rate);
        assert(device@.nodes =~= old(device)@.nodes.update(self.id as int, target));
        assert(device@ == old(device)@.with_node(self.id as int, target));
        Ok(())
    }

    /// Clears the refresh rate. `NotFound`, and no change, for a handle of no live node.
    pub fn unset_refresh_rate(&self, device: &mut Device) -> (r: Result<(), Error>)
        requires
            old(device).wf(),
        ensures
            final(device).wf(),
            match r {
                Ok(_) => old(device)@.live(self.id as int) && final(device)@ == old(device)@.with_node(
                    self.id as int,
                    NodeModel { refresh_rate: None, ..old(device)@.nodes[self.id as int] },
                ),
                Err(e) => e == Error::NotFound && !old(device)@.live(self.id as int) && final(device)@ == old(
                    device,
                )@,
            },
    {
        if !device.contains(*self) {
            return Err(Error::NotFound);
        }
        let ghost target = NodeModel { refresh_rate: None, ..device@.nodes[self.id as int] };
        proof {
            lemma_tree_basics(device@);
            lemma_with_node_ok(device@, self.id as int, target);
        }
        device.nodes[self.id].refresh_rate = None;
        assert(device@.nodes =~= old(device)@.nodes.update(self.id as int, target));
        assert(device@ == old(device)@.with_node(self.id as int, target));
        Ok(())
    }

    /// The priority, if one is set, or `NotFound` for a handle of no live node.
    pub fn priority(&self, device: &Device) -> (r: Result<Option<Float>, Error>)
        ensures
            match r {
                Ok(v) => device@.live(self.id as int) && v == device@.nodes[self.id as int].priority,
                Err(e) => e == Error::NotFound && !device@.live(self.id as int),
            },
    {
        if !device.contains(*self) {
            return Err(Error::NotFound);
        }
        Ok(device.nodes[self.id].priority)
    }

    /// Sets the priority. `NotFound`, and no change, for a handle of no live node.
    pub fn set_priority(&self, device: &mut Device, priority: Float) -> (r: Result<(), Error>)
        requires
            old(device).wf(),
        ensures
            final(device).wf(),
            match r {
                Ok(_) => old(device)@.live(self.id as int) && final(device)@ == old(device)@.with_node(
                    self.id as int,
                    NodeModel { priority: Some(priority), ..old(device)@.nodes[self.id as int] },
                ),
                Err(e) => e == Error::NotFound && !old(device)@.live(self.id as int) && final(device)@ == old(
                    device,
                )@,
            },
    {
        if !device.contains(*self) {
            return Err(Error::NotFound);
        }
        let ghost target = NodeModel { priority: Some(priority), ..device@.nodes[self.id as int] };
        proof {
            lemma_tree_basics(device@);
            lemma_with_node_ok(device@, self.id as int, target);
        }
        device.nodes[self.id].priority = Some(priority);
        assert(device@.nodes =~= old(device)@.nodes.update(self.id as int, target));
        assert(device@ == old(device)@.with_node(self.id as int, target));
        Ok(())
    }

    /// Clears the priority. `NotFound`, and no change, for a handle of no live node.
    pub fn unset_priority(&self, device: &mut Device) -> (r: Result<(), Error>)
        requires
            old(device).wf(),
        ensures
            final(device).wf(),
            match r {
                Ok(_) => old(device)@.live(self.id as int) && final(device)@ == old(device)@.with_node(
                    self.id as int,
                    NodeModel { priority: None, ..old(device)@.nodes[self.id as int] },
                ),
                Err(e) => e == Error::NotFound && !old(device)@.live(self.id as int) && final(device)@ == old(
                    device,
                )@,
            },
    {
        if !device.contains(*self) {
            return Err(Error::NotFound);
        }
        let ghost target = NodeModel { priority: None, ..device@.nodes[self.id as int] };
        proof {
            lemma_tree_basics(device@);
            lemma_with_node_ok(device@, self.id as int, target);
        }
        device.nodes[self.id].priority = None;
        assert(device@.nodes =~= old(device)@.nodes.update(self.id as int, target));
        assert(device@ == old(device)@.with_node(self.id as int, target));
        Ok(())
    }

    /// The step size, if one is set, or `NotFound` for a handle of no live node.
    pub fn step_size(&self, device: &Device) -> (r: Result<Option<Double>, Error>)
        ensures
            match r {
                Ok(v) => device@.live(self.id as int) && v == device@.nodes[self.id as int].step_size,
                Err(e) => e == Error::NotFound && !device@.live(self.id as int),
            },
    {
        if !device.contains(*self) {
            return Err(Error::NotFound);
        }
        Ok(device.nodes[self.id].step_size)
    }

    /// Sets the step size. `NotFound`, and no change, for a handle of no live node.
    pub fn set_step_size(&self, device: &mut Device, step_size: Double) -> (r: Result<(), Error>)
        requires
            old(device).wf(),
        ensures
            final(device).wf(),
            match r {
                Ok(_) => old(device)@.live(self.id as int) && final(device)@ == old(device)@.with_node(
                    self.id as int,
                    NodeModel { step_size: Some(step_size), ..old(device)@.nodes[self.id as int] },
                ),
                Err(e) => e == Error::NotFound && !old(device)@.live(self.id as int) && final(device)@ == old(
                    device,
                )@,
            },
    {
        if !device.contains(*self) {
            return Err(Error::NotFound);
        }
        let ghost target = NodeModel { step_size: Some(step_size), ..device@.nodes[self.id as int] };
        proof {
            lemma_tree_basics(device@);
            lemma_with_node_ok(device@, self.id as int, target);
        }
        device.nodes[self.id].step_size = Some(step_size);
        assert(device@.nodes =~= old(device)@.nodes.update(self.id as int, target));
        assert(device@ == old(device)@.with_node(self.id as int, target));
        Ok(())
    }

    /// Clears the step size. `NotFound`, and no change, for a handle of no live node.
    pub fn unset_step_size(&self, device: &mut Device) -> (r: Result<(), Error>)
        requires
            old(device).wf(),
        ensures
            final(device).wf(),
            match r {
                Ok(_) => old(device)@.live(self.id as int) && final(device)@ == old(device)@.with_node(
                    self.id as int,
                    NodeModel { step_size: None, ..old(device)@.nodes[self.id as int] },
                ),
                Err(e) => e == Error::NotFound && !old(device)@.live(self.id as int) && final(device)@ == old(
                    device,
                )@,
            },
    {
        if !device.contains(*self) {
            return Err(Error::NotFound);
        }
        let ghost target = NodeModel { step_size: None, ..device@.nodes[self.id as int] };
        proof {
            lemma_tree_basics(device@);
            lemma_with_node_ok(device@, self.id as int, target);
        }
        device.nodes[self.id].step_size = None;
        assert(device@.nodes =~= old(device)@.nodes.update(self.id as int, target));
        assert(device@ == old(device)@.with_node(self.id as int, target));
        Ok(())
    }

    /// The least and greatest number of instances, if set, or `NotFound` for a handle of no live node.
    pub fn instance_bounds(&self, device: &Device) -> (r: Result<Option<(i32, i32)>, Error>)
        ensures
            match r {
                Ok(v) => device@.live(self.id as int) && v == device@.nodes[self.id as int].instance_bounds,
                Err(e) => e == Error::NotFound && !device@.live(self.id as int),
            },
    {
        if !device.contains(*self) {
            return Err(Error::NotFound);
        }
        Ok(device.nodes[self.id].instance_bounds)
    }

    /// Sets the least and greatest number of instances. `NotFound`, and no change, for a handle of no live node.
    pub fn set_instance_bounds(&self, device: &mut Device, instance_bounds: (i32, i32)) -> (r: Result<(), Error>)
        requires
            old(device).wf(),
        ensures
            final(device).wf(),
            match r {
                Ok(_) => old(device)@.live(self.id as int) && final(device)@ == old(device)@.with_node(
                    self.id as int,
                    NodeModel { instance_bounds: Some(instance_bounds), ..old(device)@.nodes[self.id as int] },
                ),
                Err(e) => e == Error::NotFound && !old(device)@.live(self.id as int) && final(device)@ == old(
                    device,
                )@,
            },
    {
        if !device.contains(*self) {
            return Err(Error::NotFound);
        }
        let ghost target = NodeModel { instance_bounds: Some(instance_bounds), ..device@.nodes[self.id as int] };
        proof {
            lemma_tree_basics(device@);
            lemma_with_node_ok(device@, self.id as int, target);
        }
        device.nodes[self.id].instance_bounds = Some(instance_bounds);
        assert(device@.nodes =~= old(device)@.nodes.update(self.id as int, target));
        assert(device@ == old(device)@.with_node(self.id as int, target));
        Ok(())
    }

    /// Clears the instance bounds. `NotFound`, and no change, for a handle of no live node.
    pub fn unset_instance_bounds(&self, device: &mut Device) -> (r: Result<(), Error>)
        requires
            old(device).wf(),
        ensures
            final(device).wf(),
            match r {
                Ok(_) => old(device)@.live(self.id as int) && final(device)@ == old(device)@.with_node(
                    self.id as int,
                    NodeModel { instance_bounds: None, ..old(device)@.nodes[self.id as int] },
                ),
                Err(e) => e == Error::NotFound && !old(device)@.live(self.id as int) && final(device)@ == old(
                    device,
                )@,
            },
    {
        if !device.contains(*self) {
            return Err(Error::NotFound);
        }
        let ghost target = NodeModel { instance_bounds: None, ..device@.nodes[self.id as int] };
        proof {
            lemma_tree_basics(device@);
            lemma_with_node_ok(device@, self.id as int, target);
        }
        device.nodes[self.id].instance_bounds = None;
        assert(device@.nodes =~= old(device)@.nodes.update(self.id as int, target));
        assert(device@ == old(device)@.with_node(self.id as int, target));
        Ok(())
    }

    /// The default value, if one is set, or `NotFound` for a handle of no live node.
    pub fn default_value(&self, device: &Device) -> (r: Result<Option<Value>, Error>)
        ensures
            match r {
                Ok(v) => device@.live(self.id as int) && opt_model(v) == device@.nodes[self.id as int].default_value,
                Err(e) => e == Error::NotFound && !device@.live(self.id as int),
            },
    {
        if !device.contains(*self) {
            return Err(Error::NotFound);
        }
        Ok(match &device.nodes[self.id].default_value {
            Some(x) => Some(x.clone()),
            None => None,
        })
    }

    /// Sets the default value. `NotFound`, and no change, for a handle of no live node.
    pub fn set_default_value(&self, device: &mut Device, value: Value) -> (r: Result<(), Error>)
        requires
            old(device).wf(),
        ensures
            final(device).wf(),
            match r {
                Ok(_) => old(device)@.live(self.id as int) && final(device)@ == old(device)@.with_node(
                    self.id as int,
                    NodeModel { default_value: Some(value@), ..old(device)@.nodes[self.id as int] },
                ),
                Err(e) => e == Error::NotFound && !old(device)@.live(self.id as int) && final(device)@ == old(
                    device,
                )@,
            },
    {
        if !device.contains(*self) {
            return Err(Error::NotFound);
        }
        let ghost target = NodeModel { default_value: Some(value@), ..device@.nodes[self.id as int] };
        proof {
            lemma_tree_basics(device@);
            lemma_with_node_ok(device@, self.id as int, target);
        }
        device.nodes[self.id].default_value = Some(value);
        assert(device@.nodes =~= old(device)@.nodes.update(self.id as int, target));
        assert(device@ == old(device)@.with_node(self.id as int, target));
        Ok(())
    }
}

impl DeviceModel {
    /// Whether the names lead from `start` to a node that carries a parameter.
    pub open spec fn occupied(self, start: int, names: Seq<Seq<char>>) -> bool {
        self.walk(start, names) matches Some(w) && 0 <= w < self.nodes.len() && self.nodes[w].parameter is Some
    }
}

impl Device {
    /// Appends the joined names that lead to `n`.
    fn append_address(&self, n: usize, out: &mut String)
        requires
            self.wf(),
            self@.live(n as int),
        ensures
            final(out)@ == old(out)@ + joined(self@.names_to(n as int)),
        decreases n,
    {
        proof {
            lemma_tree_basics(self@);
            reveal_strlit("/");
        }
        if n != 0 {
            assert(self@.nodes[n as int].alive);
            let p = self.nodes[n].parent;
            self.append_address(p, out);
            out.append("/");
            out.append(self.nodes[n].name.as_str());
            proof {
                let names = self@.names_to(n as int);
                assert(names.drop_last() =~= self@.names_to(p as int));
                assert("/"@ =~= seq!['/']);
                assert(out@ =~= old(out)@ + (joined(self@.names_to(p as int)) + seq!['/'] + self@.nodes[n as int].name));
            }
        } else {
            assert(out@ =~= old(out)@ + joined(self@.names_to(0)));
        }
    }
}

impl Node {
    /// The address of the node: `/` for the root, else the names from the root down, each
    /// behind a separator. `NotFound` for a handle of no live node.
    pub fn path(&self, device: &Device) -> (r: Result<String, Error>)
        requires
            device.wf(),
        ensures
            match r {
                Ok(s) => device@.live(self.id as int) && s@ == device@.address(self.id as int),
                Err(e) => e == Error::NotFound && !device@.live(self.id as int),
            },
    {
        if !device.contains(*self) {
            return Err(Error::NotFound);
        }
        let mut out = String::new();
        if self.id == 0 {
            proof {
                reveal_strlit("/");
                assert("/"@ =~= seq!['/']);
            }
            out.append("/");
            assert(out@ =~= seq!['/']);
        } else {
            device.append_address(self.id, &mut out);
            proof {
                lemma_tree_basics(device@);
                assert(device@.nodes[self.id as int].alive);
                assert(out@ =~= joined(device@.names_to(self.id as int)));
            }
        }
        Ok(out)
    }

    /// Follows `path` from this node, creates a child wherever a name on the way has none,
    /// and returns the node that the path leads to, with the notices owed to the
    /// subscribers of node creation: one for each node created, in order of creation.
    ///
    /// A node on the way that exists is used as it is. `NotFound` for a handle of no live
    /// node; `DuplicateName` where the path leads to a node that exists and carries a
    /// parameter. In both cases nothing changes.
    pub fn new(&self, device: &mut Device, path: &str) -> (r: Result<(Node, Vec<Notice>), Error>)
        requires
            old(device).wf(),
        ensures
            final(device).wf(),
            match r {
                Ok((n, notices)) => {
                    &&& old(device)@.live(self.id as int)
                    &&& !old(device)@.occupied(self.id as int, segments(path@))
                    &&& (final(device)@, n.id as int) == old(device)@.made(self.id as int, segments(path@))
                    &&& notices@ == notices_of_range(
                        TreeEvent::NodeCreated,
                        old(device)@.created.tokens,
                        old(device)@.nodes.len() as int,
                        final(device)@.nodes.len() as int,
                    )
                },
                Err(e) => {
                    &&& final(device)@ == old(device)@
                    &&& e == if !old(device)@.live(self.id as int) {
                        Error::NotFound
                    } else {
                        Error::DuplicateName
                    }
                    &&& old(device)@.live(self.id as int) ==> old(device)@.occupied(
                        self.id as int,
                        segments(path@),
                    )
                },
            },
    {
        if !device.contains(*self) {
            return Err(Error::NotFound);
        }
        let names = split(path);
        proof {
            lemma_walk_live(device@, self.id as int, texts(names@));
            lemma_segments_are_names(path@, 0);
        }
        match device.walk_from(self.id, &names) {
            Some(w) => {
                if device.nodes[w].parameter.is_some() {
                    return Err(Error::DuplicateName);
                }
            },
            None => {},
        }
        let before = device.nodes.len();
        let leaf = device.make(self.id, &names);
        let notices = device.notices(TreeEvent::NodeCreated, before, device.nodes.len());
        Ok((Node { id: leaf }, notices))
    }

    /// Adds a new node under this one and returns it with the notices owed to the
    /// subscribers of node creation. `name` is the name of the child, or a path to it: the
    /// nodes on the way are used where they exist and created where they do not.
    ///
    /// `NotFound` for a handle of no live node, else `InvalidArgument` for a path without a
    /// name, else `DuplicateName` where the node exists already. In all three cases nothing
    /// changes.
    pub fn add_child(&self, device: &mut Device, name: &str) -> (r: Result<(Node, Vec<Notice>), Error>)
        requires
            old(device).wf(),
        ensures
            final(device).wf(),
            match r {
                Ok((c, notices)) => {
                    &&& old(device)@.live(self.id as int)
                    &&& segments(name@).len() > 0
                    &&& old(device)@.walk(self.id as int, segments(name@)) is None
                    &&& (final(device)@, c.id as int) == old(device)@.made(self.id as int, segments(name@))
                    &&& notices@ == notices_of_range(
                        TreeEvent::NodeCreated,
                        old(device)@.created.tokens,
                        old(device)@.nodes.len() as int,
                        final(device)@.nodes.len() as int,
                    )
                },
                Err(e) => {
                    &&& final(device)@ == old(device)@
                    &&& e == if !old(device)@.live(self.id as int) {
                        Error::NotFound
                    } else if segments(name@).len() == 0 {
                        Error::InvalidArgument
                    } else {
                        Error::DuplicateName
                    }
                    &&& old(device)@.live(self.id as int) && segments(name@).len() > 0 ==> old(device)@.walk(
                        self.id as int,
                        segments(name@),
                    ) is Some
                },
            },
    {
        if !device.contains(*self) {
            return Err(Error::NotFound);
        }
        let names = split(name);
        if names.len() == 0 {
            return Err(Error::InvalidArgument);
        }
        proof {
            lemma_segments_are_names(name@, 0);
        }
        if device.walk_from(self.id, &names).is_some() {
            return Err(Error::DuplicateName);
        }
        let before = device.nodes.len();
        let leaf = device.make(self.id, &names);
        let notices = device.notices(TreeEvent::NodeCreated, before, device.nodes.len());
        Ok((Node { id: leaf }, notices))
    }
}

impl Device {
    /// Follows the names from `start` and creates a child wherever a name has none.
    pub(crate) fn make(&mut self, start: usize, names: &Vec<String>) -> (r: usize)
        requires
            old(self).wf(),
            old(self)@.live(start as int),
            forall|k: int| 0 <= k < names.len() ==> is_name(#[trigger] texts(names@)[k]),
        ensures
            final(self).wf(),
            (final(self)@, r as int) == old(self)@.made(start as int, texts(names@)),
            final(self)@.live(r as int),
            final(self)@.created == old(self)@.created,
            final(self)@.nodes.len() >= old(self)@.nodes.len(),
    {
        let ghost all = texts(names@);
        let ghost begin = self@;
        let mut cur: usize = start;
        let mut i: usize = 0;
        assert(all.skip(0) =~= all);
        while i < names.len()
            invariant
                i <= names.len(),
                all == texts(names@),
                forall|k: int| 0 <= k < all.len() ==> is_name(#[trigger] all[k]),
                self.wf(),
                self@.live(cur as int),
                self@.made(cur as int, all.skip(i as int)) == begin.made(start as int, all),
                self@.created == begin.created,
                begin.nodes.len() <= self.nodes.len(),
            decreases names.len() - i,
        {
            proof {
                assert(all.skip(i as int)[0] == names[i as int]@);
                assert(all.skip(i as int).drop_first() =~= all.skip(i + 1));
                lemma_child_named_from(self@, cur as int, names[i as int]@, 1);
                assert(is_name(all[i as int]));
            }
            match self.child_index(cur, &names[i]) {
                Some(c) => {
                    cur = c;
                },
                None => {
                    let c = self.nodes.len();
                    let ghost prev = self@;
                    proof {
                        lemma_with_child_ok(self@, cur as int, names[i as int]@);
                    }
                    self.nodes.push(NodeData::fresh(cur, names[i].clone()));
                    assert(self@.nodes =~= prev.nodes.push(NodeModel::fresh(cur as int, names[i as int]@)));
                    assert(self@ == prev.with_child(cur as int, names[i as int]@));
                    cur = c;
                },
            }
            i += 1;
        }
        assert(all.skip(names.len() as int) =~= Seq::<Seq<char>>::empty());
        cur
    }
}

impl Device {
    /// For every slot, whether its node is live and at or below `root`.
    fn subtree_marks(&self, root: usize) -> (r: Vec<bool>)
        ensures
            r.len() == self.nodes.len(),
            forall|i: int| 0 <= i < r.len() ==> r[i] == self@.in_subtree(i, root as int),
    {
        let mut marks: Vec<bool> = Vec::new();
        let mut i: usize = 0;
        while i < self.nodes.len()
            invariant
                i <= self.nodes.len(),
                marks.len() == i,
                forall|k: int| 0 <= k < i ==> marks[k] == self@.in_subtree(k, root as int),
            decreases self.nodes.len() - i,
        {
            let p = self.nodes[i].parent;
            let inside = self.nodes[i].alive && (i == root || (p < i && marks[p]));
            marks.push(inside);
            i += 1;
        }
        marks
    }

    /// One notice about node `n` for each subscriber of `event`, appended to `out`.
    fn announce(&self, event: TreeEvent, n: usize, out: &mut Vec<Notice>)
        ensures
            final(out)@ == old(out)@ + notices_about(event, self@.subscribers(event).tokens, n as int),
    {
        let tokens = match event {
            TreeEvent::NodeCreated => self.created.tokens(),
            TreeEvent::NodeRemoving => self.removing.tokens(),
            TreeEvent::ParameterDeleting => self.deleting.tokens(),
        };
        let ghost all = notices_about(event, tokens@, n as int);
        let mut k: usize = 0;
        assert(old(out)@ + all.take(0) =~= old(out)@);
        while k < tokens.len()
            invariant
                k <= tokens.len(),
                all == notices_about(event, tokens@, n as int),
                out@ == old(out)@ + all.take(k as int),
            decreases tokens.len() - k,
        {
            proof {
                assert(all.take(k + 1) =~= all.take(k as int).push(all[k as int]));
                assert(old(out)@ + all.take(k as int).push(all[k as int]) =~= (old(out)@ + all.take(
                    k as int,
                )).push(all[k as int]));
            }
            out.push(Notice { callback: event.callback(tokens[k]), node: Node { id: n } });
            k += 1;
        }
        assert(all.take(tokens.len() as int) =~= all);
    }
}

impl Node {
    /// The notices owed before `child` is removed with all that is below it, in the order
    /// the callbacks are to run: for each node that goes, the latest created first, the
    /// deletion of its parameter, if it carries one, and then the removal of the node. The
    /// device is not changed, so every node named is still to be found while the callbacks
    /// run.
    ///
    /// `NotFound` where `child` is no child of this node.
    pub fn removing(&self, device: &Device, child: Node) -> (r: Result<Vec<Notice>, Error>)
        requires
            device.wf(),
        ensures
            match r {
                Ok(notices) => device@.is_child(child.id as int, self.id as int) && notices@
                    == device@.removal_notices(child.id as int, device@.nodes.len() as int),
                Err(e) => e == Error::NotFound && !device@.is_child(child.id as int, self.id as int),
            },
    {
        if !(child.id >= 1 && device.contains(child) && device.nodes[child.id].parent == self.id) {
            return Err(Error::NotFound);
        }
        let marks = device.subtree_marks(child.id);
        let mut out: Vec<Notice> = Vec::new();
        let mut hi: usize = device.nodes.len();
        let ghost total = device@.removal_notices(child.id as int, device@.nodes.len() as int);
        assert(out@ + total =~= total);
        while hi > 0
            invariant
                hi <= device.nodes.len(),
                marks.len() == device.nodes.len(),
                forall|i: int| 0 <= i < marks.len() ==> marks[i] == device@.in_subtree(i, child.id as int),
                out@ + device@.removal_notices(child.id as int, hi as int) == total,
            decreases hi,
        {
            let n = hi - 1;
            let ghost rest = device@.removal_notices(child.id as int, n as int);
            if marks[n] {
                let ghost before = out@;
                if device.nodes[n].parameter.is_some() {
                    device.announce(TreeEvent::ParameterDeleting, n, &mut out);
                }
                device.announce(TreeEvent::NodeRemoving, n, &mut out);
                proof {
                    assert(device@.live(n as int));
                    assert(out@ == before + device@.parting_notices(n as int)) by {
                        assert(before + Seq::<Notice>::empty() =~= before);
                        let a = notices_about(TreeEvent::ParameterDeleting, device@.deleting.tokens, n as int);
                        let b = notices_about(TreeEvent::NodeRemoving, device@.removing.tokens, n as int);
                        assert((before + a) + b =~= before + (a + b));
                        assert(before + b =~= before + (Seq::<Notice>::empty() + b));
                    }
                    assert((before + device@.parting_notices(n as int)) + rest =~= before + (
                    device@.parting_notices(n as int) + rest));
                }
            }
            hi = n;
        }
        assert(out@ + Seq::<Notice>::empty() =~= out@);
        Ok(out)
    }

    /// Removes `child` with all that is below it. The callbacks that
    /// [`Node::removing`] lists are to run before this call.
    ///
    /// `NotFound`, and no change, where `child` is no child of this node.
    pub fn rm_child(&self, device: &mut Device, child: Node) -> (r: Result<(), Error>)
        requires
            old(device).wf(),
        ensures
            final(device).wf(),
            match r {
                Ok(_) => old(device)@.is_child(child.id as int, self.id as int) && final(device)@ == old(
                    device,
                )@.without_subtree(child.id as int),
                Err(e) => e == Error::NotFound && !old(device)@.is_child(child.id as int, self.id as int)
                    && final(device)@ == old(device)@,
            },
    {
        if !(child.id >= 1 && device.contains(child) && device.nodes[child.id].parent == self.id) {
            return Err(Error::NotFound);
        }
        let marks = device.subtree_marks(child.id);
        let ghost start = device@;
        let mut i: usize = 0;
        assert(device@.nodes =~= removed_below(start, child.id as int, 0));
        while i < device.nodes.len()
            invariant
                i <= device.nodes.len(),
                device.nodes.len() == start.nodes.len(),
                marks.len() == device.nodes.len(),
                forall|k: int| 0 <= k < marks.len() ==> marks[k] == start.in_subtree(k, child.id as int),
                device@.name == start.name,
                device@.protocols == start.protocols,
                device@.created == start.created,
                device@.removing == start.removing,
                device@.deleting == start.deleting,
                device@.nodes == removed_below(start, child.id as int, i as int),
            decreases device.nodes.len() - i,
        {
            let ghost prev = device@;
            if marks[i] {
                device.nodes[i].alive = false;
                assert(device@.nodes[i as int] == (NodeModel { alive: false, ..prev.nodes[i as int] }));
            }
            assert(device@.nodes =~= removed_below(start, child.id as int, i + 1));
            i += 1;
        }
        proof {
            assert(removed_below(start, child.id as int, i as int) =~= start.without_subtree(
                child.id as int,
            ).nodes);
            super::lemma_without_subtree_ok(start, child.id as int);
        }
        Ok(())
    }

    /// Takes the parameter off the node. The callbacks that [`Node::deleting`] lists are to
    /// run before this call.
    ///
    /// `NotFound`, and no change, where the node is not there or carries no parameter.
    pub fn rm_parameter(&self, device: &mut Device) -> (r: Result<(), Error>)
        requires
            old(device).wf(),
        ensures
            final(device).wf(),
            match r {
                Ok(_) => old(device)@.parameter(self.id as int) is Some && final(device)@ == old(
                    device,
                )@.with_parameter(self.id as int, None),
                Err(e) => e == Error::NotFound && old(device)@.parameter(self.id as int) is None && final(device)@ == old(device)@,
            },
    {
        if !device.has_parameter(self.id) {
            return Err(Error::NotFound);
        }
        device.put_parameter(self.id, None);
        Ok(())
    }

    /// The notices owed before the parameter of this node is deleted: one to each
    /// subscriber of parameter deletion, in registration order; none where the node is not
    /// there or carries no parameter.
    pub fn deleting(&self, device: &Device) -> (r: Vec<Notice>)
        ensures
            r@ == if device@.parameter(self.id as int) is Some {
                notices_about(TreeEvent::ParameterDeleting, device@.deleting.tokens, self.id as int)
            } else {
                Seq::empty()
            },
    {
        let mut out: Vec<Notice> = Vec::new();
        if device.has_parameter(self.id) {
            device.announce(TreeEvent::ParameterDeleting, self.id, &mut out);
            assert(Seq::<Notice>::empty() + notices_about(
                TreeEvent::ParameterDeleting,
                device@.deleting.tokens,
                self.id as int,
            ) =~= notices_about(TreeEvent::ParameterDeleting, device@.deleting.tokens, self.id as int));
        }
        out
    }
}

} // verus!
