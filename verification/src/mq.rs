//! The delivery queue: value changes of registered parameters, buffered in arrival order
//! for one consumer to drain.

use crate::device::{Device, Parameter};
use crate::value::{Value, ValueModel};
use std::collections::VecDeque;
use vstd::prelude::*;

verus! {

/// A queue of value changes of the parameters registered with it.
pub struct MessageQueue {
    device: String,
    registered: Vec<Parameter>,
    pending: VecDeque<(Parameter, Value)>,
}

/// What a [`MessageQueue`] denotes.
pub struct MessageQueueModel {
    /// The name of the device the queue belongs to.
    pub device: Seq<char>,
    /// The registered parameters, each once.
    pub registered: Seq<Parameter>,
    /// The changes that wait, the oldest first.
    pub pending: Seq<(Parameter, ValueModel)>,
}

/// What the waiting entries denote, one by one.
pub open spec fn pending_models(q: Seq<(Parameter, Value)>) -> Seq<(Parameter, ValueModel)> {
    Seq::new(q.len(), |i: int| (q[i].0, q[i].1@))
}

/// The sequence without its occurrences of `p`, the rest in order.
pub open spec fn without_parameter(s: Seq<Parameter>, p: Parameter) -> Seq<Parameter>
    decreases s.len(),
{
    if s.len() == 0 {
        Seq::empty()
    } else if s.last() == p {
        without_parameter(s.drop_last(), p)
    } else {
        without_parameter(s.drop_last(), p).push(s.last())
    }
}

impl View for MessageQueue {
    type V = MessageQueueModel;

    closed spec fn view(&self) -> MessageQueueModel {
        MessageQueueModel {
            device: self.device@,
            registered: self.registered@,
            pending: pending_models(self.pending@),
        }
    }
}

impl MessageQueue {
    /// An empty queue for the parameters of `device`, with none registered.
    pub fn new(device: &Device) -> (r: MessageQueue)
        ensures
            r@ == (MessageQueueModel {
                device: device@.name,
                registered: Seq::empty(),
                pending: Seq::empty(),
            }),
    {
        let r = MessageQueue { device: device.name(), registered: Vec::new(), pending: VecDeque::new() };
        assert(r@.pending =~= Seq::empty());
        r
    }

    /// Whether `param` is registered.
    pub fn is_registered(&self, param: Parameter) -> (r: bool)
        ensures
            r == self@.registered.contains(param),
    {
        let mut i: usize = 0;
        while i < self.registered.len()
            invariant
                i <= self.registered.len(),
                forall|k: int| 0 <= k < i ==> self.registered[k] != param,
            decreases self.registered.len() - i,
        {
            if self.registered[i] == param {
                return true;
            }
            i += 1;
        }
        false
    }

    /// Registers `param`: its changes are queued from now on. A parameter that is registered
    /// already is not registered twice.
    pub fn register(&mut self, param: Parameter)
        ensures
            final(self)@ == (MessageQueueModel {
                registered: if old(self)@.registered.contains(param) {
                    old(self)@.registered
                } else {
                    old(self)@.registered.push(param)
                },
                ..old(self)@
            }),
    {
        if !self.is_registered(param) {
            self.registered.push(param);
        }
    }

    /// Takes `param` off the registered parameters. What is queued of it stays queued.
    pub fn unregister(&mut self, param: Parameter)
        ensures
            final(self)@ == (MessageQueueModel {
                registered: without_parameter(old(self)@.registered, param),
                ..old(self)@
            }),
    {
        let mut kept: Vec<Parameter> = Vec::new();
        let mut i: usize = 0;
        while i < self.registered.len()
            invariant
                i <= self.registered.len(),
                kept@ == without_parameter(self.registered@.take(i as int), param),
            decreases self.registered.len() - i,
        {
            proof {
                assert(self.registered@.take(i + 1).drop_last() =~= self.registered@.take(i as int));
            }
            if self.registered[i] != param {
                kept.push(self.registered[i]);
            }
            i += 1;
        }
        proof {
            assert(self.registered@.take(i as int) =~= self.registered@);
        }
        self.registered = kept;
    }

    /// Queues a change of `param` behind all that wait, if `param` is registered, and tells
    /// whether it did. A change of a parameter that is not registered is dropped.
    pub fn enqueue(&mut self, param: Parameter, value: Value) -> (r: bool)
        ensures
            r == old(self)@.registered.contains(param),
            final(self)@ == (MessageQueueModel {
                pending: if r {
                    old(self)@.pending.push((param, value@))
                } else {
                    old(self)@.pending
                },
                ..old(self)@
            }),
    {
        if !self.is_registered(param) {
            return false;
        }
        let ghost before = self.pending@;
        self.pending.push_back((param, value));
        assert(pending_models(self.pending@) =~= pending_models(before).push((param, value@)));
        true
    }

    /// Takes the oldest change off the queue, or returns `None` at once where none waits.
    pub fn pop(&mut self) -> (r: Option<(Parameter, Value)>)
        ensures
            match r {
                Some((p, v)) => old(self)@.pending.len() > 0 && (p, v@) == old(self)@.pending[0] && final(self)@
                    == (MessageQueueModel { pending: old(self)@.pending.drop_first(), ..old(self)@ }),
                None => old(self)@.pending.len() == 0 && final(self)@ == old(self)@,
            },
    {
        let ghost before = self.pending@;
        let r = self.pending.pop_front();
        proof {
            if before.len() > 0 {
                assert(pending_models(self.pending@) =~= pending_models(before).drop_first());
            } else {
                assert(pending_models(self.pending@) =~= pending_models(before));
            }
        }
        r
    }

    /// The number of changes that wait.
    pub fn len(&self) -> (r: usize)
        ensures
            r == self@.pending.len(),
    {
        self.pending.len()
    }
}

/// What is queued comes out in the order it went in: after `a` and then `b` were queued
/// behind `q`, the queue gives what `q` held, then `a`, then `b`, and then nothing.
pub proof fn lemma_fifo(q: Seq<(Parameter, ValueModel)>, a: (Parameter, ValueModel), b: (Parameter, ValueModel))
    ensures
        q.push(a).push(b) == q + seq![a, b],
        q.len() == 0 ==> q.push(a).push(b)[0] == a && q.push(a).push(b).drop_first()[0] == b && q.push(a).push(
            b,
        ).drop_first().drop_first().len() == 0,
{
    assert(q.push(a).push(b) =~= q + seq![a, b]);
}

} // verus!
