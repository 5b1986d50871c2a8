//! Operations on the parameters of a device.

use super::{
    opt_parameter, lemma_tree_basics, lemma_with_node_ok, Access, Device, DeviceModel, Node, NodeModel, Parameter,
    ParameterData, ParameterModel, ValueCallbackIdx,
};
use crate::domain::{lemma_bound_value_keeps_kind, Bounding, Domain, DomainModel};
use crate::error::Error;
use crate::float::Float;
use crate::subscribers::Subscribers;
use crate::value::{float_models, int_models, Type, Value, ValueModel};
use vstd::prelude::*;

verus! {

/// The callback ids of the given tokens, one by one.
pub open spec fn callback_ids(tokens: Seq<u64>) -> Seq<ValueCallbackIdx> {
    Seq::new(tokens.len(), |i: int| ValueCallbackIdx { token: tokens[i] })
}

impl ParameterModel {
    /// `value` converted to the type of the parameter and brought into its domain under
    /// its bounding mode; `None` where the coercion rules allow no conversion.
    pub open spec fn admitted(self, value: ValueModel) -> Option<ValueModel> {
        match value.converted(self.kind) {
            Some(c) => Some(
                match self.domain {
                    Some(d) => d.apply(c, self.bounding),
                    None => c,
                },
            ),
            None => None,
        }
    }

    /// The subscribers that a push notifies: all of them, in registration order, while the
    /// parameter is listening, and none while it is not.
    pub open spec fn notified(self) -> Seq<ValueCallbackIdx> {
        if self.listening {
            callback_ids(self.subscribers.tokens)
        } else {
            Seq::empty()
        }
    }
}

impl DeviceModel {
    /// The parameter of node `n`, if the node is there and carries one.
    pub open spec fn parameter(self, n: int) -> Option<ParameterModel> {
        if self.live(n) {
            self.nodes[n].parameter
        } else {
            None
        }
    }

    /// The device with the parameter of node `n` replaced.
    pub open spec fn with_parameter(self, n: int, p: Option<ParameterModel>) -> DeviceModel {
        self.with_node(n, NodeModel { parameter: p, ..self.nodes[n] })
    }
}

impl ParameterData {
    fn fresh(kind: Type) -> (r: ParameterData)
        ensures
            r.model() == ParameterModel::fresh(kind),
            r.model().wf(),
    {
        ParameterData {
            kind,
            access: Access::Bi,
            bounding: Bounding::Free,
            domain: None,
            unit: String::new(),
            muted: false,
            disabled: false,
            critical: false,
            repetition_filter: false,
            value: kind.default_value(),
            pushed: kind.default_value(),
            listening: true,
            subscribers: Subscribers::new(),
        }
    }
}

impl Device {
    /// Whether node `n` is there and carries a parameter.
    pub(super) fn has_parameter(&self, n: usize) -> (r: bool)
        ensures
            r == self@.parameter(n as int) is Some,
            r ==> n < self.nodes.len() && self.nodes[n as int].parameter is Some && self@.parameter(n as int)
                == Some(self.nodes[n as int].parameter->Some_0.model()),
    {
        n < self.nodes.len() && self.nodes[n].alive && self.nodes[n].parameter.is_some()
    }

    /// Puts `p` in place of the parameter of node `n`.
    pub(super) fn put_parameter(&mut self, n: usize, p: Option<ParameterData>)
        requires
            old(self).wf(),
            old(self)@.live(n as int),
            p matches Some(x) ==> x.model().wf(),
        ensures
            final(self).wf(),
            final(self)@ == old(self)@.with_parameter(n as int, opt_parameter(p)),
            final(self).nodes@.len() == old(self).nodes@.len(),
            p matches Some(x) ==> final(self).nodes[n as int].parameter == Some(x),
    {
        let ghost pm = opt_parameter(p);
        let ghost target = NodeModel { parameter: pm, ..self@.nodes[n as int] };
        proof {
            lemma_tree_basics(self@);
            lemma_with_node_ok(self@, n as int, target);
        }
        self.nodes[n].parameter = p;
        assert(self@.nodes =~= old(self)@.nodes.update(n as int, target));
        assert(self@ == old(self)@.with_parameter(n as int, pm));
    }

    /// Takes the parameter of node `n` out of its slot, to be put back after a change.
    pub(super) fn take_parameter(&mut self, n: usize) -> (r: ParameterData)
        requires
            old(self).wf(),
            old(self)@.parameter(n as int) is Some,
        ensures
            final(self).wf(),
            final(self)@ == old(self)@.with_parameter(n as int, None),
            final(self)@.live(n as int),
            Some(r.model()) == old(self)@.parameter(n as int),
            r.model().wf(),
    {
        proof {
            lemma_tree_basics(self@);
            assert(self@.nodes[n as int].parameter is Some);
        }
        let ghost target = NodeModel { parameter: None, ..self@.nodes[n as int] };
        proof {
            lemma_with_node_ok(self@, n as int, target);
        }
        let taken = self.nodes[n].parameter.take();
        assert(self@.nodes =~= old(self)@.nodes.update(n as int, target));
        assert(self@ == old(self)@.with_parameter(n as int, None));
        taken.unwrap()
    }
}

/// Putting a parameter where one was taken out gives the device with that parameter.
pub proof fn lemma_put_after_take(d: DeviceModel, n: int, p: Option<ParameterModel>)
    requires
        0 <= n < d.nodes.len(),
    ensures
        d.with_parameter(n, None).with_parameter(n, p) == d.with_parameter(n, p),
{
    assert(d.with_parameter(n, None).with_parameter(n, p).nodes =~= d.with_parameter(n, p).nodes);
}

impl Node {
    /// Gives the node a parameter of type `typ`: bidirectional, unbounded, listening, and
    /// holding the initial value of its type.
    ///
    /// `NotFound` for a handle of no live node, `Unsupported` where the node carries a
    /// parameter already. In both cases nothing changes.
    pub fn add_parameter(&self, device: &mut Device, typ: Type) -> (r: Result<Parameter, Error>)
        requires
            old(device).wf(),
        ensures
            final(device).wf(),
            match r {
                Ok(p) => {
                    &&& p.node == *self
                    &&& old(device)@.live(self.id as int)
                    &&& old(device)@.parameter(self.id as int) is None
                    &&& final(device)@ == old(device)@.with_parameter(
                        self.id as int,
                        Some(ParameterModel::fresh(typ)),
                    )
                },
                Err(e) => {
                    &&& final(device)@ == old(device)@
                    &&& e == if !old(device)@.live(self.id as int) {
                        Error::NotFound
                    } else {
                        Error::Unsupported
                    }
                    &&& old(device)@.live(self.id as int) ==> old(device)@.parameter(self.id as int) is Some
                },
            },
    {
        if !device.contains(*self) {
            return Err(Error::NotFound);
        }
        if device.has_parameter(self.id) {
            return Err(Error::Unsupported);
        }
        device.put_parameter(self.id, Some(ParameterData::fresh(typ)));
        Ok(Parameter { node: *self })
    }

    /// The parameter of the node, or `None` where the node is not there or carries none.
    pub fn parameter(&self, device: &Device) -> (r: Option<Parameter>)
        ensures
            match r {
                Some(p) => p.node == *self && device@.parameter(self.id as int) is Some,
                None => device@.parameter(self.id as int) is None,
            },
    {
        if device.has_parameter(self.id) {
            Some(Parameter { node: *self })
        } else {
            None
        }
    }
}

impl Parameter {
    /// The node that carries this parameter.
    pub fn node(&self) -> (r: Node)
        ensures
            r == self.node,
    {
        self.node
    }

    /// Sets the access mode. `NotFound`, and no change, where the node is not there or carries no
    /// parameter.
    pub fn set_access_mode(&self, device: &mut Device, am: Access) -> (r: Result<(), Error>)
        requires
            old(device).wf(),
        ensures
            final(device).wf(),
            match r {
                Ok(_) => old(device)@.parameter(self.node.id as int) matches Some(p) && final(device)@ == old(
                    device,
                )@.with_parameter(self.node.id as int, Some(ParameterModel { access: am, ..p })),
                Err(e) => e == Error::NotFound && old(device)@.parameter(self.node.id as int) is None
                    && final(device)@ == old(device)@,
            },
    {
        if !device.has_parameter(self.node.id) {
            return Err(Error::NotFound);
        }
        let mut p = device.take_parameter(self.node.id);
        p.access = am;
        device.put_parameter(self.node.id, Some(p));
        proof {
            lemma_put_after_take(old(device)@, self.node.id as int, Some(p.model()));
        }
        Ok(())
    }

    /// The access mode, or `NotFound` where the node is not there or carries no parameter.
    pub fn get_access_mode(&self, device: &Device) -> (r: Result<Access, Error>)
        ensures
            match r {
                Ok(v) => device@.parameter(self.node.id as int) matches Some(p) && v == p.access,
                Err(e) => e == Error::NotFound && device@.parameter(self.node.id as int) is None,
            },
    {
        if !device.has_parameter(self.node.id) {
            return Err(Error::NotFound);
        }
        match &device.nodes[self.node.id].parameter {
            Some(p) => Ok(p.access),
            None => Err(Error::NotFound),
        }
    }

    /// Sets the bounding mode. `NotFound`, and no change, where the node is not there or carries no
    /// parameter.
    pub fn set_bounding_mode(&self, device: &mut Device, bm: Bounding) -> (r: Result<(), Error>)
        requires
            old(device).wf(),
        ensures
            final(device).wf(),
            match r {
                Ok(_) => old(device)@.parameter(self.node.id as int) matches Some(p) && final(device)@ == old(
                    device,
                )@.with_parameter(self.node.id as int, Some(ParameterModel { bounding: bm, ..p })),
                Err(e) => e == Error::NotFound && old(device)@.parameter(self.node.id as int) is None
                    && final(device)@ == old(device)@,
            },
    {
        if !device.has_parameter(self.node.id) {
            return Err(Error::NotFound);
        }
        let mut p = device.take_parameter(self.node.id);
        p.bounding = bm;
        device.put_parameter(self.node.id, Some(p));
        proof {
            lemma_put_after_take(old(device)@, self.node.id as int, Some(p.model()));
        }
        Ok(())
    }

    /// The bounding mode, or `NotFound` where the node is not there or carries no parameter.
    pub fn get_bounding_mode(&self, device: &Device) -> (r: Result<Bounding, Error>)
        ensures
            match r {
                Ok(v) => device@.parameter(self.node.id as int) matches Some(p) && v == p.bounding,
                Err(e) => e == Error::NotFound && device@.parameter(self.node.id as int) is None,
            },
    {
        if !device.has_parameter(self.node.id) {
            return Err(Error::NotFound);
        }
        match &device.nodes[self.node.id].parameter {
            Some(p) => Ok(p.bounding),
            None => Err(Error::NotFound),
        }
    }

    /// The domain, if one is attached, or `NotFound` where the node is not there or carries no parameter.
    pub fn get_domain(&self, device: &Device) -> (r: Result<Option<Domain>, Error>)
        ensures
            match r {
                Ok(v) => device@.parameter(self.node.id as int) matches Some(p) && crate::device::parameter::opt_domain(v) == p.domain,
                Err(e) => e == Error::NotFound && device@.parameter(self.node.id as int) is None,
            },
    {
        if !device.has_parameter(self.node.id) {
            return Err(Error::NotFound);
        }
        match &device.nodes[self.node.id].parameter {
            Some(p) => Ok(match &p.domain {
                Some(d) => Some(d.clone()),
                None => None,
            }),
            None => Err(Error::NotFound),
        }
    }

    /// Sets the unit. `NotFound`, and no change, where the node is not there or carries no
    /// parameter.
    pub fn set_unit(&self, device: &mut Device, unit: &str) -> (r: Result<(), Error>)
        requires
            old(device).wf(),
        ensures
            final(device).wf(),
            match r {
                Ok(_) => old(device)@.parameter(self.node.id as int) matches Some(p) && final(device)@ == old(
                    device,
                )@.with_parameter(self.node.id as int, Some(ParameterModel { unit: unit@, ..p })),
                Err(e) => e == Error::NotFound && old(device)@.parameter(self.node.id as int) is None
                    && final(device)@ == old(device)@,
            },
    {
        if !device.has_parameter(self.node.id) {
            return Err(Error::NotFound);
        }
        let mut p = device.take_parameter(self.node.id);
        p.unit = unit.to_owned();
        device.put_parameter(self.node.id, Some(p));
        proof {
            lemma_put_after_take(old(device)@, self.node.id as int, Some(p.model()));
        }
        Ok(())
    }

    /// The unit, or `NotFound` where the node is not there or carries no parameter.
    pub fn get_unit(&self, device: &Device) -> (r: Result<String, Error>)
        ensures
            match r {
                Ok(v) => device@.parameter(self.node.id as int) matches Some(p) && v@ == p.unit,
                Err(e) => e == Error::NotFound && device@.parameter(self.node.id as int) is None,
            },
    {
        if !device.has_parameter(self.node.id) {
            return Err(Error::NotFound);
        }
        match &device.nodes[self.node.id].parameter {
            Some(p) => Ok(p.unit.clone()),
            None => Err(Error::NotFound),
        }
    }

    /// Sets the muted flag. `NotFound`, and no change, where the node is not there or carries no
    /// parameter.
    pub fn set_muted(&self, device: &mut Device, muted: bool) -> (r: Result<(), Error>)
        requires
            old(device).wf(),
        ensures
            final(device).wf(),
            match r {
                Ok(_) => old(device)@.parameter(self.node.id as int) matches Some(p) && final(device)@ == old(
                    device,
                )@.with_parameter(self.node.id as int, Some(ParameterModel { muted: muted, ..p })),
                Err(e) => e == Error::NotFound && old(device)@.parameter(self.node.id as int) is None
                    && final(device)@ == old(device)@,
            },
    {
        if !device.has_parameter(self.node.id) {
            return Err(Error::NotFound);
        }
        let mut p = device.take_parameter(self.node.id);
        p.muted = muted;
        device.put_parameter(self.node.id, Some(p));
        proof {
            lemma_put_after_take(old(device)@, self.node.id as int, Some(p.model()));
        }
        Ok(())
    }

    /// The muted flag, or `NotFound` where the node is not there or carries no parameter.
    pub fn get_muted(&self, device: &Device) -> (r: Result<bool, Error>)
        ensures
            match r {
                Ok(v) => device@.parameter(self.node.id as int) matches Some(p) && v == p.muted,
                Err(e) => e == Error::NotFound && device@.parameter(self.node.id as int) is None,
            },
    {
        if !device.has_parameter(self.node.id) {
            return Err(Error::NotFound);
        }
        match &device.nodes[self.node.id].parameter {
            Some(p) => Ok(p.muted),
            None => Err(Error::NotFound),
        }
    }

    /// Sets the disabled flag. `NotFound`, and no change, where the node is not there or carries no
    /// parameter.
    pub fn set_disabled(&self, device: &mut Device, disabled: bool) -> (r: Result<(), Error>)
        requires
            old(device).wf(),
        ensures
            final(device).wf(),
            match r {
                Ok(_) => old(device)@.parameter(self.node.id as int) matches Some(p) && final(device)@ == old(
                    device,
                )@.with_parameter(self.node.id as int, Some(ParameterModel { disabled: disabled, ..p })),
                Err(e) => e == Error::NotFound && old(device)@.parameter(self.node.id as int) is None
                    && final(device)@ == old(device)@,
            },
    {
        if !device.has_parameter(self.node.id) {
            return Err(Error::NotFound);
        }
        let mut p = device.take_parameter(self.node.id);
        p.disabled = disabled;
        device.put_parameter(self.node.id, Some(p));
        proof {
            lemma_put_after_take(old(device)@, self.node.id as int, Some(p.model()));
        }
        Ok(())
    }

    /// The disabled flag, or `NotFound` where the node is not there or carries no parameter.
    pub fn get_disabled(&self, device: &Device) -> (r: Result<bool, Error>)
        ensures
            match r {
                Ok(v) => device@.parameter(self.node.id as int) matches Some(p) && v == p.disabled,
                Err(e) => e == Error::NotFound && device@.parameter(self.node.id as int) is None,
            },
    {
        if !device.has_parameter(self.node.id) {
            return Err(Error::NotFound);
        }
        match &device.nodes[self.node.id].parameter {
            Some(p) => Ok(p.disabled),
            None => Err(Error::NotFound),
        }
    }

    /// Sets the critical flag. `NotFound`, and no change, where the node is not there or carries no
    /// parameter.
    pub fn set_critical(&self, device: &mut Device, critical: bool) -> (r: Result<(), Error>)
        requires
            old(device).wf(),
        ensures
            final(device).wf(),
            match r {
                Ok(_) => old(device)@.parameter(self.node.id as int) matches Some(p) && final(device)@ == old(
                    device,
                )@.with_parameter(self.node.id as int, Some(ParameterModel { critical: critical, ..p })),
                Err(e) => e == Error::NotFound && old(device)@.parameter(self.node.id as int) is None
                    && final(device)@ == old(device)@,
            },
    {
        if !device.has_parameter(self.node.id) {
            return Err(Error::NotFound);
        }
        let mut p = device.take_parameter(self.node.id);
        p.critical = critical;
        device.put_parameter(self.node.id, Some(p));
        proof {
            lemma_put_after_take(old(device)@, self.node.id as int, Some(p.model()));
        }
        Ok(())
    }

    /// The critical flag, or `NotFound` where the node is not there or carries no parameter.
    pub fn get_critical(&self, device: &Device) -> (r: Result<bool, Error>)
        ensures
            match r {
                Ok(v) => device@.parameter(self.node.id as int) matches Some(p) && v == p.critical,
                Err(e) => e == Error::NotFound && device@.parameter(self.node.id as int) is None,
            },
    {
        if !device.has_parameter(self.node.id) {
            return Err(Error::NotFound);
        }
        match &device.nodes[self.node.id].parameter {
            Some(p) => Ok(p.critical),
            None => Err(Error::NotFound),
        }
    }

    /// Sets the repetition filter flag. `NotFound`, and no change, where the node is not there or carries no
    /// parameter.
    pub fn set_repetition_filter(&self, device: &mut Device, repetition_filter: bool) -> (r: Result<(), Error>)
        requires
            old(device).wf(),
        ensures
            final(device).wf(),
            match r {
                Ok(_) => old(device)@.parameter(self.node.id as int) matches Some(p) && final(device)@ == old(
                    device,
                )@.with_parameter(self.node.id as int, Some(ParameterModel { repetition_filter: repetition_filter, ..p })),
                Err(e) => e == Error::NotFound && old(device)@.parameter(self.node.id as int) is None
                    && final(device)@ == old(device)@,
            },
    {
        if !device.has_parameter(self.node.id) {
            return Err(Error::NotFound);
        }
        let mut p = device.take_parameter(self.node.id);
        p.repetition_filter = repetition_filter;
        device.put_parameter(self.node.id, Some(p));
        proof {
            lemma_put_after_take(old(device)@, self.node.id as int, Some(p.model()));
        }
        Ok(())
    }

    /// The repetition filter flag, or `NotFound` where the node is not there or carries no parameter.
    pub fn get_repetition_filter(&self, device: &Device) -> (r: Result<bool, Error>)
        ensures
            match r {
                Ok(v) => device@.parameter(self.node.id as int) matches Some(p) && v == p.repetition_filter,
                Err(e) => e == Error::NotFound && device@.parameter(self.node.id as int) is None,
            },
    {
        if !device.has_parameter(self.node.id) {
            return Err(Error::NotFound);
        }
        match &device.nodes[self.node.id].parameter {
            Some(p) => Ok(p.repetition_filter),
            None => Err(Error::NotFound),
        }
    }

    /// Sets whether a push notifies the subscribers. `NotFound`, and no change, where the node is not there or carries no
    /// parameter.
    pub fn set_listening(&self, device: &mut Device, listening: bool) -> (r: Result<(), Error>)
        requires
            old(device).wf(),
        ensures
            final(device).wf(),
            match r {
                Ok(_) => old(device)@.parameter(self.node.id as int) matches Some(p) && final(device)@ == old(
                    device,
                )@.with_parameter(self.node.id as int, Some(ParameterModel { listening: listening, ..p })),
                Err(e) => e == Error::NotFound && old(device)@.parameter(self.node.id as int) is None
                    && final(device)@ == old(device)@,
            },
    {
        if !device.has_parameter(self.node.id) {
            return Err(Error::NotFound);
        }
        let mut p = device.take_parameter(self.node.id);
        p.listening = listening;
        device.put_parameter(self.node.id, Some(p));
        proof {
            lemma_put_after_take(old(device)@, self.node.id as int, Some(p.model()));
        }
        Ok(())
    }

    /// Whether a push notifies the subscribers, or `NotFound` where the node is not there or carries no parameter.
    pub fn get_listening(&self, device: &Device) -> (r: Result<bool, Error>)
        ensures
            match r {
                Ok(v) => device@.parameter(self.node.id as int) matches Some(p) && v == p.listening,
                Err(e) => e == Error::NotFound && device@.parameter(self.node.id as int) is None,
            },
    {
        if !device.has_parameter(self.node.id) {
            return Err(Error::NotFound);
        }
        match &device.nodes[self.node.id].parameter {
            Some(p) => Ok(p.listening),
            None => Err(Error::NotFound),
        }
    }

    /// The type of the values the parameter holds, or `NotFound` where the node is not there or carries no parameter.
    pub fn get_type(&self, device: &Device) -> (r: Result<Type, Error>)
        ensures
            match r {
                Ok(v) => device@.parameter(self.node.id as int) matches Some(p) && v == p.kind,
                Err(e) => e == Error::NotFound && device@.parameter(self.node.id as int) is None,
            },
    {
        if !device.has_parameter(self.node.id) {
            return Err(Error::NotFound);
        }
        match &device.nodes[self.node.id].parameter {
            Some(p) => Ok(p.kind),
            None => Err(Error::NotFound),
        }
    }

    /// The current value, whichever way it was written, or `NotFound` where the node is not there or carries no parameter.
    pub fn get_value(&self, device: &Device) -> (r: Result<Value, Error>)
        ensures
            match r {
                Ok(v) => device@.parameter(self.node.id as int) matches Some(p) && v@ == p.value,
                Err(e) => e == Error::NotFound && device@.parameter(self.node.id as int) is None,
            },
    {
        if !device.has_parameter(self.node.id) {
            return Err(Error::NotFound);
        }
        match &device.nodes[self.node.id].parameter {
            Some(p) => Ok(p.value.clone()),
            None => Err(Error::NotFound),
        }
    }

    /// The value that the last push delivered; the initial value before any push, or `NotFound` where the node is not there or carries no parameter.
    pub fn fetch(&self, device: &Device) -> (r: Result<Value, Error>)
        ensures
            match r {
                Ok(v) => device@.parameter(self.node.id as int) matches Some(p) && v@ == p.pushed,
                Err(e) => e == Error::NotFound && device@.parameter(self.node.id as int) is None,
            },
    {
        if !device.has_parameter(self.node.id) {
            return Err(Error::NotFound);
        }
        match &device.nodes[self.node.id].parameter {
            Some(p) => Ok(p.pushed.clone()),
            None => Err(Error::NotFound),
        }
    }

    /// The registered subscribers, in registration order, or `NotFound` where the node is not there or carries no parameter.
    pub fn callbacks(&self, device: &Device) -> (r: Result<Vec<ValueCallbackIdx>, Error>)
        ensures
            match r {
                Ok(v) => device@.parameter(self.node.id as int) matches Some(p) && v@ == callback_ids(p.subscribers.tokens),
                Err(e) => e == Error::NotFound && device@.parameter(self.node.id as int) is None,
            },
    {
        if !device.has_parameter(self.node.id) {
            return Err(Error::NotFound);
        }
        match &device.nodes[self.node.id].parameter {
            Some(p) => Ok(ids_of(&p.subscribers)),
            None => Err(Error::NotFound),
        }
    }

    /// The current value as an integer: `NotFound` where the node is not there or carries no parameter,
    /// `TypeMismatch` where the value has no such reading.
    pub fn to_int(&self, device: &Device) -> (r: Result<i32, Error>)
        ensures
            match r {
                Ok(v) => device@.parameter(self.node.id as int) matches Some(p) && p.value.to_int() == Some(v as int),
                Err(e) => match device@.parameter(self.node.id as int) {
                    Some(p) => e == Error::TypeMismatch && p.value.to_int() is None,
                    None => e == Error::NotFound,
                },
            },
    {
        if !device.has_parameter(self.node.id) {
            return Err(Error::NotFound);
        }
        match &device.nodes[self.node.id].parameter {
            Some(p) => p.value.to_int(),
            None => Err(Error::NotFound),
        }
    }

    /// The current value as a float: `NotFound` where the node is not there or carries no parameter,
    /// `TypeMismatch` where the value has no such reading.
    pub fn to_float(&self, device: &Device) -> (r: Result<Float, Error>)
        ensures
            match r {
                Ok(v) => device@.parameter(self.node.id as int) matches Some(p) && p.value.to_float() == Some(v),
                Err(e) => match device@.parameter(self.node.id as int) {
                    Some(p) => e == Error::TypeMismatch && p.value.to_float() is None,
                    None => e == Error::NotFound,
                },
            },
    {
        if !device.has_parameter(self.node.id) {
            return Err(Error::NotFound);
        }
        match &device.nodes[self.node.id].parameter {
            Some(p) => p.value.to_float(),
            None => Err(Error::NotFound),
        }
    }

    /// The current value as a boolean: `NotFound` where the node is not there or carries no parameter,
    /// `TypeMismatch` where the value has no such reading.
    pub fn to_bool(&self, device: &Device) -> (r: Result<bool, Error>)
        ensures
            match r {
                Ok(v) => device@.parameter(self.node.id as int) matches Some(p) && p.value.to_bool() == Some(v),
                Err(e) => match device@.parameter(self.node.id as int) {
                    Some(p) => e == Error::TypeMismatch && p.value.to_bool() is None,
                    None => e == Error::NotFound,
                },
            },
    {
        if !device.has_parameter(self.node.id) {
            return Err(Error::NotFound);
        }
        match &device.nodes[self.node.id].parameter {
            Some(p) => p.value.to_bool(),
            None => Err(Error::NotFound),
        }
    }

    /// The current value as a character: `NotFound` where the node is not there or carries no parameter,
    /// `TypeMismatch` where the value has no such reading.
    pub fn to_char(&self, device: &Device) -> (r: Result<u8, Error>)
        ensures
            match r {
                Ok(v) => device@.parameter(self.node.id as int) matches Some(p) && p.value.to_char() == Some(v),
                Err(e) => match device@.parameter(self.node.id as int) {
                    Some(p) => e == Error::TypeMismatch && p.value.to_char() is None,
                    None => e == Error::NotFound,
                },
            },
    {
        if !device.has_parameter(self.node.id) {
            return Err(Error::NotFound);
        }
        match &device.nodes[self.node.id].parameter {
            Some(p) => p.value.to_char(),
            None => Err(Error::NotFound),
        }
    }

    /// The current value as a pair of floats: `NotFound` where the node is not there or carries no parameter,
    /// `TypeMismatch` where the value has no such reading.
    pub fn to_vec2f(&self, device: &Device) -> (r: Result<(Float, Float), Error>)
        ensures
            match r {
                Ok(v) => device@.parameter(self.node.id as int) matches Some(p) && p.value.to_vec2f() == Some(v),
                Err(e) => match device@.parameter(self.node.id as int) {
                    Some(p) => e == Error::TypeMismatch && p.value.to_vec2f() is None,
                    None => e == Error::NotFound,
                },
            },
    {
        if !device.has_parameter(self.node.id) {
            return Err(Error::NotFound);
        }
        match &device.nodes[self.node.id].parameter {
            Some(p) => p.value.to_vec2f(),
            None => Err(Error::NotFound),
        }
    }

    /// The current value as three floats: `NotFound` where the node is not there or carries no parameter,
    /// `TypeMismatch` where the value has no such reading.
    pub fn to_vec3f(&self, device: &Device) -> (r: Result<(Float, Float, Float), Error>)
        ensures
            match r {
                Ok(v) => device@.parameter(self.node.id as int) matches Some(p) && p.value.to_vec3f() == Some(v),
                Err(e) => match device@.parameter(self.node.id as int) {
                    Some(p) => e == Error::TypeMismatch && p.value.to_vec3f() is None,
                    None => e == Error::NotFound,
                },
            },
    {
        if !device.has_parameter(self.node.id) {
            return Err(Error::NotFound);
        }
        match &device.nodes[self.node.id].parameter {
            Some(p) => p.value.to_vec3f(),
            None => Err(Error::NotFound),
        }
    }

    /// The current value as four floats: `NotFound` where the node is not there or carries no parameter,
    /// `TypeMismatch` where the value has no such reading.
    pub fn to_vec4f(&self, device: &Device) -> (r: Result<(Float, Float, Float, Float), Error>)
        ensures
            match r {
                Ok(v) => device@.parameter(self.node.id as int) matches Some(p) && p.value.to_vec4f() == Some(v),
                Err(e) => match device@.parameter(self.node.id as int) {
                    Some(p) => e == Error::TypeMismatch && p.value.to_vec4f() is None,
                    None => e == Error::NotFound,
                },
            },
    {
        if !device.has_parameter(self.node.id) {
            return Err(Error::NotFound);
        }
        match &device.nodes[self.node.id].parameter {
            Some(p) => p.value.to_vec4f(),
            None => Err(Error::NotFound),
        }
    }

    /// The current value as bytes: `NotFound` where the node is not there or carries no parameter,
    /// `TypeMismatch` where the value has no such reading.
    pub fn to_bytes(&self, device: &Device) -> (r: Result<Vec<u8>, Error>)
        ensures
            match r {
                Ok(v) => device@.parameter(self.node.id as int) matches Some(p) && p.value.to_bytes() == Some(v@),
                Err(e) => match device@.parameter(self.node.id as int) {
                    Some(p) => e == Error::TypeMismatch && p.value.to_bytes() is None,
                    None => e == Error::NotFound,
                },
            },
    {
        if !device.has_parameter(self.node.id) {
            return Err(Error::NotFound);
        }
        match &device.nodes[self.node.id].parameter {
            Some(p) => p.value.to_bytes(),
            None => Err(Error::NotFound),
        }
    }

    /// The current value as a run of floats: `NotFound` where the node is not there or carries no parameter,
    /// `TypeMismatch` where the value has no such reading.
    pub fn to_floats(&self, device: &Device) -> (r: Result<Vec<Float>, Error>)
        ensures
            match r {
                Ok(v) => device@.parameter(self.node.id as int) matches Some(p) && p.value.to_floats() == Some(v@),
                Err(e) => match device@.parameter(self.node.id as int) {
                    Some(p) => e == Error::TypeMismatch && p.value.to_floats() is None,
                    None => e == Error::NotFound,
                },
            },
    {
        if !device.has_parameter(self.node.id) {
            return Err(Error::NotFound);
        }
        match &device.nodes[self.node.id].parameter {
            Some(p) => p.value.to_floats(),
            None => Err(Error::NotFound),
        }
    }

    /// The text of the current value: `NotFound` where the node is not there or carries no
    /// parameter, `TypeMismatch` where the value is no string.
    pub fn to_string(&self, device: &Device) -> (r: Result<String, Error>)
        ensures
            match r {
                Ok(v) => device@.parameter(self.node.id as int) matches Some(p) && p.value.to_text() == Some(v@),
                Err(e) => match device@.parameter(self.node.id as int) {
                    Some(p) => e == Error::TypeMismatch && p.value.to_text() is None,
                    None => e == Error::NotFound,
                },
            },
    {
        if !device.has_parameter(self.node.id) {
            return Err(Error::NotFound);
        }
        match &device.nodes[self.node.id].parameter {
            Some(p) => p.value.to_string(),
            None => Err(Error::NotFound),
        }
    }

    /// The integers of the current value: `NotFound` where the node is not there or carries
    /// no parameter, `TypeMismatch` where the value is no list of integers.
    pub fn to_ints(&self, device: &Device) -> (r: Result<Vec<i32>, Error>)
        ensures
            match r {
                Ok(v) => device@.parameter(self.node.id as int) matches Some(p) && p.value.to_ints() == Some(
                    v@.map_values(|x: i32| x as int),
                ),
                Err(e) => match device@.parameter(self.node.id as int) {
                    Some(p) => e == Error::TypeMismatch && p.value.to_ints() is None,
                    None => e == Error::NotFound,
                },
            },
    {
        if !device.has_parameter(self.node.id) {
            return Err(Error::NotFound);
        }
        match &device.nodes[self.node.id].parameter {
            Some(p) => p.value.to_ints(),
            None => Err(Error::NotFound),
        }
    }

    /// The parameters that a list-valued parameter splits into. No convention for the split
    /// is defined, so this is `Unsupported` for every parameter, and `NotFound` where the
    /// node is not there or carries none.
    pub fn to_parameters(&self, device: &Device) -> (r: Result<Vec<Parameter>, Error>)
        ensures
            r is Err,
            r->Err_0 == if device@.parameter(self.node.id as int) is Some {
                Error::Unsupported
            } else {
                Error::NotFound
            },
    {
        if device.has_parameter(self.node.id) {
            Err(Error::Unsupported)
        } else {
            Err(Error::NotFound)
        }
    }

    /// Attaches a domain. `NotFound` where the node is not there or carries no parameter,
    /// `InvalidDomain` where a bound or an admitted value of the domain has another type
    /// than the parameter. In both cases nothing changes.
    pub fn set_domain(&self, device: &mut Device, domain: Domain) -> (r: Result<(), Error>)
        requires
            old(device).wf(),
        ensures
            final(device).wf(),
            match r {
                Ok(_) => old(device)@.parameter(self.node.id as int) matches Some(p) && domain@.fits(p.kind)
                    && final(device)@ == old(device)@.with_parameter(
                    self.node.id as int,
                    Some(ParameterModel { domain: Some(domain@), ..p }),
                ),
                Err(e) => final(device)@ == old(device)@ && match old(device)@.parameter(self.node.id as int) {
                    Some(p) => e == Error::InvalidDomain && !domain@.fits(p.kind),
                    None => e == Error::NotFound,
                },
            },
    {
        if !device.has_parameter(self.node.id) {
            return Err(Error::NotFound);
        }
        let fits = match &device.nodes[self.node.id].parameter {
            Some(p) => domain.fits(p.kind),
            None => false,
        };
        if !fits {
            return Err(Error::InvalidDomain);
        }
        let mut p = device.take_parameter(self.node.id);
        p.domain = Some(domain);
        device.put_parameter(self.node.id, Some(p));
        proof {
            lemma_put_after_take(old(device)@, self.node.id as int, Some(p.model()));
        }
        Ok(())
    }

    /// Writes the value without notifying anyone: the value is converted to the type of the
    /// parameter and stored as it is, whatever the domain says.
    ///
    /// `NotFound` where the node is not there or carries no parameter, `TypeMismatch` where
    /// the coercion rules allow no conversion. In both cases nothing changes.
    pub fn set_value(&self, device: &mut Device, value: Value) -> (r: Result<(), Error>)
        requires
            old(device).wf(),
        ensures
            final(device).wf(),
            match r {
                Ok(_) => old(device)@.parameter(self.node.id as int) matches Some(p) && value@.converted(
                    p.kind,
                ) matches Some(c) && final(device)@ == old(device)@.with_parameter(
                    self.node.id as int,
                    Some(ParameterModel { value: c, ..p }),
                ),
                Err(e) => final(device)@ == old(device)@ && match old(device)@.parameter(self.node.id as int) {
                    Some(p) => e == Error::TypeMismatch && value@.converted(p.kind) is None,
                    None => e == Error::NotFound,
                },
            },
    {
        if !device.has_parameter(self.node.id) {
            return Err(Error::NotFound);
        }
        let converted = match &device.nodes[self.node.id].parameter {
            Some(p) => value.convert(p.kind),
            None => Err(Error::NotFound),
        };
        match converted {
            Ok(c) => {
                proof {
                    crate::value::lemma_converted_kind(value@, device@.parameter(self.node.id as int)->Some_0.kind);
                }
                let mut p = device.take_parameter(self.node.id);
                p.value = c;
                device.put_parameter(self.node.id, Some(p));
                proof {
                    lemma_put_after_take(old(device)@, self.node.id as int, Some(p.model()));
                }
                Ok(())
            },
            Err(e) => Err(e),
        }
    }

    /// The canonical update: the value is converted to the type of the parameter, brought
    /// into the domain under the bounding mode, and stored as the current and as the last
    /// pushed value. Returns the subscribers to call, each once, in registration order:
    /// all of them while the parameter is listening, none while it is not.
    ///
    /// `NotFound` where the node is not there or carries no parameter, `TypeMismatch` where
    /// the coercion rules allow no conversion. In both cases nothing changes.
    pub fn push_value(&self, device: &mut Device, value: Value) -> (r: Result<Vec<ValueCallbackIdx>, Error>)
        requires
            old(device).wf(),
        ensures
            final(device).wf(),
            pushed_as(old(device)@, final(device)@, self.node.id as int, value@, r),
    {
        if !device.has_parameter(self.node.id) {
            return Err(Error::NotFound);
        }
        let admitted = match &device.nodes[self.node.id].parameter {
            Some(p) => match value.convert(p.kind) {
                Ok(c) => match &p.domain {
                    Some(d) => Ok(d.apply(&c, p.bounding)),
                    None => Ok(c),
                },
                Err(e) => Err(e),
            },
            None => Err(Error::NotFound),
        };
        match admitted {
            Ok(b) => {
                proof {
                    let pm = device@.parameter(self.node.id as int)->Some_0;
                    crate::value::lemma_converted_kind(value@, pm.kind);
                    if pm.domain is Some {
                        lemma_bound_value_keeps_kind(
                            value@.converted(pm.kind)->Some_0,
                            pm.domain->Some_0.min,
                            pm.domain->Some_0.max,
                            pm.bounding,
                        );
                    }
                }
                let mut p = device.take_parameter(self.node.id);
                p.pushed = b.clone();
                p.value = b;
                let called = if p.listening {
                    ids_of(&p.subscribers)
                } else {
                    Vec::new()
                };
                device.put_parameter(self.node.id, Some(p));
                proof {
                    lemma_put_after_take(old(device)@, self.node.id as int, Some(p.model()));
                }
                Ok(called)
            },
            Err(e) => Err(e),
        }
    }

    /// Registers a subscriber to value changes at the end of the list and returns its
    /// token, which no earlier registration on this parameter had.
    ///
    /// `NotFound` where the node is not there or carries no parameter, `Unsupported` once
    /// all tokens are spent. In both cases nothing changes.
    pub fn add_callback(&self, device: &mut Device) -> (r: Result<ValueCallbackIdx, Error>)
        requires
            old(device).wf(),
        ensures
            final(device).wf(),
            match r {
                Ok(idx) => old(device)@.parameter(self.node.id as int) matches Some(p) && p.subscribers.next
                    < u64::MAX && idx.token == p.subscribers.next && final(device)@ == old(
                    device,
                )@.with_parameter(
                    self.node.id as int,
                    Some(ParameterModel { subscribers: p.subscribers.added(), ..p }),
                ),
                Err(e) => final(device)@ == old(device)@ && match old(device)@.parameter(self.node.id as int) {
                    Some(p) => e == Error::Unsupported && p.subscribers.next == u64::MAX,
                    None => e == Error::NotFound,
                },
            },
    {
        if !device.has_parameter(self.node.id) {
            return Err(Error::NotFound);
        }
        let mut p = device.take_parameter(self.node.id);
        let issued = p.subscribers.add();
        device.put_parameter(self.node.id, Some(p));
        proof {
            lemma_put_after_take(old(device)@, self.node.id as int, Some(p.model()));
        }
        match issued {
            Some(token) => Ok(ValueCallbackIdx { token }),
            None => {
                proof {
                    let d = old(device)@;
                    let n = self.node.id as int;
                    assert(d.with_parameter(n, d.nodes[n].parameter).nodes =~= d.nodes);
                }
                Err(Error::Unsupported)
            },
        }
    }

    /// Registers a subscriber like [`Parameter::add_callback`] without handing out its
    /// token; it is the last of [`Parameter::callbacks`].
    pub fn push_callback(&self, device: &mut Device) -> (r: Result<(), Error>)
        requires
            old(device).wf(),
        ensures
            final(device).wf(),
            match r {
                Ok(_) => old(device)@.parameter(self.node.id as int) matches Some(p) && p.subscribers.next
                    < u64::MAX && final(device)@ == old(device)@.with_parameter(
                    self.node.id as int,
                    Some(ParameterModel { subscribers: p.subscribers.added(), ..p }),
                ),
                Err(e) => final(device)@ == old(device)@ && match old(device)@.parameter(self.node.id as int) {
                    Some(p) => e == Error::Unsupported && p.subscribers.next == u64::MAX,
                    None => e == Error::NotFound,
                },
            },
    {
        match self.add_callback(device) {
            Ok(_) => Ok(()),
            Err(e) => Err(e),
        }
    }

    /// Removes the subscriber with the given token. Nothing changes where the token is not
    /// registered, or where the node is not there or carries no parameter.
    pub fn rm_callback(&self, device: &mut Device, index: ValueCallbackIdx)
        requires
            old(device).wf(),
        ensures
            final(device).wf(),
            final(device)@ == match old(device)@.parameter(self.node.id as int) {
                Some(p) => old(device)@.with_parameter(
                    self.node.id as int,
                    Some(ParameterModel { subscribers: p.subscribers.removed(index.token), ..p }),
                ),
                None => old(device)@,
            },
    {
        if !device.has_parameter(self.node.id) {
            return ;
        }
        let mut p = device.take_parameter(self.node.id);
        p.subscribers.remove(index.token);
        device.put_parameter(self.node.id, Some(p));
        proof {
            lemma_put_after_take(old(device)@, self.node.id as int, Some(p.model()));
        }
    }
}

/// What an optional domain denotes.
pub open spec fn opt_domain(d: Option<Domain>) -> Option<DomainModel> {
    match d {
        Some(x) => Some(x@),
        None => None,
    }
}

/// What a push of `value` to the parameter of node `n` does, and what it returns.
///
/// On success the parameter holds the admitted value as its current and its last pushed
/// value, and the result lists the subscribers to call. On refusal nothing changes.
pub open spec fn pushed_as(
    before: DeviceModel,
    after: DeviceModel,
    n: int,
    value: ValueModel,
    r: Result<Vec<ValueCallbackIdx>, Error>,
) -> bool {
    match r {
        Ok(called) => before.parameter(n) matches Some(p) && p.admitted(value) matches Some(b) && after
            == before.with_parameter(n, Some(ParameterModel { value: b, pushed: b, ..p })) && called@
            == p.notified(),
        Err(e) => after == before && match before.parameter(n) {
            Some(p) => e == Error::TypeMismatch && p.admitted(value) is None,
            None => e == Error::NotFound,
        },
    }
}

/// The callback ids of a subscriber list, in registration order.
fn ids_of(subscribers: &Subscribers) -> (r: Vec<ValueCallbackIdx>)
    ensures
        r@ == callback_ids(subscribers@.tokens),
{
    let tokens = subscribers.tokens();
    let mut out: Vec<ValueCallbackIdx> = Vec::new();
    let mut i: usize = 0;
    while i < tokens.len()
        invariant
            i <= tokens.len(),
            out.len() == i,
            forall|k: int| 0 <= k < i ==> out[k] == (ValueCallbackIdx { token: tokens[k] }),
        decreases tokens.len() - i,
    {
        out.push(ValueCallbackIdx { token: tokens[i] });
        i += 1;
    }
    assert(out@ =~= callback_ids(tokens@));
    out
}

/// Pushing a value of some Rust type into a parameter.
pub trait Push<T> {
    /// The node whose parameter is pushed to.
    spec fn target(&self) -> int;

    /// The value that the argument stands for.
    spec fn offered(value: T) -> ValueModel;

    /// Pushes `value`: see [`Parameter::push_value`].
    fn push(&self, device: &mut Device, value: T) -> (r: Result<Vec<ValueCallbackIdx>, Error>)
        requires
            old(device).wf(),
        ensures
            final(device).wf(),
            pushed_as(old(device)@, final(device)@, self.target(), Self::offered(value), r),
    ;
}

impl Push<Value> for Parameter {
    open spec fn target(&self) -> int {
        self.node.id as int
    }

    open spec fn offered(value: Value) -> ValueModel {
        value@
    }

    fn push(&self, device: &mut Device, value: Value) -> (r: Result<Vec<ValueCallbackIdx>, Error>) {
        self.push_value(device, value)
    }
}

impl Push<()> for Parameter {
    open spec fn target(&self) -> int {
        self.node.id as int
    }

    open spec fn offered(value: ()) -> ValueModel {
        ValueModel::Impulse
    }

    fn push(&self, device: &mut Device, value: ()) -> (r: Result<Vec<ValueCallbackIdx>, Error>) {
        self.push_value(device, Value::Impulse)
    }
}

impl Push<i32> for Parameter {
    open spec fn target(&self) -> int {
        self.node.id as int
    }

    open spec fn offered(value: i32) -> ValueModel {
        ValueModel::Int(value as int)
    }

    fn push(&self, device: &mut Device, value: i32) -> (r: Result<Vec<ValueCallbackIdx>, Error>) {
        self.push_value(device, Value::Int(value))
    }
}

impl Push<bool> for Parameter {
    open spec fn target(&self) -> int {
        self.node.id as int
    }

    open spec fn offered(value: bool) -> ValueModel {
        ValueModel::Bool(value)
    }

    fn push(&self, device: &mut Device, value: bool) -> (r: Result<Vec<ValueCallbackIdx>, Error>) {
        self.push_value(device, Value::Bool(value))
    }
}

impl Push<Float> for Parameter {
    open spec fn target(&self) -> int {
        self.node.id as int
    }

    open spec fn offered(value: Float) -> ValueModel {
        ValueModel::Float(value)
    }

    fn push(&self, device: &mut Device, value: Float) -> (r: Result<Vec<ValueCallbackIdx>, Error>) {
        self.push_value(device, Value::Float(value))
    }
}

impl Push<(Float, Float)> for Parameter {
    open spec fn target(&self) -> int {
        self.node.id as int
    }

    open spec fn offered(value: (Float, Float)) -> ValueModel {
        ValueModel::Vec2f(value.0, value.1)
    }

    fn push(&self, device: &mut Device, value: (Float, Float)) -> (r: Result<Vec<ValueCallbackIdx>, Error>) {
        self.push_value(device, Value::Vec2f(value.0, value.1))
    }
}

impl Push<(Float, Float, Float)> for Parameter {
    open spec fn target(&self) -> int {
        self.node.id as int
    }

    open spec fn offered(value: (Float, Float, Float)) -> ValueModel {
        ValueModel::Vec3f(value.0, value.1, value.2)
    }

    fn push(&self, device: &mut Device, value: (Float, Float, Float)) -> (r: Result<Vec<ValueCallbackIdx>, Error>) {
        self.push_value(device, Value::Vec3f(value.0, value.1, value.2))
    }
}

impl Push<(Float, Float, Float, Float)> for Parameter {
    open spec fn target(&self) -> int {
        self.node.id as int
    }

    open spec fn offered(value: (Float, Float, Float, Float)) -> ValueModel {
        ValueModel::Vec4f(value.0, value.1, value.2, value.3)
    }

    fn push(&self, device: &mut Device, value: (Float, Float, Float, Float)) -> (r: Result<Vec<ValueCallbackIdx>, Error>) {
        self.push_value(device, Value::Vec4f(value.0, value.1, value.2, value.3))
    }
}

impl Push<u8> for Parameter {
    open spec fn target(&self) -> int {
        self.node.id as int
    }

    open spec fn offered(value: u8) -> ValueModel {
        ValueModel::Char(value)
    }

    fn push(&self, device: &mut Device, value: u8) -> (r: Result<Vec<ValueCallbackIdx>, Error>) {
        self.push_value(device, Value::Char(value))
    }
}

impl Push<&str> for Parameter {
    open spec fn target(&self) -> int {
        self.node.id as int
    }

    open spec fn offered(value: &str) -> ValueModel {
        ValueModel::String(value@)
    }

    fn push(&self, device: &mut Device, value: &str) -> (r: Result<Vec<ValueCallbackIdx>, Error>) {
        self.push_value(device, Value::string(value))
    }
}

impl Push<&[i32]> for Parameter {
    open spec fn target(&self) -> int {
        self.node.id as int
    }

    open spec fn offered(value: &[i32]) -> ValueModel {
        ValueModel::List(int_models(value@))
    }

    fn push(&self, device: &mut Device, value: &[i32]) -> (r: Result<Vec<ValueCallbackIdx>, Error>) {
        self.push_value(device, Value::ints(value))
    }
}

impl Push<&[Float]> for Parameter {
    open spec fn target(&self) -> int {
        self.node.id as int
    }

    open spec fn offered(value: &[Float]) -> ValueModel {
        ValueModel::List(float_models(value@))
    }

    fn push(&self, device: &mut Device, value: &[Float]) -> (r: Result<Vec<ValueCallbackIdx>, Error>) {
        self.push_value(device, Value::floats(value))
    }
}

impl Push<&[Value]> for Parameter {
    open spec fn target(&self) -> int {
        self.node.id as int
    }

    open spec fn offered(value: &[Value]) -> ValueModel {
        ValueModel::List(crate::value::models(value@))
    }

    fn push(&self, device: &mut Device, value: &[Value]) -> (r: Result<Vec<ValueCallbackIdx>, Error>) {
        let items = crate::domain::clone_slice(value);
        proof {
            crate::value::lemma_list_view(items);
        }
        self.push_value(device, Value::List(items))
    }
}

} // verus!
