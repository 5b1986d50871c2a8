//! Domains: the range or the set of values that a parameter admits, and the bounding modes
//! that bring a value into a range.

use crate::float::Float;
use crate::value::{models, Type, Value, ValueModel};
use vstd::arithmetic::div_mod::{lemma_fundamental_div_mod, lemma_fundamental_div_mod_converse, lemma_mod_bound};
use vstd::prelude::*;

verus! {

/// How a value outside the range of its domain is brought into it.
#[derive(Clone, Copy, Debug, PartialEq, Eq, Structural)]
pub enum Bounding {
    /// The value passes unchanged.
    Free,
    /// The value saturates at the bound it crosses.
    Clip,
    /// The value wraps around the range.
    Wrap,
    /// The value is reflected at the bounds.
    Fold,
    /// Only the lower bound holds.
    Low,
    /// Only the upper bound holds.
    High,
}

impl Bounding {
    /// The integer code of each mode.
    pub open spec fn code(self) -> int {
        match self {
            Bounding::Free => 0,
            Bounding::Clip => 1,
            Bounding::Wrap => 2,
            Bounding::Fold => 3,
            Bounding::Low => 4,
            Bounding::High => 5,
        }
    }

    /// The integer code of this mode.
    pub fn repr(&self) -> (r: i32)
        ensures
            r == self.code(),
    {
        match self {
            Bounding::Free => 0,
            Bounding::Clip => 1,
            Bounding::Wrap => 2,
            Bounding::Fold => 3,
            Bounding::Low => 4,
            Bounding::High => 5,
        }
    }

    /// The mode with the given code, if there is one.
    pub fn from_repr(x: i32) -> (r: Option<Bounding>)
        ensures
            match r {
                Some(m) => m.code() == x,
                None => forall|m: Bounding| m.code() != x,
            },
    {
        match x {
            0 => Some(Bounding::Free),
            1 => Some(Bounding::Clip),
            2 => Some(Bounding::Wrap),
            3 => Some(Bounding::Fold),
            4 => Some(Bounding::Low),
            5 => Some(Bounding::High),
            _ => None,
        }
    }
}

/// `v` raised to the lower bound, if there is one.
pub open spec fn at_least(v: int, lo: Option<int>) -> int {
    match lo {
        Some(l) => if v < l { l } else { v },
        None => v,
    }
}

/// `v` lowered to the upper bound, if there is one.
pub open spec fn at_most(v: int, hi: Option<int>) -> int {
    match hi {
        Some(h) => if v > h { h } else { v },
        None => v,
    }
}

/// `v` wrapped around `[lo, hi]`: a value inside stays, one outside moves by a multiple of
/// `hi - lo` into `[lo, hi)`.
pub open spec fn wrapped(v: int, lo: int, hi: int) -> int {
    if lo <= v <= hi {
        v
    } else if lo < hi {
        lo + (v - lo) % (hi - lo)
    } else {
        v
    }
}

/// `v` folded into `[lo, hi]`: the distance from `lo` runs up to the width and back down
/// again, like a triangle wave of period twice the width.
pub open spec fn folded(v: int, lo: int, hi: int) -> int {
    if lo <= v <= hi {
        v
    } else if lo < hi {
        let r = (v - lo) % (2 * (hi - lo));
        if r <= hi - lo {
            lo + r
        } else {
            hi - (r - (hi - lo))
        }
    } else {
        v
    }
}

/// An integer brought into the bounds under the given mode.
///
/// `Clip` saturates at whichever bound is crossed. `Wrap` and `Fold` act where both bounds
/// are there and `lo < hi`, and leave the value alone otherwise. `Low` and `High` hold one
/// bound and leave the other open.
pub open spec fn bound_int(v: int, lo: Option<int>, hi: Option<int>, mode: Bounding) -> int {
    match mode {
        Bounding::Free => v,
        Bounding::Clip => at_most(at_least(v, lo), hi),
        Bounding::Low => at_least(v, lo),
        Bounding::High => at_most(v, hi),
        Bounding::Wrap => match (lo, hi) {
            (Some(l), Some(h)) => wrapped(v, l, h),
            _ => v,
        },
        Bounding::Fold => match (lo, hi) {
            (Some(l), Some(h)) => folded(v, l, h),
            _ => v,
        },
    }
}

/// `v` raised to the lower bound, if there is one, by the order of floats.
pub open spec fn float_at_least(v: Float, lo: Option<Float>) -> Float {
    match lo {
        Some(l) => if v.lt(l) { l } else { v },
        None => v,
    }
}

/// `v` lowered to the upper bound, if there is one, by the order of floats.
pub open spec fn float_at_most(v: Float, hi: Option<Float>) -> Float {
    match hi {
        Some(h) => if h.lt(v) { h } else { v },
        None => v,
    }
}

/// Whether `Wrap` and `Fold` move `v`: all three are finite, the range is proper, and `v`
/// lies outside it.
pub open spec fn float_moves(v: Float, lo: Float, hi: Float) -> bool {
    v.is_finite() && lo.is_finite() && hi.is_finite() && lo.scaled() < hi.scaled() && !(lo.scaled()
        <= v.scaled() <= hi.scaled())
}

/// A float brought into the bounds under the given mode.
///
/// `Clip`, `Low` and `High` saturate by the order of floats; a NaN, or a bound that is NaN,
/// compares with nothing and changes nothing. `Wrap` and `Fold` act on the exact values, as
/// on integers, where the value and both bounds are finite and the range is proper: the
/// result is rounded once to the nearest float and held within the bounds. Otherwise they
/// leave the value alone.
pub open spec fn bound_float(v: Float, lo: Option<Float>, hi: Option<Float>, mode: Bounding) -> Float {
    match mode {
        Bounding::Free => v,
        Bounding::Clip => float_at_most(float_at_least(v, lo), hi),
        Bounding::Low => float_at_least(v, lo),
        Bounding::High => float_at_most(v, hi),
        Bounding::Wrap => match (lo, hi) {
            (Some(l), Some(h)) => if float_moves(v, l, h) {
                float_at_most(
                    float_at_least(Float::nearest_scaled(wrapped(v.scaled(), l.scaled(), h.scaled())), lo),
                    hi,
                )
            } else {
                v
            },
            _ => v,
        },
        Bounding::Fold => match (lo, hi) {
            (Some(l), Some(h)) => if float_moves(v, l, h) {
                float_at_most(
                    float_at_least(Float::nearest_scaled(folded(v.scaled(), l.scaled(), h.scaled())), lo),
                    hi,
                )
            } else {
                v
            },
            _ => v,
        },
    }
}

/// The integer of an `Int` bound.
pub open spec fn int_bound(b: Option<ValueModel>) -> Option<int> {
    match b {
        Some(ValueModel::Int(i)) => Some(i),
        _ => None,
    }
}

/// The code of a `Char` bound.
pub open spec fn char_bound(b: Option<ValueModel>) -> Option<int> {
    match b {
        Some(ValueModel::Char(c)) => Some(c as int),
        _ => None,
    }
}

/// Component `k` of a bound of type `t`: a `Float` bound has one component, a vector bound
/// as many as the vector.
pub open spec fn float_bound(b: Option<ValueModel>, t: Type, k: int) -> Option<Float> {
    match b {
        Some(ValueModel::Float(f)) => if t == Type::Float && k == 0 { Some(f) } else { None },
        Some(ValueModel::Vec2f(x, y)) => if t != Type::Vec2f {
            None
        } else if k == 0 {
            Some(x)
        } else if k == 1 {
            Some(y)
        } else {
            None
        },
        Some(ValueModel::Vec3f(x, y, z)) => if t != Type::Vec3f {
            None
        } else if k == 0 {
            Some(x)
        } else if k == 1 {
            Some(y)
        } else if k == 2 {
            Some(z)
        } else {
            None
        },
        Some(ValueModel::Vec4f(x, y, z, w)) => if t != Type::Vec4f {
            None
        } else if k == 0 {
            Some(x)
        } else if k == 1 {
            Some(y)
        } else if k == 2 {
            Some(z)
        } else if k == 3 {
            Some(w)
        } else {
            None
        },
        _ => None,
    }
}

/// A value brought into the bounds `lo` and `hi` under the given mode.
///
/// A bound holds for values of its own type. Integers and characters are bounded by
/// [`bound_int`], floats by [`bound_float`], vectors component by component. Values without
/// an order (impulse, boolean, string, bytes, list) pass unchanged.
pub open spec fn bound_value(v: ValueModel, lo: Option<ValueModel>, hi: Option<ValueModel>, mode: Bounding) -> ValueModel {
    match v {
        ValueModel::Int(i) => ValueModel::Int(bound_int(i, int_bound(lo), int_bound(hi), mode)),
        ValueModel::Char(c) => ValueModel::Char(
            bound_int(c as int, char_bound(lo), char_bound(hi), mode) as u8,
        ),
        ValueModel::Float(f) => ValueModel::Float(
            bound_float(f, float_bound(lo, Type::Float, 0), float_bound(hi, Type::Float, 0), mode),
        ),
        ValueModel::Vec2f(a, b) => ValueModel::Vec2f(
            bound_float(a, float_bound(lo, Type::Vec2f, 0), float_bound(hi, Type::Vec2f, 0), mode),
            bound_float(b, float_bound(lo, Type::Vec2f, 1), float_bound(hi, Type::Vec2f, 1), mode),
        ),
        ValueModel::Vec3f(a, b, c) => ValueModel::Vec3f(
            bound_float(a, float_bound(lo, Type::Vec3f, 0), float_bound(hi, Type::Vec3f, 0), mode),
            bound_float(b, float_bound(lo, Type::Vec3f, 1), float_bound(hi, Type::Vec3f, 1), mode),
            bound_float(c, float_bound(lo, Type::Vec3f, 2), float_bound(hi, Type::Vec3f, 2), mode),
        ),
        ValueModel::Vec4f(a, b, c, d) => ValueModel::Vec4f(
            bound_float(a, float_bound(lo, Type::Vec4f, 0), float_bound(hi, Type::Vec4f, 0), mode),
            bound_float(b, float_bound(lo, Type::Vec4f, 1), float_bound(hi, Type::Vec4f, 1), mode),
            bound_float(c, float_bound(lo, Type::Vec4f, 2), float_bound(hi, Type::Vec4f, 2), mode),
            bound_float(d, float_bound(lo, Type::Vec4f, 3), float_bound(hi, Type::Vec4f, 3), mode),
        ),
        _ => v,
    }
}

/// Bounding a value never changes its type.
pub proof fn lemma_bound_value_keeps_kind(
    v: ValueModel,
    lo: Option<ValueModel>,
    hi: Option<ValueModel>,
    mode: Bounding,
)
    ensures
        bound_value(v, lo, hi, mode).kind() == v.kind(),
{
}

/// The result of [`bound_int`] never leaves the span of its three arguments.
pub proof fn lemma_bound_int_stays_between(v: int, lo: Option<int>, hi: Option<int>, mode: Bounding)
    ensures
        ({
            let r = bound_int(v, lo, hi, mode);
            let a = at_least_of(v, lo, hi);
            let b = at_most_of(v, lo, hi);
            a <= r <= b
        }),
{
    match (lo, hi) {
        (Some(l), Some(h)) => {
            if l < h {
                lemma_mod_bound(v - l, h - l);
                lemma_mod_bound(v - l, 2 * (h - l));
            }
        },
        _ => {},
    }
}

/// The least of a value and the bounds that are there.
pub open spec fn at_least_of(v: int, lo: Option<int>, hi: Option<int>) -> int {
    let a = match lo {
        Some(l) => if l < v { l } else { v },
        None => v,
    };
    match hi {
        Some(h) => if h < a { h } else { a },
        None => a,
    }
}

/// The greatest of a value and the bounds that are there.
pub open spec fn at_most_of(v: int, lo: Option<int>, hi: Option<int>) -> int {
    let a = match lo {
        Some(l) => if l > v { l } else { v },
        None => v,
    };
    match hi {
        Some(h) => if h > a { h } else { a },
        None => a,
    }
}

/// Euclidean remainder of `d` by a positive `m`.
fn rem_euclid(d: i64, m: i64) -> (r: i64)
    requires
        m > 0,
        d > i64::MIN,
    ensures
        r == d as int % m as int,
{
    if d >= 0 {
        d % m
    } else {
        let n: i64 = -d;
        let k: i64 = n % m;
        proof {
            lemma_fundamental_div_mod(n as int, m as int);
            let q = n as int / (m as int);
            if k == 0 {
                assert(d as int == (-q) * m + 0) by (nonlinear_arith)
                    requires
                        n as int == m * q + k,
                        k == 0,
                        d as int == -(n as int),
                ;
                lemma_fundamental_div_mod_converse(d as int, m as int, -q, 0);
            } else {
                assert(d as int == (-q - 1) * m + (m - k)) by (nonlinear_arith)
                    requires
                        n as int == m * q + k,
                        d as int == -(n as int),
                ;
                lemma_fundamental_div_mod_converse(d as int, m as int, -q - 1, m - k);
            }
        }
        if k == 0 {
            0
        } else {
            m - k
        }
    }
}

/// Brings an integer into the bounds under the given mode.
fn bound_i64(v: i64, lo: Option<i64>, hi: Option<i64>, mode: Bounding) -> (r: i64)
    requires
        -0x1_0000_0000 <= v <= 0x1_0000_0000,
        lo matches Some(l) ==> -0x1_0000_0000 <= l <= 0x1_0000_0000,
        hi matches Some(h) ==> -0x1_0000_0000 <= h <= 0x1_0000_0000,
    ensures
        r == bound_int(v as int, opt_int(lo), opt_int(hi), mode),
{
    match mode {
        Bounding::Free => v,
        Bounding::Clip => {
            let a = match lo {
                Some(l) => if v < l { l } else { v },
                None => v,
            };
            match hi {
                Some(h) => if a > h { h } else { a },
                None => a,
            }
        },
        Bounding::Low => match lo {
            Some(l) => if v < l { l } else { v },
            None => v,
        },
        Bounding::High => match hi {
            Some(h) => if v > h { h } else { v },
            None => v,
        },
        Bounding::Wrap => match (lo, hi) {
            (Some(l), Some(h)) => {
                if (l <= v && v <= h) || l >= h {
                    v
                } else {
                    l + rem_euclid(v - l, h - l)
                }
            },
            _ => v,
        },
        Bounding::Fold => match (lo, hi) {
            (Some(l), Some(h)) => {
                if (l <= v && v <= h) || l >= h {
                    v
                } else {
                    let width: i64 = h - l;
                    let r = rem_euclid(v - l, 2 * width);
                    if r <= width {
                        l + r
                    } else {
                        h - (r - width)
                    }
                }
            },
            _ => v,
        },
    }
}

/// The bound as a mathematical integer.
pub open spec fn opt_int(b: Option<i64>) -> Option<int> {
    match b {
        Some(x) => Some(x as int),
        None => None,
    }
}

/// Whether a float is neither NaN nor an infinity.
fn finite(f: Float) -> (r: bool)
    ensures
        r == f.is_finite(),
{
    f.bits % 0x8000_0000 < 0x7f80_0000
}

/// Brings a float into the bounds under the given mode.
fn bound_f32(v: Float, lo: Option<Float>, hi: Option<Float>, mode: Bounding) -> (r: Float)
    ensures
        r == bound_float(v, lo, hi, mode),
{
    match mode {
        Bounding::Free => v,
        Bounding::Clip => {
            let low = match lo {
                Some(l) => if v.less(&l) { l } else { v },
                None => v,
            };
            match hi {
                Some(h) => if h.less(&low) { h } else { low },
                None => low,
            }
        },
        Bounding::Low => match lo {
            Some(l) => if v.less(&l) { l } else { v },
            None => v,
        },
        Bounding::High => match hi {
            Some(h) => if h.less(&v) { h } else { v },
            None => v,
        },
        Bounding::Wrap | Bounding::Fold => match (lo, hi) {
            (Some(l), Some(h)) => {
                if !(finite(v) && finite(l) && finite(h)) {
                    return v;
                }
                proof {
                    crate::float::lemma_order_is_value_order(l, h);
                    crate::float::lemma_order_is_value_order(l, v);
                    crate::float::lemma_order_is_value_order(v, h);
                }
                if !l.less(&h) || (l.less_eq(&v) && v.less_eq(&h)) {
                    return v;
                }
                let moved = crate::exact::wrap_or_fold(v, l, h, matches!(mode, Bounding::Fold));
                let low = if moved.less(&l) { l } else { moved };
                if h.less(&low) {
                    h
                } else {
                    low
                }
            },
            _ => v,
        },
    }
}

/// A constraint on the values of a parameter: a lower and an upper bound, each of which may
/// be absent, and a set of admitted values, which may be empty.
#[derive(Debug, PartialEq)]
pub struct Domain {
    min: Option<Value>,
    max: Option<Value>,
    values: Vec<Value>,
}

/// What a [`Domain`] denotes.
pub struct DomainModel {
    pub min: Option<ValueModel>,
    pub max: Option<ValueModel>,
    pub values: Seq<ValueModel>,
}

/// What an optional value denotes.
pub open spec fn opt_model(v: Option<Value>) -> Option<ValueModel> {
    match v {
        Some(x) => Some(x@),
        None => None,
    }
}

impl DomainModel {
    /// `value` brought into the bounds of this domain under `mode`. The set of admitted
    /// values plays no part in it.
    pub open spec fn apply(self, value: ValueModel, mode: Bounding) -> ValueModel {
        bound_value(value, self.min, self.max, mode)
    }

    /// Every bound and every admitted value has type `t`.
    pub open spec fn fits(self, t: Type) -> bool {
        &&& self.min matches Some(m) ==> m.kind() == t
        &&& self.max matches Some(m) ==> m.kind() == t
        &&& forall|i: int| 0 <= i < self.values.len() ==> (#[trigger] self.values[i]).kind() == t
    }
}

impl View for Domain {
    type V = DomainModel;

    closed spec fn view(&self) -> DomainModel {
        DomainModel { min: opt_model(self.min), max: opt_model(self.max), values: models(self.values@) }
    }
}

impl Clone for Domain {
    /// An independent copy that denotes the same domain.
    fn clone(&self) -> (r: Domain)
        ensures
            r@ == self@,
    {
        let min = match &self.min {
            Some(v) => Some(v.clone()),
            None => None,
        };
        let max = match &self.max {
            Some(v) => Some(v.clone()),
            None => None,
        };
        let values = clone_values(&self.values);
        Domain { min, max, values }
    }
}

/// Copies of the given values, in order.
pub fn clone_values(v: &Vec<Value>) -> (r: Vec<Value>)
    ensures
        models(r@) == models(v@),
{
    let mut out: Vec<Value> = Vec::new();
    let mut i: usize = 0;
    while i < v.len()
        invariant
            i <= v.len(),
            out.len() == i,
            forall|k: int| 0 <= k < i ==> out[k]@ == v[k]@,
        decreases v.len() - i,
    {
        out.push(v[i].clone());
        i += 1;
    }
    assert(models(out@) =~= models(v@));
    out
}

/// Copies of the values of a slice, in order.
pub fn clone_slice(v: &[Value]) -> (r: Vec<Value>)
    ensures
        models(r@) == models(v@),
{
    let mut out: Vec<Value> = Vec::new();
    let mut i: usize = 0;
    while i < v.len()
        invariant
            i <= v.len(),
            out.len() == i,
            forall|k: int| 0 <= k < i ==> out[k]@ == v[k]@,
        decreases v.len() - i,
    {
        out.push(v[i].clone());
        i += 1;
    }
    assert(models(out@) =~= models(v@));
    out
}

impl Domain {
    /// A domain without bounds and without admitted values: it constrains nothing.
    pub fn new() -> (r: Domain)
        ensures
            r@ == (DomainModel { min: None, max: None, values: Seq::empty() }),
    {
        let r = Domain { min: None, max: None, values: Vec::new() };
        assert(r@.values =~= Seq::empty());
        r
    }

    /// The range from `min` to `max`.
    pub fn range(min: Value, max: Value) -> (r: Domain)
        ensures
            r@ == (DomainModel { min: Some(min@), max: Some(max@), values: Seq::empty() }),
    {
        let r = Domain { min: Some(min), max: Some(max), values: Vec::new() };
        assert(r@.values =~= Seq::empty());
        r
    }

    /// The set of the given strings.
    pub fn strings(set: &[&str]) -> (r: Domain)
        ensures
            r@.min is None,
            r@.max is None,
            r@.values.len() == set.len(),
            forall|i: int| 0 <= i < set.len() ==> r@.values[i] == ValueModel::String(set[i]@),
    {
        let mut values: Vec<Value> = Vec::new();
        let mut i: usize = 0;
        while i < set.len()
            invariant
                i <= set.len(),
                values.len() == i,
                forall|k: int| 0 <= k < i ==> values[k]@ == ValueModel::String(set[k]@),
            decreases set.len() - i,
        {
            values.push(Value::string(set[i]));
            i += 1;
        }
        Domain { min: None, max: None, values }
    }

    /// The set of the given integers.
    pub fn ints(set: &[i32]) -> (r: Domain)
        ensures
            r@ == (DomainModel { min: None, max: None, values: crate::value::int_models(set@) }),
    {
        let mut values: Vec<Value> = Vec::new();
        let mut i: usize = 0;
        while i < set.len()
            invariant
                i <= set.len(),
                values.len() == i,
                forall|k: int| 0 <= k < i ==> values[k]@ == ValueModel::Int(set[k] as int),
            decreases set.len() - i,
        {
            values.push(Value::Int(set[i]));
            i += 1;
        }
        let r = Domain { min: None, max: None, values };
        assert(r@.values =~= crate::value::int_models(set@));
        r
    }

    /// The set of the given floats.
    pub fn floats(set: &[Float]) -> (r: Domain)
        ensures
            r@ == (DomainModel { min: None, max: None, values: crate::value::float_models(set@) }),
    {
        let mut values: Vec<Value> = Vec::new();
        let mut i: usize = 0;
        while i < set.len()
            invariant
                i <= set.len(),
                values.len() == i,
                forall|k: int| 0 <= k < i ==> values[k]@ == ValueModel::Float(set[k]),
            decreases set.len() - i,
        {
            values.push(Value::Float(set[i]));
            i += 1;
        }
        let r = Domain { min: None, max: None, values };
        assert(r@.values =~= crate::value::float_models(set@));
        r
    }

    /// The set of the given values.
    pub fn of_values(set: &[Value]) -> (r: Domain)
        ensures
            r@ == (DomainModel { min: None, max: None, values: models(set@) }),
    {
        Domain { min: None, max: None, values: clone_slice(set) }
    }

    /// The lower bound, if there is one.
    pub fn min(&self) -> (r: Option<Value>)
        ensures
            opt_model(r) == self@.min,
    {
        match &self.min {
            Some(v) => Some(v.clone()),
            None => None,
        }
    }

    /// The upper bound, if there is one.
    pub fn max(&self) -> (r: Option<Value>)
        ensures
            opt_model(r) == self@.max,
    {
        match &self.max {
            Some(v) => Some(v.clone()),
            None => None,
        }
    }

    /// The admitted values, in the order they were given.
    pub fn values(&self) -> (r: Vec<Value>)
        ensures
            models(r@) == self@.values,
    {
        clone_values(&self.values)
    }

    /// Replaces the lower bound.
    pub fn set_min(&mut self, value: Value)
        ensures
            final(self)@ == (DomainModel { min: Some(value@), ..old(self)@ }),
    {
        self.min = Some(value);
    }

    /// Replaces the upper bound.
    pub fn set_max(&mut self, value: Value)
        ensures
            final(self)@ == (DomainModel { max: Some(value@), ..old(self)@ }),
    {
        self.max = Some(value);
    }

    /// Replaces the admitted values.
    pub fn set_values(&mut self, values: &[Value])
        ensures
            final(self)@ == (DomainModel { values: models(values@), ..old(self)@ }),
    {
        self.values = clone_slice(values);
    }

    /// Whether every bound and every admitted value has type `t`.
    pub fn fits(&self, t: Type) -> (r: bool)
        ensures
            r == self@.fits(t),
    {
        if let Some(m) = &self.min {
            if m.kind() != t {
                return false;
            }
        }
        if let Some(m) = &self.max {
            if m.kind() != t {
                return false;
            }
        }
        let mut i: usize = 0;
        while i < self.values.len()
            invariant
                i <= self.values.len(),
                forall|k: int| 0 <= k < i ==> (#[trigger] self.values[k])@.kind() == t,
            decreases self.values.len() - i,
        {
            if self.values[i].kind() != t {
                assert(self@.values[i as int].kind() != t);
                return false;
            }
            i += 1;
        }
        assert forall|k: int| 0 <= k < self@.values.len() implies (#[trigger] self@.values[k]).kind() == t by {
            assert(self.values[k]@.kind() == t);
        }
        true
    }

    /// Brings `value` into the bounds of this domain under `mode`.
    ///
    /// `Free` passes the value unchanged. `Clip` saturates at the bound that is crossed.
    /// `Wrap` moves the value around the range, `Fold` reflects it at the bounds; on floats
    /// both work on the exact values and round once. `Low` and `High` hold one bound only.
    pub fn apply(&self, value: &Value, mode: Bounding) -> (r: Value)
        ensures
            r@ == self@.apply(value@, mode),
    {
        match value {
            Value::Int(i) => {
                let lo = int_of(&self.min);
                let hi = int_of(&self.max);
                let b = bound_i64(*i as i64, lo, hi, mode);
                proof {
                    lemma_bound_int_stays_between(*i as int, opt_int(lo), opt_int(hi), mode);
                }
                Value::Int(b as i32)
            },
            Value::Char(c) => {
                let lo = char_of(&self.min);
                let hi = char_of(&self.max);
                let b = bound_i64(*c as i64, lo, hi, mode);
                proof {
                    lemma_bound_int_stays_between(*c as int, opt_int(lo), opt_int(hi), mode);
                }
                Value::Char(b as u8)
            },
            Value::Float(f) => Value::Float(
                bound_f32(*f, float_of(&self.min, Type::Float, 0), float_of(&self.max, Type::Float, 0), mode),
            ),
            Value::Vec2f(a, b) => Value::Vec2f(
                bound_f32(*a, float_of(&self.min, Type::Vec2f, 0), float_of(&self.max, Type::Vec2f, 0), mode),
                bound_f32(*b, float_of(&self.min, Type::Vec2f, 1), float_of(&self.max, Type::Vec2f, 1), mode),
            ),
            Value::Vec3f(a, b, c) => Value::Vec3f(
                bound_f32(*a, float_of(&self.min, Type::Vec3f, 0), float_of(&self.max, Type::Vec3f, 0), mode),
                bound_f32(*b, float_of(&self.min, Type::Vec3f, 1), float_of(&self.max, Type::Vec3f, 1), mode),
                bound_f32(*c, float_of(&self.min, Type::Vec3f, 2), float_of(&self.max, Type::Vec3f, 2), mode),
            ),
            Value::Vec4f(a, b, c, d) => Value::Vec4f(
                bound_f32(*a, float_of(&self.min, Type::Vec4f, 0), float_of(&self.max, Type::Vec4f, 0), mode),
                bound_f32(*b, float_of(&self.min, Type::Vec4f, 1), float_of(&self.max, Type::Vec4f, 1), mode),
                bound_f32(*c, float_of(&self.min, Type::Vec4f, 2), float_of(&self.max, Type::Vec4f, 2), mode),
                bound_f32(*d, float_of(&self.min, Type::Vec4f, 3), float_of(&self.max, Type::Vec4f, 3), mode),
            ),
            _ => value.clone(),
        }
    }
}

/// The integer of an `Int` bound.
fn int_of(b: &Option<Value>) -> (r: Option<i64>)
    ensures
        opt_int(r) == int_bound(opt_model(*b)),
        r matches Some(x) ==> i32::MIN <= x <= i32::MAX,
{
    match b {
        Some(Value::Int(i)) => Some(*i as i64),
        _ => None,
    }
}

/// The code of a `Char` bound.
fn char_of(b: &Option<Value>) -> (r: Option<i64>)
    ensures
        opt_int(r) == char_bound(opt_model(*b)),
        r matches Some(x) ==> 0 <= x <= 255,
{
    match b {
        Some(Value::Char(c)) => Some(*c as i64),
        _ => None,
    }
}

/// Component `k` of a bound of type `t`.
fn float_of(b: &Option<Value>, t: Type, k: usize) -> (r: Option<Float>)
    ensures
        r == float_bound(opt_model(*b), t, k as int),
{
    match b {
        Some(Value::Float(f)) => if t == Type::Float && k == 0 { Some(*f) } else { None },
        Some(Value::Vec2f(x, y)) => if t != Type::Vec2f {
            None
        } else if k == 0 {
            Some(*x)
        } else if k == 1 {
            Some(*y)
        } else {
            None
        },
        Some(Value::Vec3f(x, y, z)) => if t != Type::Vec3f {
            None
        } else if k == 0 {
            Some(*x)
        } else if k == 1 {
            Some(*y)
        } else if k == 2 {
            Some(*z)
        } else {
            None
        },
        Some(Value::Vec4f(x, y, z, w)) => if t != Type::Vec4f {
            None
        } else if k == 0 {
            Some(*x)
        } else if k == 1 {
            Some(*y)
        } else if k == 2 {
            Some(*z)
        } else if k == 3 {
            Some(*w)
        } else {
            None
        },
        _ => None,
    }
}

/// Within a range that is not empty, `Clip` saturates exactly at the bound that is crossed
/// and leaves a value inside alone.
pub proof fn lemma_clip_saturates(v: int, lo: int, hi: int)
    requires
        lo <= hi,
    ensures
        bound_int(v, Some(lo), Some(hi), Bounding::Clip) == if v < lo {
            lo
        } else if v > hi {
            hi
        } else {
            v
        },
{
}

/// `Wrap` brings every value into the range by a multiple of its width, and leaves a value
/// inside alone.
pub proof fn lemma_wrap_is_modular(v: int, lo: int, hi: int)
    requires
        lo < hi,
    ensures
        lo <= wrapped(v, lo, hi) <= hi,
        (wrapped(v, lo, hi) - v) % (hi - lo) == 0,
        lo <= v <= hi ==> wrapped(v, lo, hi) == v,
{
    let w = hi - lo;
    if !(lo <= v <= hi) {
        lemma_mod_bound(v - lo, w);
        lemma_fundamental_div_mod(v - lo, w);
        let q = (v - lo) / w;
        let diff = wrapped(v, lo, hi) - v;
        assert(diff == (-q) * w) by (nonlinear_arith)
            requires
                diff == -(w * q),
        ;
        vstd::arithmetic::div_mod::lemma_mod_multiples_basic(-q, w);
    } else {
        vstd::arithmetic::div_mod::lemma_mod_multiples_basic(0, w);
    }
}

/// `Fold` brings every value into the range: the distance from the lower bound, taken
/// along a triangle wave of period twice the width, and leaves a value inside alone.
pub proof fn lemma_fold_is_reflective(v: int, lo: int, hi: int)
    requires
        lo < hi,
    ensures
        lo <= folded(v, lo, hi) <= hi,
        lo <= v <= hi ==> folded(v, lo, hi) == v,
        (folded(v, lo, hi) - v) % (2 * (hi - lo)) == 0 || (folded(v, lo, hi) + v - 2 * lo) % (2 * (hi - lo))
            == 0,
{
    let w = hi - lo;
    if !(lo <= v <= hi) {
        lemma_mod_bound(v - lo, 2 * w);
        lemma_fundamental_div_mod(v - lo, 2 * w);
        let q = (v - lo) / (2 * w);
        let r = (v - lo) % (2 * w);
        if r <= w {
            let diff = folded(v, lo, hi) - v;
            assert(diff == (-q) * (2 * w)) by (nonlinear_arith)
                requires
                    diff == -((2 * w) * q),
            ;
            vstd::arithmetic::div_mod::lemma_mod_multiples_basic(-q, 2 * w);
        } else {
            let sum = folded(v, lo, hi) + v - 2 * lo;
            assert(sum == (q + 1) * (2 * w)) by (nonlinear_arith)
                requires
                    sum == (2 * w) * q + 2 * w,
            ;
            vstd::arithmetic::div_mod::lemma_mod_multiples_basic(q + 1, 2 * w);
        }
    } else {
        vstd::arithmetic::div_mod::lemma_mod_multiples_basic(0, 2 * w);
    }
}

/// Bounding an integer twice is bounding it once, under every mode and whatever bounds are
/// there, as long as the range is not inverted.
pub proof fn lemma_bound_int_is_idempotent(v: int, lo: Option<int>, hi: Option<int>, mode: Bounding)
    requires
        lo matches Some(l) ==> (hi matches Some(h) ==> l <= h),
    ensures
        bound_int(bound_int(v, lo, hi, mode), lo, hi, mode) == bound_int(v, lo, hi, mode),
{
    match (lo, hi) {
        (Some(l), Some(h)) => {
            if l < h {
                lemma_wrap_is_modular(v, l, h);
                lemma_fold_is_reflective(v, l, h);
            }
        },
        _ => {},
    }
}

/// Under `Clip`, a float that is a number ends up between two bounds that are numbers in
/// order; under `Wrap` and `Fold` a finite float ends up within a proper range of finite
/// bounds; and a float within the bounds stays as it is under every mode.
pub proof fn lemma_float_ends_within(v: Float, lo: Float, hi: Float, mode: Bounding)
    requires
        lo.le(hi),
        !v.is_nan(),
    ensures
        lo.le(bound_float(v, Some(lo), Some(hi), Bounding::Clip)),
        bound_float(v, Some(lo), Some(hi), Bounding::Clip).le(hi),
        lo.le(v) && v.le(hi) ==> bound_float(v, Some(lo), Some(hi), mode) == v,
        (mode == Bounding::Wrap || mode == Bounding::Fold) && v.is_finite() && lo.is_finite() && hi.is_finite()
            && lo.lt(hi) ==> lo.le(bound_float(v, Some(lo), Some(hi), mode)) && bound_float(
            v,
            Some(lo),
            Some(hi),
            mode,
        ).le(hi),
{
    crate::float::lemma_order_is_value_order(lo, v);
    crate::float::lemma_order_is_value_order(v, hi);
    crate::float::lemma_order_is_value_order(lo, hi);
    crate::exact::lemma_nearest_is_a_number(wrapped(v.scaled(), lo.scaled(), hi.scaled()));
    crate::exact::lemma_nearest_is_a_number(folded(v.scaled(), lo.scaled(), hi.scaled()));
}

/// Without bounds, and under `Free`, every value passes unchanged.
pub proof fn lemma_unbounded_is_identity(v: ValueModel, lo: Option<ValueModel>, hi: Option<ValueModel>, mode: Bounding)
    ensures
        bound_value(v, None, None, mode) == v,
        bound_value(v, lo, hi, Bounding::Free) == v,
{
}

} // verus!
