//! Control values: a tagged variant with defined coercions between its numeric members.

use crate::error::Error;
use crate::float::Float;
use vstd::prelude::*;
use vstd::string::StrSliceExecFns;

verus! {

/// The type of value a parameter holds.
#[derive(Clone, Copy, Debug, PartialEq, Eq, Structural)]
pub enum Type {
    Float,
    Int,
    Vec2f,
    Vec3f,
    Vec4f,
    Impulse,
    Bool,
    String,
    List,
    Char,
}

impl Type {
    /// The integer code of each type.
    pub open spec fn code(self) -> int {
        match self {
            Type::Float => 0,
            Type::Int => 1,
            Type::Vec2f => 2,
            Type::Vec3f => 3,
            Type::Vec4f => 4,
            Type::Impulse => 5,
            Type::Bool => 6,
            Type::String => 7,
            Type::List => 8,
            Type::Char => 9,
        }
    }

    /// The integer code of this type.
    pub fn repr(&self) -> (r: i32)
        ensures
            r == self.code(),
    {
        match self {
            Type::Float => 0,
            Type::Int => 1,
            Type::Vec2f => 2,
            Type::Vec3f => 3,
            Type::Vec4f => 4,
            Type::Impulse => 5,
            Type::Bool => 6,
            Type::String => 7,
            Type::List => 8,
            Type::Char => 9,
        }
    }

    /// The type with the given code, if there is one.
    pub fn from_repr(x: i32) -> (r: Option<Type>)
        ensures
            match r {
                Some(t) => t.code() == x,
                None => forall|t: Type| t.code() != x,
            },
    {
        match x {
            0 => Some(Type::Float),
            1 => Some(Type::Int),
            2 => Some(Type::Vec2f),
            3 => Some(Type::Vec3f),
            4 => Some(Type::Vec4f),
            5 => Some(Type::Impulse),
            6 => Some(Type::Bool),
            7 => Some(Type::String),
            8 => Some(Type::List),
            9 => Some(Type::Char),
            _ => None,
        }
    }

    /// The value a parameter of this type starts with: zero, false, or empty.
    pub open spec fn initial(self) -> ValueModel {
        let z = Float { bits: 0 };
        match self {
            Type::Float => ValueModel::Float(z),
            Type::Int => ValueModel::Int(0),
            Type::Vec2f => ValueModel::Vec2f(z, z),
            Type::Vec3f => ValueModel::Vec3f(z, z, z),
            Type::Vec4f => ValueModel::Vec4f(z, z, z, z),
            Type::Impulse => ValueModel::Impulse,
            Type::Bool => ValueModel::Bool(false),
            Type::String => ValueModel::String(Seq::empty()),
            Type::List => ValueModel::List(Seq::empty()),
            Type::Char => ValueModel::Char(0),
        }
    }

    /// The value a parameter of this type starts with.
    pub fn default_value(&self) -> (r: Value)
        ensures
            r@ == self.initial(),
    {
        let z = Float::zero();
        match self {
            Type::Float => Value::Float(z),
            Type::Int => Value::Int(0),
            Type::Vec2f => Value::Vec2f(z, z),
            Type::Vec3f => Value::Vec3f(z, z, z),
            Type::Vec4f => Value::Vec4f(z, z, z, z),
            Type::Impulse => Value::Impulse,
            Type::Bool => Value::Bool(false),
            Type::String => Value::String(String::new()),
            Type::List => {
                let r = Value::List(Vec::new());
                assert(r@->List_0 =~= Seq::<ValueModel>::empty());
                r
            },
            Type::Char => Value::Char(0),
        }
    }
}

/// One control value.
#[derive(Debug, PartialEq)]
pub enum Value {
    /// A trigger without content.
    Impulse,
    Int(i32),
    Float(Float),
    Vec2f(Float, Float),
    Vec3f(Float, Float, Float),
    Vec4f(Float, Float, Float, Float),
    Bool(bool),
    Char(u8),
    String(String),
    /// A byte buffer; it has the type of a string.
    Bytes(Vec<u8>),
    List(Vec<Value>),
}

/// What a [`Value`] denotes.
pub enum ValueModel {
    Impulse,
    Int(int),
    Float(Float),
    Vec2f(Float, Float),
    Vec3f(Float, Float, Float),
    Vec4f(Float, Float, Float, Float),
    Bool(bool),
    Char(u8),
    String(Seq<char>),
    Bytes(Seq<u8>),
    List(Seq<ValueModel>),
}

impl Value {
    /// What this value denotes.
    pub open spec fn model(&self) -> ValueModel
        decreases self,
    {
        match self {
            Value::Impulse => ValueModel::Impulse,
            Value::Int(i) => ValueModel::Int(*i as int),
            Value::Float(f) => ValueModel::Float(*f),
            Value::Vec2f(a, b) => ValueModel::Vec2f(*a, *b),
            Value::Vec3f(a, b, c) => ValueModel::Vec3f(*a, *b, *c),
            Value::Vec4f(a, b, c, d) => ValueModel::Vec4f(*a, *b, *c, *d),
            Value::Bool(b) => ValueModel::Bool(*b),
            Value::Char(c) => ValueModel::Char(*c),
            Value::String(s) => ValueModel::String(s@),
            Value::Bytes(b) => ValueModel::Bytes(b@),
            Value::List(v) => ValueModel::List(
                Seq::new(
                    v.len() as nat,
                    |i: int|
                        if 0 <= i < v.len() {
                            v[i].model()
                        } else {
                            ValueModel::Impulse
                        },
                ),
            ),
        }
    }
}

impl View for Value {
    type V = ValueModel;

    open spec fn view(&self) -> ValueModel {
        self.model()
    }
}

impl Clone for Value {
    /// An independent copy that denotes the same value.
    #[verifier::loop_isolation(false)]
    fn clone(&self) -> (r: Value)
        ensures
            r@ == self@,
        decreases self,
    {
        match self {
            Value::Impulse => Value::Impulse,
            Value::Int(i) => Value::Int(*i),
            Value::Float(f) => Value::Float(*f),
            Value::Vec2f(a, b) => Value::Vec2f(*a, *b),
            Value::Vec3f(a, b, c) => Value::Vec3f(*a, *b, *c),
            Value::Vec4f(a, b, c, d) => Value::Vec4f(*a, *b, *c, *d),
            Value::Bool(b) => Value::Bool(*b),
            Value::Char(c) => Value::Char(*c),
            Value::String(s) => Value::String(s.clone()),
            Value::Bytes(b) => Value::Bytes(b.clone()),
            Value::List(v) => {
                let mut out: Vec<Value> = Vec::new();
                let mut i: usize = 0;
                while i < v.len()
                    invariant
                        i <= v.len(),
                        out.len() == i,
                        forall|k: int| 0 <= k < i ==> out[k]@ == v[k]@,
                    decreases v.len() - i,
                {
                    let e = v[i].clone();
                    out.push(e);
                    i += 1;
                }
                let r = Value::List(out);
                assert(r@->List_0 =~= self@->List_0);
                r
            },
        }
    }
}

impl From<i32> for Value {
    fn from(x: i32) -> (r: Value) {
        Value::Int(x)
    }
}

impl vstd::std_specs::convert::FromSpecImpl<i32> for Value {
    open spec fn obeys_from_spec() -> bool {
        true
    }

    open spec fn from_spec(x: i32) -> Value {
        Value::Int(x)
    }
}

impl From<()> for Value {
    fn from(x: ()) -> (r: Value) {
        Value::Impulse
    }
}

impl vstd::std_specs::convert::FromSpecImpl<()> for Value {
    open spec fn obeys_from_spec() -> bool {
        true
    }

    open spec fn from_spec(x: ()) -> Value {
        Value::Impulse
    }
}

impl From<Float> for Value {
    fn from(x: Float) -> (r: Value) {
        Value::Float(x)
    }
}

impl vstd::std_specs::convert::FromSpecImpl<Float> for Value {
    open spec fn obeys_from_spec() -> bool {
        true
    }

    open spec fn from_spec(x: Float) -> Value {
        Value::Float(x)
    }
}

impl From<bool> for Value {
    fn from(x: bool) -> (r: Value) {
        Value::Bool(x)
    }
}

impl vstd::std_specs::convert::FromSpecImpl<bool> for Value {
    open spec fn obeys_from_spec() -> bool {
        true
    }

    open spec fn from_spec(x: bool) -> Value {
        Value::Bool(x)
    }
}

impl From<u8> for Value {
    fn from(x: u8) -> (r: Value) {
        Value::Char(x)
    }
}

impl vstd::std_specs::convert::FromSpecImpl<u8> for Value {
    open spec fn obeys_from_spec() -> bool {
        true
    }

    open spec fn from_spec(x: u8) -> Value {
        Value::Char(x)
    }
}

impl From<(Float, Float)> for Value {
    fn from(x: (Float, Float)) -> (r: Value) {
        Value::Vec2f(x.0, x.1)
    }
}

impl vstd::std_specs::convert::FromSpecImpl<(Float, Float)> for Value {
    open spec fn obeys_from_spec() -> bool {
        true
    }

    open spec fn from_spec(x: (Float, Float)) -> Value {
        Value::Vec2f(x.0, x.1)
    }
}

impl From<(Float, Float, Float)> for Value {
    fn from(x: (Float, Float, Float)) -> (r: Value) {
        Value::Vec3f(x.0, x.1, x.2)
    }
}

impl vstd::std_specs::convert::FromSpecImpl<(Float, Float, Float)> for Value {
    open spec fn obeys_from_spec() -> bool {
        true
    }

    open spec fn from_spec(x: (Float, Float, Float)) -> Value {
        Value::Vec3f(x.0, x.1, x.2)
    }
}

impl From<(Float, Float, Float, Float)> for Value {
    fn from(x: (Float, Float, Float, Float)) -> (r: Value) {
        Value::Vec4f(x.0, x.1, x.2, x.3)
    }
}

impl vstd::std_specs::convert::FromSpecImpl<(Float, Float, Float, Float)> for Value {
    open spec fn obeys_from_spec() -> bool {
        true
    }

    open spec fn from_spec(x: (Float, Float, Float, Float)) -> Value {
        Value::Vec4f(x.0, x.1, x.2, x.3)
    }
}

impl Value {
    /// The value as a pair of floats, or `TypeMismatch`.
    pub fn to_vec2f(&self) -> (r: Result<(Float, Float), Error>)
        ensures
            match r {
                Ok(v) => self@.to_vec2f() == Some(v),
                Err(e) => e == Error::TypeMismatch && self@.to_vec2f() is None,
            },
    {
        match self {
            Value::Vec2f(a, b) => Ok((*a, *b)),
            Value::List(l) => {
                proof {
                    lemma_list_view(*l);
                }
                if l.len() == 2 {
                    match (&l[0], &l[1]) {
                        (Value::Float(a), Value::Float(b)) => Ok((*a, *b)),
                        _ => {
                            assert(models(l@)[0].kind() != Type::Float || models(l@)[1].kind() != Type::Float);
                            Err(Error::TypeMismatch)
                        },
                    }
                } else {
                    Err(Error::TypeMismatch)
                }
            },
            _ => Err(Error::TypeMismatch),
        }
    }

    /// The value as three floats, or `TypeMismatch`.
    pub fn to_vec3f(&self) -> (r: Result<(Float, Float, Float), Error>)
        ensures
            match r {
                Ok(v) => self@.to_vec3f() == Some(v),
                Err(e) => e == Error::TypeMismatch && self@.to_vec3f() is None,
            },
    {
        match self {
            Value::Vec3f(a, b, c) => Ok((*a, *b, *c)),
            Value::List(l) => {
                proof {
                    lemma_list_view(*l);
                }
                if l.len() == 3 {
                    match (&l[0], &l[1], &l[2]) {
                        (Value::Float(a), Value::Float(b), Value::Float(c)) => Ok((*a, *b, *c)),
                        _ => {
                            assert(models(l@)[0].kind() != Type::Float || models(l@)[1].kind() != Type::Float
                                || models(l@)[2].kind() != Type::Float);
                            Err(Error::TypeMismatch)
                        },
                    }
                } else {
                    Err(Error::TypeMismatch)
                }
            },
            _ => Err(Error::TypeMismatch),
        }
    }

    /// The value as four floats, or `TypeMismatch`.
    pub fn to_vec4f(&self) -> (r: Result<(Float, Float, Float, Float), Error>)
        ensures
            match r {
                Ok(v) => self@.to_vec4f() == Some(v),
                Err(e) => e == Error::TypeMismatch && self@.to_vec4f() is None,
            },
    {
        match self {
            Value::Vec4f(a, b, c, d) => Ok((*a, *b, *c, *d)),
            Value::List(l) => {
                proof {
                    lemma_list_view(*l);
                }
                if l.len() == 4 {
                    match (&l[0], &l[1], &l[2], &l[3]) {
                        (Value::Float(a), Value::Float(b), Value::Float(c), Value::Float(d)) => Ok(
                            (*a, *b, *c, *d),
                        ),
                        _ => {
                            assert(models(l@)[0].kind() != Type::Float || models(l@)[1].kind() != Type::Float
                                || models(l@)[2].kind() != Type::Float || models(l@)[3].kind()
                                != Type::Float);
                            Err(Error::TypeMismatch)
                        },
                    }
                } else {
                    Err(Error::TypeMismatch)
                }
            },
            _ => Err(Error::TypeMismatch),
        }
    }

    /// The value as a list of values, or `TypeMismatch`.
    pub fn to_list(&self) -> (r: Result<Vec<Value>, Error>)
        ensures
            match r {
                Ok(l) => self@.to_list() == Some(models(l@)),
                Err(e) => e == Error::TypeMismatch && self@.to_list() is None,
            },
    {
        match self {
            Value::List(_) => {
                let copy = self.clone();
                match copy {
                    Value::List(l) => {
                        proof {
                            lemma_list_view(l);
                        }
                        Ok(l)
                    },
                    _ => Err(Error::TypeMismatch),
                }
            },
            Value::Vec2f(a, b) => {
                let l = vec![Value::Float(*a), Value::Float(*b)];
                assert(models(l@) =~= self@.to_list()->Some_0);
                Ok(l)
            },
            Value::Vec3f(a, b, c) => {
                let l = vec![Value::Float(*a), Value::Float(*b), Value::Float(*c)];
                assert(models(l@) =~= self@.to_list()->Some_0);
                Ok(l)
            },
            Value::Vec4f(a, b, c, d) => {
                let l = vec![Value::Float(*a), Value::Float(*b), Value::Float(*c), Value::Float(*d)];
                assert(models(l@) =~= self@.to_list()->Some_0);
                Ok(l)
            },
            _ => Err(Error::TypeMismatch),
        }
    }

    /// The integers of a list whose elements are all `Int`, or `TypeMismatch`.
    #[verifier::loop_isolation(false)]
    pub fn to_ints(&self) -> (r: Result<Vec<i32>, Error>)
        ensures
            match r {
                Ok(v) => self@.to_ints() == Some(v@.map_values(|x: i32| x as int)),
                Err(e) => e == Error::TypeMismatch && self@.to_ints() is None,
            },
    {
        match self {
            Value::List(l) => {
                proof {
                    lemma_list_view(*l);
                }
                let mut out: Vec<i32> = Vec::new();
                let mut i: usize = 0;
                while i < l.len()
                    invariant
                        i <= l.len(),
                        out.len() == i,
                        forall|k: int| 0 <= k < i ==> (#[trigger] l[k])@ == ValueModel::Int(out[k] as int),
                    decreases l.len() - i,
                {
                    match &l[i] {
                        Value::Int(x) => {
                            out.push(*x);
                        },
                        _ => {
                            assert(models(l@)[i as int].kind() != Type::Int);
                            return Err(Error::TypeMismatch);
                        },
                    }
                    i += 1;
                }
                proof {
                    assert forall|k: int| 0 <= k < l.len() implies (#[trigger] models(l@)[k]).kind()
                        == Type::Int by {
                        assert(l[k]@ == ValueModel::Int(out[k] as int));
                    }
                    assert(self@.to_ints()->Some_0 =~= out@.map_values(|x: i32| x as int)) by {
                        assert forall|k: int| 0 <= k < l.len() implies models(l@)[k]->Int_0 == out[k] as int by {
                            assert(l[k]@ == ValueModel::Int(out[k] as int));
                        }
                    }
                }
                Ok(out)
            },
            _ => Err(Error::TypeMismatch),
        }
    }

    /// The floats of a vector or of a list whose elements are all `Float`, or `TypeMismatch`.
    #[verifier::loop_isolation(false)]
    pub fn to_floats(&self) -> (r: Result<Vec<Float>, Error>)
        ensures
            match r {
                Ok(v) => self@.to_floats() == Some(v@),
                Err(e) => e == Error::TypeMismatch && self@.to_floats() is None,
            },
    {
        match self {
            Value::List(l) => {
                proof {
                    lemma_list_view(*l);
                }
                let mut out: Vec<Float> = Vec::new();
                let mut i: usize = 0;
                while i < l.len()
                    invariant
                        i <= l.len(),
                        out.len() == i,
                        forall|k: int| 0 <= k < i ==> (#[trigger] l[k])@ == ValueModel::Float(out[k]),
                    decreases l.len() - i,
                {
                    match &l[i] {
                        Value::Float(x) => {
                            out.push(*x);
                        },
                        _ => {
                            assert(models(l@)[i as int].kind() != Type::Float);
                            return Err(Error::TypeMismatch);
                        },
                    }
                    i += 1;
                }
                proof {
                    assert forall|k: int| 0 <= k < l.len() implies (#[trigger] models(l@)[k]).kind()
                        == Type::Float by {
                        assert(l[k]@ == ValueModel::Float(out[k]));
                    }
                    assert(self@.to_floats()->Some_0 =~= out@) by {
                        assert forall|k: int| 0 <= k < l.len() implies models(l@)[k]->Float_0 == out[k] by {
                            assert(l[k]@ == ValueModel::Float(out[k]));
                        }
                    }
                }
                Ok(out)
            },
            Value::Vec2f(a, b) => {
                let v = vec![*a, *b];
                assert(v@ =~= seq![*a, *b]);
                Ok(v)
            },
            Value::Vec3f(a, b, c) => {
                let v = vec![*a, *b, *c];
                assert(v@ =~= seq![*a, *b, *c]);
                Ok(v)
            },
            Value::Vec4f(a, b, c, d) => {
                let v = vec![*a, *b, *c, *d];
                assert(v@ =~= seq![*a, *b, *c, *d]);
                Ok(v)
            },
            _ => Err(Error::TypeMismatch),
        }
    }

    /// The value converted to type `t` by the coercion rules, or `TypeMismatch` where they
    /// allow no conversion.
    pub fn convert(&self, t: Type) -> (r: Result<Value, Error>)
        ensures
            match r {
                Ok(v) => self@.converted(t) == Some(v@),
                Err(e) => e == Error::TypeMismatch && self@.converted(t) is None,
            },
    {
        if self.kind() == t {
            return Ok(self.clone());
        }
        match t {
            Type::Int => match self.to_int() {
                Ok(i) => Ok(Value::Int(i)),
                Err(e) => Err(e),
            },
            Type::Float => match self.to_float() {
                Ok(f) => Ok(Value::Float(f)),
                Err(e) => Err(e),
            },
            Type::Bool => match self.to_bool() {
                Ok(b) => Ok(Value::Bool(b)),
                Err(e) => Err(e),
            },
            Type::Char => match self.to_char() {
                Ok(c) => Ok(Value::Char(c)),
                Err(e) => Err(e),
            },
            Type::Vec2f => match self.to_vec2f() {
                Ok(v) => Ok(Value::Vec2f(v.0, v.1)),
                Err(e) => Err(e),
            },
            Type::Vec3f => match self.to_vec3f() {
                Ok(v) => Ok(Value::Vec3f(v.0, v.1, v.2)),
                Err(e) => Err(e),
            },
            Type::Vec4f => match self.to_vec4f() {
                Ok(v) => Ok(Value::Vec4f(v.0, v.1, v.2, v.3)),
                Err(e) => Err(e),
            },
            Type::List => match self.to_list() {
                Ok(l) => {
                    proof {
                        lemma_list_view(l);
                    }
                    Ok(Value::List(l))
                },
                Err(e) => Err(e),
            },
            Type::Impulse => Err(Error::TypeMismatch),
            Type::String => Err(Error::TypeMismatch),
        }
    }
}

impl Value {
    /// A string value with the text of `s`.
    pub fn string(s: &str) -> (r: Value)
        ensures
            r@ == ValueModel::String(s@),
    {
        Value::String(s.to_owned())
    }

    /// A byte buffer with a copy of `b`.
    pub fn bytes(b: &[u8]) -> (r: Value)
        ensures
            r@ == ValueModel::Bytes(b@),
    {
        Value::Bytes(vstd::slice::slice_to_vec(b))
    }

    /// A list of `Int` values, one for each element of `v`.
    pub fn ints(v: &[i32]) -> (r: Value)
        ensures
            r@ == ValueModel::List(int_models(v@)),
    {
        let mut out: Vec<Value> = Vec::new();
        let mut i: usize = 0;
        while i < v.len()
            invariant
                i <= v.len(),
                out.len() == i,
                forall|k: int| 0 <= k < i ==> out[k]@ == ValueModel::Int(v[k] as int),
            decreases v.len() - i,
        {
            out.push(Value::Int(v[i]));
            i += 1;
        }
        let r = Value::List(out);
        assert(r@->List_0 =~= int_models(v@));
        r
    }

    /// A list of `Float` values, one for each element of `v`.
    pub fn floats(v: &[Float]) -> (r: Value)
        ensures
            r@ == ValueModel::List(float_models(v@)),
    {
        let mut out: Vec<Value> = Vec::new();
        let mut i: usize = 0;
        while i < v.len()
            invariant
                i <= v.len(),
                out.len() == i,
                forall|k: int| 0 <= k < i ==> out[k]@ == ValueModel::Float(v[k]),
            decreases v.len() - i,
        {
            out.push(Value::Float(v[i]));
            i += 1;
        }
        let r = Value::List(out);
        assert(r@->List_0 =~= float_models(v@));
        r
    }

    /// A list of the given values, which must all have one type: `InvalidArgument` exactly
    /// when two of them differ in type.
    pub fn list(items: Vec<Value>) -> (r: Result<Value, Error>)
        ensures
            match r {
                Ok(l) => uniform(models(items@)) && l@ == ValueModel::List(models(items@)),
                Err(e) => e == Error::InvalidArgument && !uniform(models(items@)),
            },
    {
        let mut i: usize = 1;
        while i < items.len()
            invariant
                1 <= i,
                forall|k: int| 0 <= k < i && k < items.len() ==> (#[trigger] items[k])@.kind() == items[0]@.kind(),
            decreases items.len() - i,
        {
            if items[i].kind() != items[0].kind() {
                assert(models(items@)[i as int].kind() != models(items@)[0].kind());
                return Err(Error::InvalidArgument);
            }
            i += 1;
        }
        proof {
            lemma_list_view(items);
            assert forall|a: int, b: int| 0 <= a < items.len() && 0 <= b < items.len() implies (
            #[trigger] models(items@)[a]).kind() == (#[trigger] models(items@)[b]).kind() by {
                assert(items[a]@.kind() == items[0]@.kind());
                assert(items[b]@.kind() == items[0]@.kind());
            }
        }
        Ok(Value::List(items))
    }

    /// The type of this value. A byte buffer counts as a string.
    pub fn kind(&self) -> (r: Type)
        ensures
            r == self@.kind(),
    {
        match self {
            Value::Impulse => Type::Impulse,
            Value::Int(_) => Type::Int,
            Value::Float(_) => Type::Float,
            Value::Vec2f(_, _) => Type::Vec2f,
            Value::Vec3f(_, _, _) => Type::Vec3f,
            Value::Vec4f(_, _, _, _) => Type::Vec4f,
            Value::Bool(_) => Type::Bool,
            Value::Char(_) => Type::Char,
            Value::String(_) => Type::String,
            Value::Bytes(_) => Type::String,
            Value::List(_) => Type::List,
        }
    }

    /// Whether both denote the same value.
    #[verifier::loop_isolation(false)]
    pub fn same(&self, other: &Value) -> (r: bool)
        ensures
            r == (self@ == other@),
        decreases self,
    {
        match (self, other) {
            (Value::Impulse, Value::Impulse) => true,
            (Value::Int(a), Value::Int(b)) => *a == *b,
            (Value::Float(a), Value::Float(b)) => a.bits == b.bits,
            (Value::Vec2f(a0, a1), Value::Vec2f(b0, b1)) => a0.bits == b0.bits && a1.bits == b1.bits,
            (Value::Vec3f(a0, a1, a2), Value::Vec3f(b0, b1, b2)) => a0.bits == b0.bits && a1.bits
                == b1.bits && a2.bits == b2.bits,
            (Value::Vec4f(a0, a1, a2, a3), Value::Vec4f(b0, b1, b2, b3)) => a0.bits == b0.bits
                && a1.bits == b1.bits && a2.bits == b2.bits && a3.bits == b3.bits,
            (Value::Bool(a), Value::Bool(b)) => *a == *b,
            (Value::Char(a), Value::Char(b)) => *a == *b,
            (Value::String(a), Value::String(b)) => *a == *b,
            (Value::Bytes(a), Value::Bytes(b)) => {
                if a.len() != b.len() {
                    assert(a@.len() != b@.len());
                    return false;
                }
                let mut i: usize = 0;
                while i < a.len()
                    invariant
                        i <= a.len(),
                        a.len() == b.len(),
                        forall|k: int| 0 <= k < i ==> a[k] == b[k],
                    decreases a.len() - i,
                {
                    if a[i] != b[i] {
                        assert(a@[i as int] != b@[i as int]);
                        return false;
                    }
                    i += 1;
                }
                assert(a@ =~= b@);
                true
            },
            (Value::List(a), Value::List(b)) => {
                if a.len() != b.len() {
                    assert(self@->List_0.len() != other@->List_0.len());
                    return false;
                }
                let mut i: usize = 0;
                while i < a.len()
                    invariant
                        i <= a.len(),
                        a.len() == b.len(),
                        forall|k: int| 0 <= k < i ==> a[k]@ == b[k]@,
                    decreases a.len() - i,
                {
                    if !a[i].same(&b[i]) {
                        assert(self@->List_0[i as int] != other@->List_0[i as int]);
                        return false;
                    }
                    i += 1;
                }
                assert(self@->List_0 =~= other@->List_0);
                true
            },
            _ => false,
        }
    }

    /// The value as an integer, or `TypeMismatch` where it has no integer reading.
    pub fn to_int(&self) -> (r: Result<i32, Error>)
        ensures
            match r {
                Ok(i) => self@.to_int() == Some(i as int),
                Err(e) => e == Error::TypeMismatch && self@.to_int() is None,
            },
    {
        match self {
            Value::Int(i) => Ok(*i),
            Value::Float(f) => Ok(f.trunc()),
            Value::Bool(b) => Ok(if *b { 1 } else { 0 }),
            Value::Char(c) => Ok(*c as i32),
            _ => Err(Error::TypeMismatch),
        }
    }

    /// The value as a float, or `TypeMismatch` where it has no numeric reading.
    pub fn to_float(&self) -> (r: Result<Float, Error>)
        ensures
            match r {
                Ok(f) => self@.to_float() == Some(f),
                Err(e) => e == Error::TypeMismatch && self@.to_float() is None,
            },
    {
        match self {
            Value::Float(f) => Ok(*f),
            Value::Int(i) => Ok(Float::from_i32(*i)),
            Value::Bool(b) => Ok(Float::from_i32(if *b { 1 } else { 0 })),
            Value::Char(c) => Ok(Float::from_i32(*c as i32)),
            _ => Err(Error::TypeMismatch),
        }
    }

    /// The value as a boolean, or `TypeMismatch` where it has no numeric reading.
    pub fn to_bool(&self) -> (r: Result<bool, Error>)
        ensures
            match r {
                Ok(b) => self@.to_bool() == Some(b),
                Err(e) => e == Error::TypeMismatch && self@.to_bool() is None,
            },
    {
        match self {
            Value::Bool(b) => Ok(*b),
            Value::Int(i) => Ok(*i != 0),
            Value::Float(f) => Ok(f.nonzero()),
            Value::Char(c) => Ok(*c != 0),
            _ => Err(Error::TypeMismatch),
        }
    }

    /// The value as a character, or `TypeMismatch` where it has no numeric reading.
    pub fn to_char(&self) -> (r: Result<u8, Error>)
        ensures
            match r {
                Ok(c) => self@.to_char() == Some(c),
                Err(e) => e == Error::TypeMismatch && self@.to_char() is None,
            },
    {
        match self.to_int() {
            Ok(i) => {
                let w: i64 = i as i64 + 0x8000_0000;
                Ok((w % 256) as u8)
            },
            Err(e) => Err(e),
        }
    }

    /// The text of a string, or of a byte buffer that spells one in UTF-8; `TypeMismatch`
    /// for any other value.
    pub fn to_string(&self) -> (r: Result<String, Error>)
        ensures
            match r {
                Ok(s) => self@.to_text() == Some(s@),
                Err(e) => e == Error::TypeMismatch && self@.to_text() is None,
            },
    {
        match self {
            Value::String(s) => Ok(s.clone()),
            Value::Bytes(b) => match crate::text::text_of(b.clone()) {
                Some(s) => Ok(s),
                None => Err(Error::TypeMismatch),
            },
            _ => Err(Error::TypeMismatch),
        }
    }

    /// The bytes of a byte buffer or of a string in UTF-8, or `TypeMismatch`.
    pub fn to_bytes(&self) -> (r: Result<Vec<u8>, Error>)
        ensures
            match r {
                Ok(b) => self@.to_bytes() == Some(b@),
                Err(e) => e == Error::TypeMismatch && self@.to_bytes() is None,
            },
    {
        match self {
            Value::Bytes(b) => Ok(b.clone()),
            Value::String(s) => Ok(s.as_str().as_bytes_vec()),
            _ => Err(Error::TypeMismatch),
        }
    }
}

/// The values that a sequence of [`Value`]s denotes, one by one.
pub open spec fn models(v: Seq<Value>) -> Seq<ValueModel> {
    Seq::new(v.len(), |i: int| v[i]@)
}

/// The integers as a sequence of `Int` values.
pub open spec fn int_models(v: Seq<i32>) -> Seq<ValueModel> {
    Seq::new(v.len(), |i: int| ValueModel::Int(v[i] as int))
}

/// The numbers as a sequence of `Float` values.
pub open spec fn float_models(v: Seq<Float>) -> Seq<ValueModel> {
    Seq::new(v.len(), |i: int| ValueModel::Float(v[i]))
}

/// The view of a list is the views of its elements.
pub proof fn lemma_list_view(v: Vec<Value>)
    ensures
        Value::List(v)@ == ValueModel::List(models(v@)),
{
    let x = Value::List(v);
    let l = x@->List_0;
    assert(l =~= models(v@));
}

impl ValueModel {
    /// The type of this value. A byte buffer counts as a string.
    pub open spec fn kind(self) -> Type {
        match self {
            ValueModel::Impulse => Type::Impulse,
            ValueModel::Int(_) => Type::Int,
            ValueModel::Float(_) => Type::Float,
            ValueModel::Vec2f(_, _) => Type::Vec2f,
            ValueModel::Vec3f(_, _, _) => Type::Vec3f,
            ValueModel::Vec4f(_, _, _, _) => Type::Vec4f,
            ValueModel::Bool(_) => Type::Bool,
            ValueModel::Char(_) => Type::Char,
            ValueModel::String(_) => Type::String,
            ValueModel::Bytes(_) => Type::String,
            ValueModel::List(_) => Type::List,
        }
    }

    /// The value as an integer: a float is rounded toward zero, a boolean is 0 or 1, a
    /// character is its code. Other variants have no integer reading.
    pub open spec fn to_int(self) -> Option<int> {
        match self {
            ValueModel::Int(i) => Some(i),
            ValueModel::Float(f) => Some(f.truncated()),
            ValueModel::Bool(b) => Some(if b { 1int } else { 0int }),
            ValueModel::Char(c) => Some(c as int),
            _ => None,
        }
    }

    /// The value as a float: an integer, a boolean's 0 or 1 and a character's code go to the
    /// nearest float.
    pub open spec fn to_float(self) -> Option<Float> {
        match self {
            ValueModel::Float(f) => Some(f),
            ValueModel::Int(i) => Some(Float::nearest(i)),
            ValueModel::Bool(b) => Some(Float::nearest(if b { 1int } else { 0int })),
            ValueModel::Char(c) => Some(Float::nearest(c as int)),
            _ => None,
        }
    }

    /// The value as a boolean: any nonzero number is true.
    pub open spec fn to_bool(self) -> Option<bool> {
        match self {
            ValueModel::Bool(b) => Some(b),
            ValueModel::Int(i) => Some(i != 0),
            ValueModel::Float(f) => Some(!f.is_zero()),
            ValueModel::Char(c) => Some(c != 0),
            _ => None,
        }
    }

    /// The value as a character: the low eight bits of its integer reading.
    pub open spec fn to_char(self) -> Option<u8> {
        match self.to_int() {
            Some(i) => Some((i % 256) as u8),
            None => None,
        }
    }

    /// The value as text: a string as it is, a byte buffer as the text that its bytes spell
    /// in UTF-8, where they spell one.
    pub open spec fn to_text(self) -> Option<Seq<char>> {
        match self {
            ValueModel::String(s) => Some(s),
            ValueModel::Bytes(b) => if vstd::utf8::valid_utf8(b) {
                Some(vstd::utf8::decode_utf8(b))
            } else {
                None
            },
            _ => None,
        }
    }

    /// The value as bytes: a byte buffer as it is, a string in UTF-8.
    pub open spec fn to_bytes(self) -> Option<Seq<u8>> {
        match self {
            ValueModel::Bytes(b) => Some(b),
            ValueModel::String(s) => Some(vstd::utf8::encode_utf8(s)),
            _ => None,
        }
    }

    /// The value as a pair of floats: a `Vec2f`, or a list of exactly two floats.
    pub open spec fn to_vec2f(self) -> Option<(Float, Float)> {
        match self {
            ValueModel::Vec2f(a, b) => Some((a, b)),
            ValueModel::List(l) => if l.len() == 2 && all_of_kind(l, Type::Float) {
                Some((l[0]->Float_0, l[1]->Float_0))
            } else {
                None
            },
            _ => None,
        }
    }

    /// The value as three floats: a `Vec3f`, or a list of exactly three floats.
    pub open spec fn to_vec3f(self) -> Option<(Float, Float, Float)> {
        match self {
            ValueModel::Vec3f(a, b, c) => Some((a, b, c)),
            ValueModel::List(l) => if l.len() == 3 && all_of_kind(l, Type::Float) {
                Some((l[0]->Float_0, l[1]->Float_0, l[2]->Float_0))
            } else {
                None
            },
            _ => None,
        }
    }

    /// The value as four floats: a `Vec4f`, or a list of exactly four floats.
    pub open spec fn to_vec4f(self) -> Option<(Float, Float, Float, Float)> {
        match self {
            ValueModel::Vec4f(a, b, c, d) => Some((a, b, c, d)),
            ValueModel::List(l) => if l.len() == 4 && all_of_kind(l, Type::Float) {
                Some((l[0]->Float_0, l[1]->Float_0, l[2]->Float_0, l[3]->Float_0))
            } else {
                None
            },
            _ => None,
        }
    }

    /// The value as a list: a list as it is, a vector as the list of its components.
    pub open spec fn to_list(self) -> Option<Seq<ValueModel>> {
        match self {
            ValueModel::List(l) => Some(l),
            ValueModel::Vec2f(a, b) => Some(seq![ValueModel::Float(a), ValueModel::Float(b)]),
            ValueModel::Vec3f(a, b, c) => Some(
                seq![ValueModel::Float(a), ValueModel::Float(b), ValueModel::Float(c)],
            ),
            ValueModel::Vec4f(a, b, c, d) => Some(
                seq![
                    ValueModel::Float(a),
                    ValueModel::Float(b),
                    ValueModel::Float(c),
                    ValueModel::Float(d),
                ],
            ),
            _ => None,
        }
    }

    /// The value as integers: a list all of whose elements are `Int`.
    pub open spec fn to_ints(self) -> Option<Seq<int>> {
        match self {
            ValueModel::List(l) => if all_of_kind(l, Type::Int) {
                Some(Seq::new(l.len(), |i: int| l[i]->Int_0))
            } else {
                None
            },
            _ => None,
        }
    }

    /// The value as floats: a list all of whose elements are `Float`, or a vector.
    pub open spec fn to_floats(self) -> Option<Seq<Float>> {
        match self {
            ValueModel::List(l) => if all_of_kind(l, Type::Float) {
                Some(Seq::new(l.len(), |i: int| l[i]->Float_0))
            } else {
                None
            },
            ValueModel::Vec2f(a, b) => Some(seq![a, b]),
            ValueModel::Vec3f(a, b, c) => Some(seq![a, b, c]),
            ValueModel::Vec4f(a, b, c, d) => Some(seq![a, b, c, d]),
            _ => None,
        }
    }

    /// The value converted to type `t`, where the coercion rules allow it: a value of type
    /// `t` is kept, numbers convert among `Int`, `Float`, `Bool` and `Char`, and vectors and
    /// lists of floats convert into each other.
    pub open spec fn converted(self, t: Type) -> Option<ValueModel> {
        if self.kind() == t {
            Some(self)
        } else {
            match t {
                Type::Int => match self.to_int() {
                    Some(i) => Some(ValueModel::Int(i)),
                    None => None,
                },
                Type::Float => match self.to_float() {
                    Some(f) => Some(ValueModel::Float(f)),
                    None => None,
                },
                Type::Bool => match self.to_bool() {
                    Some(b) => Some(ValueModel::Bool(b)),
                    None => None,
                },
                Type::Char => match self.to_char() {
                    Some(c) => Some(ValueModel::Char(c)),
                    None => None,
                },
                Type::Vec2f => match self.to_vec2f() {
                    Some(v) => Some(ValueModel::Vec2f(v.0, v.1)),
                    None => None,
                },
                Type::Vec3f => match self.to_vec3f() {
                    Some(v) => Some(ValueModel::Vec3f(v.0, v.1, v.2)),
                    None => None,
                },
                Type::Vec4f => match self.to_vec4f() {
                    Some(v) => Some(ValueModel::Vec4f(v.0, v.1, v.2, v.3)),
                    None => None,
                },
                Type::List => match self.to_list() {
                    Some(l) => Some(ValueModel::List(l)),
                    None => None,
                },
                Type::Impulse => None,
                Type::String => None,
            }
        }
    }
}

/// A converted value has the type it was converted to.
pub proof fn lemma_converted_kind(v: ValueModel, t: Type)
    ensures
        v.converted(t) matches Some(c) ==> c.kind() == t,
{
}

/// Every element of `l` has type `t`.
pub open spec fn all_of_kind(l: Seq<ValueModel>, t: Type) -> bool {
    forall|i: int| 0 <= i < l.len() ==> (#[trigger] l[i]).kind() == t
}

/// All elements of `l` have one type.
pub open spec fn uniform(l: Seq<ValueModel>) -> bool {
    forall|i: int, j: int| 0 <= i < l.len() && 0 <= j < l.len() ==> (#[trigger] l[i]).kind() == (#[trigger] l[j]).kind()
}

/// A value built from a primitive gives that primitive back when it is read as the type it
/// was built from.
pub proof fn lemma_primitives_round_trip(
    i: i32,
    f: Float,
    b: bool,
    c: u8,
    v2: (Float, Float),
    v3: (Float, Float, Float),
    v4: (Float, Float, Float, Float),
    s: Seq<char>,
    bytes: Seq<u8>,
    ints: Seq<i32>,
    floats: Seq<Float>,
)
    ensures
        <Value as vstd::std_specs::convert::FromSpec<i32>>::from_spec(i)@.to_int() == Some(i as int),
        <Value as vstd::std_specs::convert::FromSpec<Float>>::from_spec(f)@.to_float() == Some(f),
        <Value as vstd::std_specs::convert::FromSpec<bool>>::from_spec(b)@.to_bool() == Some(b),
        <Value as vstd::std_specs::convert::FromSpec<u8>>::from_spec(c)@.to_char() == Some(c),
        <Value as vstd::std_specs::convert::FromSpec<(Float, Float)>>::from_spec(v2)@.to_vec2f() == Some(v2),
        <Value as vstd::std_specs::convert::FromSpec<(Float, Float, Float)>>::from_spec(v3)@.to_vec3f() == Some(v3),
        <Value as vstd::std_specs::convert::FromSpec<(Float, Float, Float, Float)>>::from_spec(v4)@.to_vec4f()
            == Some(v4),
        <Value as vstd::std_specs::convert::FromSpec<()>>::from_spec(())@ == ValueModel::Impulse,
        ValueModel::String(s).to_text() == Some(s),
        ValueModel::Bytes(bytes).to_bytes() == Some(bytes),
        ValueModel::Bytes(ValueModel::String(s).to_bytes()->Some_0).to_text() == Some(s),
        ValueModel::List(int_models(ints)).to_ints() == Some(ints.map_values(|x: i32| x as int)),
        ValueModel::List(float_models(floats)).to_floats() == Some(floats),
{
    vstd::utf8::encode_utf8_valid_utf8(s);
    vstd::utf8::encode_utf8_decode_utf8(s);
    assert(ValueModel::List(int_models(ints)).to_ints()->Some_0 =~= ints.map_values(|x: i32| x as int));
    assert(ValueModel::List(float_models(floats)).to_floats()->Some_0 =~= floats);
}

/// Reading a value as a type and converting it to that type agree, and converting a value
/// to its own type changes nothing.
pub proof fn lemma_conversion_is_stable(v: ValueModel, t: Type)
    ensures
        v.converted(v.kind()) == Some(v),
        v.converted(t) matches Some(c) ==> c.converted(t) == Some(c),
{
}

} // verus!
