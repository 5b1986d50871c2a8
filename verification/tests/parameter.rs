use ossia::{
    Access, Bounding, Device, Domain, Error, Float, Node, Notice, Parameter, Protocol, Push, Type, Value,
    ValueCallbackIdx,
};

fn f(x: f32) -> Float {
    Float::from_bits(x.to_bits())
}

fn device() -> Device {
    Device::new(Protocol::osc("127.0.0.1", 9001, 9000).unwrap(), "D")
}

fn parameter(d: &mut Device, path: &str, t: Type) -> Parameter {
    let root = d.root();
    let (node, _) = root.new(d, path).unwrap();
    node.add_parameter(d, t).unwrap()
}

#[test]
fn inbound_value_is_clipped_into_the_domain() {
    let mut d = Device::new(Protocol::osc("127.0.0.1", 9001, 9000).unwrap(), "D");
    let root = d.root();
    let (node, _) = root.new(&mut d, "/foo/bar").unwrap();
    let p = node.add_parameter(&mut d, Type::Int).unwrap();
    p.set_domain(&mut d, Domain::range(Value::Int(0), Value::Int(10))).unwrap();
    p.set_bounding_mode(&mut d, Bounding::Clip).unwrap();
    let (hit, called) = d.inbound("/foo/bar", Value::Int(15)).unwrap();
    assert_eq!(hit, p);
    assert_eq!(called, Vec::new());
    assert_eq!(p.get_value(&d), Ok(Value::Int(10)));
    assert_eq!(p.fetch(&d), Ok(Value::Int(10)));
}

#[test]
fn inbound_to_nowhere_is_dropped() {
    let mut d = device();
    let p = parameter(&mut d, "a", Type::Int);
    assert_eq!(d.inbound("/b", Value::Int(1)), Err(Error::NotFound));
    let root = d.root();
    root.new(&mut d, "plain").unwrap();
    assert_eq!(d.inbound("/plain", Value::Int(1)), Err(Error::NotFound));
    assert_eq!(d.inbound("/a", Value::string("x")), Err(Error::TypeMismatch));
    assert_eq!(p.get_value(&d), Ok(Value::Int(0)));
}

#[test]
fn a_new_parameter_holds_the_initial_value() {
    let mut d = device();
    let p = parameter(&mut d, "a", Type::Float);
    assert_eq!(p.get_value(&d), Ok(Value::Float(f(0.0))));
    assert_eq!(p.fetch(&d), Ok(Value::Float(f(0.0))));
    assert_eq!(p.get_type(&d), Ok(Type::Float));
    assert_eq!(p.get_access_mode(&d), Ok(Access::Bi));
    assert_eq!(p.get_bounding_mode(&d), Ok(Bounding::Free));
    assert_eq!(p.get_domain(&d), Ok(None));
    assert_eq!(p.get_unit(&d), Ok(String::new()));
    assert_eq!(p.get_muted(&d), Ok(false));
    assert_eq!(p.get_disabled(&d), Ok(false));
    assert_eq!(p.get_critical(&d), Ok(false));
    assert_eq!(p.get_repetition_filter(&d), Ok(false));
    assert_eq!(p.get_listening(&d), Ok(true));
    assert_eq!(p.callbacks(&d), Ok(Vec::new()));
    assert_eq!(p.node().parameter(&d), Some(p));
}

#[test]
fn settings_are_plain_get_and_set() {
    let mut d = device();
    let p = parameter(&mut d, "a", Type::Int);
    p.set_access_mode(&mut d, Access::Get).unwrap();
    p.set_bounding_mode(&mut d, Bounding::Fold).unwrap();
    p.set_unit(&mut d, "distance.m").unwrap();
    p.set_muted(&mut d, true).unwrap();
    p.set_disabled(&mut d, true).unwrap();
    p.set_critical(&mut d, true).unwrap();
    p.set_repetition_filter(&mut d, true).unwrap();
    p.set_listening(&mut d, false).unwrap();
    let domain = Domain::range(Value::Int(-1), Value::Int(1));
    p.set_domain(&mut d, domain.clone()).unwrap();
    assert_eq!(p.get_access_mode(&d), Ok(Access::Get));
    assert_eq!(p.get_bounding_mode(&d), Ok(Bounding::Fold));
    assert_eq!(p.get_unit(&d), Ok(String::from("distance.m")));
    assert_eq!(p.get_muted(&d), Ok(true));
    assert_eq!(p.get_disabled(&d), Ok(true));
    assert_eq!(p.get_critical(&d), Ok(true));
    assert_eq!(p.get_repetition_filter(&d), Ok(true));
    assert_eq!(p.get_listening(&d), Ok(false));
    assert_eq!(p.get_domain(&d), Ok(Some(domain)));
}

#[test]
fn a_domain_of_another_type_is_invalid() {
    let mut d = device();
    let p = parameter(&mut d, "a", Type::Int);
    let floats = Domain::range(Value::Float(f(0.0)), Value::Float(f(1.0)));
    assert_eq!(p.set_domain(&mut d, floats), Err(Error::InvalidDomain));
    assert_eq!(p.set_domain(&mut d, Domain::strings(&["a"])), Err(Error::InvalidDomain));
    assert_eq!(p.get_domain(&d), Ok(None));
    assert_eq!(p.set_domain(&mut d, Domain::ints(&[1, 2])), Ok(()));
    assert_eq!(p.set_domain(&mut d, Domain::new()), Ok(()));
}

#[test]
fn set_value_writes_without_echo_and_without_bounding() {
    let mut d = device();
    let p = parameter(&mut d, "a", Type::Int);
    p.set_domain(&mut d, Domain::range(Value::Int(0), Value::Int(10))).unwrap();
    p.set_bounding_mode(&mut d, Bounding::Clip).unwrap();
    p.add_callback(&mut d).unwrap();
    assert_eq!(p.push_value(&mut d, Value::Int(4)).unwrap().len(), 1);
    assert_eq!(p.set_value(&mut d, Value::Int(99)), Ok(()));
    assert_eq!(p.get_value(&d), Ok(Value::Int(99)));
    assert_eq!(p.fetch(&d), Ok(Value::Int(4)));
    assert_eq!(p.set_value(&mut d, Value::Float(f(2.9))), Ok(()));
    assert_eq!(p.get_value(&d), Ok(Value::Int(2)));
    assert_eq!(p.set_value(&mut d, Value::string("x")), Err(Error::TypeMismatch));
    assert_eq!(p.get_value(&d), Ok(Value::Int(2)));
}

#[test]
fn push_notifies_subscribers_in_registration_order() {
    let mut d = device();
    let p = parameter(&mut d, "a", Type::Int);
    let first = p.add_callback(&mut d).unwrap();
    let second = p.add_callback(&mut d).unwrap();
    let third = p.add_callback(&mut d).unwrap();
    assert_eq!(first, ValueCallbackIdx { token: 0 });
    assert_eq!(p.push_value(&mut d, Value::Int(1)), Ok(vec![first, second, third]));
    p.rm_callback(&mut d, second);
    assert_eq!(p.push_value(&mut d, Value::Int(2)), Ok(vec![first, third]));
    p.rm_callback(&mut d, second);
    p.rm_callback(&mut d, ValueCallbackIdx { token: 1000 });
    let fourth = p.add_callback(&mut d).unwrap();
    assert_eq!(fourth, ValueCallbackIdx { token: 3 });
    assert_eq!(p.callbacks(&d), Ok(vec![first, third, fourth]));
    p.set_listening(&mut d, false).unwrap();
    assert_eq!(p.push_value(&mut d, Value::Int(3)), Ok(Vec::new()));
    assert_eq!(p.get_value(&d), Ok(Value::Int(3)));
    p.set_listening(&mut d, true).unwrap();
    p.push_callback(&mut d).unwrap();
    assert_eq!(p.push_value(&mut d, Value::Int(4)).unwrap().len(), 4);
}

#[test]
fn push_converts_and_bounds() {
    let mut d = device();
    let p = parameter(&mut d, "a", Type::Int);
    p.set_domain(&mut d, Domain::range(Value::Int(0), Value::Int(10))).unwrap();
    p.set_bounding_mode(&mut d, Bounding::Wrap).unwrap();
    p.push_value(&mut d, Value::Float(f(15.7))).unwrap();
    assert_eq!(p.get_value(&d), Ok(Value::Int(5)));
    p.set_bounding_mode(&mut d, Bounding::Fold).unwrap();
    p.push_value(&mut d, Value::Int(-3)).unwrap();
    assert_eq!(p.get_value(&d), Ok(Value::Int(3)));
    assert_eq!(p.push_value(&mut d, Value::string("no")), Err(Error::TypeMismatch));
    assert_eq!(p.get_value(&d), Ok(Value::Int(3)));
}

#[test]
fn typed_pushes_store_their_value() {
    let mut d = device();
    let i = parameter(&mut d, "i", Type::Int);
    let b = parameter(&mut d, "b", Type::Bool);
    let x = parameter(&mut d, "x", Type::Float);
    let v = parameter(&mut d, "v", Type::Vec3f);
    let c = parameter(&mut d, "c", Type::Char);
    let s = parameter(&mut d, "s", Type::String);
    let l = parameter(&mut d, "l", Type::List);
    let t = parameter(&mut d, "t", Type::Impulse);
    i.push(&mut d, 7).unwrap();
    b.push(&mut d, true).unwrap();
    x.push(&mut d, f(0.5)).unwrap();
    v.push(&mut d, (f(1.0), f(2.0), f(3.0))).unwrap();
    c.push(&mut d, 65u8).unwrap();
    s.push(&mut d, "text").unwrap();
    l.push(&mut d, &[1, 2][..]).unwrap();
    t.push(&mut d, ()).unwrap();
    assert_eq!(i.to_int(&d), Ok(7));
    assert_eq!(b.to_bool(&d), Ok(true));
    assert_eq!(x.to_float(&d), Ok(f(0.5)));
    assert_eq!(v.to_vec3f(&d), Ok((f(1.0), f(2.0), f(3.0))));
    assert_eq!(v.to_floats(&d), Ok(vec![f(1.0), f(2.0), f(3.0)]));
    assert_eq!(c.to_char(&d), Ok(65));
    assert_eq!(s.to_string(&d), Ok(String::from("text")));
    assert_eq!(s.to_bytes(&d), Ok(vec![b't', b'e', b'x', b't']));
    assert_eq!(l.to_ints(&d), Ok(vec![1, 2]));
    assert_eq!(t.get_value(&d), Ok(Value::Impulse));
    l.push(&mut d, &[f(1.5)][..]).unwrap();
    assert_eq!(l.to_floats(&d), Ok(vec![f(1.5)]));
    l.push(&mut d, Value::List(vec![Value::Bool(true)])).unwrap();
    assert_eq!(l.get_value(&d), Ok(Value::List(vec![Value::Bool(true)])));
    l.push(&mut d, &[Value::Int(1), Value::string("two")][..]).unwrap();
    assert_eq!(l.get_value(&d), Ok(Value::List(vec![Value::Int(1), Value::string("two")])));
    x.push(&mut d, 3).unwrap();
    assert_eq!(x.to_float(&d), Ok(f(3.0)));
    assert_eq!(x.to_int(&d), Ok(3));
    assert_eq!(i.to_vec2f(&d), Err(Error::TypeMismatch));
    assert_eq!(i.to_vec4f(&d), Err(Error::TypeMismatch));
    assert_eq!(i.to_string(&d), Err(Error::TypeMismatch));
    assert_eq!(i.push(&mut d, "seven"), Err(Error::TypeMismatch));
    assert_eq!(t.push(&mut d, 1), Err(Error::TypeMismatch));
}

#[test]
fn a_missing_parameter_is_not_found() {
    let mut d = device();
    let root = d.root();
    let (node, _) = root.new(&mut d, "bare").unwrap();
    let p = Parameter { node };
    assert_eq!(node.parameter(&d), None);
    assert_eq!(p.get_value(&d), Err(Error::NotFound));
    assert_eq!(p.set_value(&mut d, Value::Int(1)), Err(Error::NotFound));
    assert_eq!(p.push_value(&mut d, Value::Int(1)), Err(Error::NotFound));
    assert_eq!(p.push(&mut d, 1), Err(Error::NotFound));
    assert_eq!(p.add_callback(&mut d), Err(Error::NotFound));
    assert_eq!(p.set_muted(&mut d, true), Err(Error::NotFound));
    assert_eq!(p.set_domain(&mut d, Domain::new()), Err(Error::NotFound));
    assert_eq!(p.to_int(&d), Err(Error::NotFound));
    assert_eq!(p.to_parameters(&d), Err(Error::NotFound));
    assert_eq!(node.rm_parameter(&mut d), Err(Error::NotFound));
    assert_eq!(node.deleting(&d), Vec::<Notice>::new());
    p.rm_callback(&mut d, ValueCallbackIdx { token: 0 });
    let gone = Parameter { node: Node { id: 99 } };
    assert_eq!(gone.fetch(&d), Err(Error::NotFound));
}

#[test]
fn a_node_carries_one_parameter() {
    let mut d = device();
    let p = parameter(&mut d, "a", Type::Int);
    assert_eq!(p.node().add_parameter(&mut d, Type::Float), Err(Error::Unsupported));
    assert_eq!(p.get_type(&d), Ok(Type::Int));
    assert_eq!(p.to_parameters(&d), Err(Error::Unsupported));
}

#[test]
fn deleting_a_parameter_is_announced_first() {
    let mut d = device();
    let p = parameter(&mut d, "a", Type::Int);
    let id = d.on_parameter_deleting().unwrap();
    assert_eq!(p.node().deleting(&d), vec![Notice { callback: id, node: p.node() }]);
    assert_eq!(p.node().parameter(&d), Some(p));
    assert_eq!(p.node().rm_parameter(&mut d), Ok(()));
    assert_eq!(p.node().parameter(&d), None);
    assert!(d.contains(p.node()));
    assert!(p.node().add_parameter(&mut d, Type::Float).is_ok());
}

#[test]
fn access_codes() {
    let all = [Access::Bi, Access::Get, Access::Put];
    for (i, m) in all.iter().enumerate() {
        assert_eq!(m.repr(), i as i32);
        assert_eq!(Access::from_repr(i as i32), Some(*m));
    }
    assert_eq!(Access::from_repr(3), None);
}

#[test]
fn outbound_names_the_address_and_the_other_protocols() {
    let mut d = device();
    let p = parameter(&mut d, "foo/bar", Type::Int);
    p.push(&mut d, 5).unwrap();
    let out = d.outbound(p, None).unwrap();
    assert_eq!(out.address, "/foo/bar");
    assert_eq!(out.value, Value::Int(5));
    assert_eq!(out.protocols, vec![0]);
    let echo = d.outbound(p, Some(0)).unwrap();
    assert_eq!(echo.protocols, Vec::<usize>::new());
    assert_eq!(d.outbound(Parameter { node: d.root() }, None), Err(Error::NotFound));
}
