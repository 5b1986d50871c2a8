use ossia::{Error, Float, Type, Value};

fn f(x: f32) -> Float {
    Float::from_bits(x.to_bits())
}

#[test]
fn primitives_round_trip() {
    assert_eq!(Value::from(42).to_int(), Ok(42));
    assert_eq!(Value::from(-7).to_int(), Ok(-7));
    assert_eq!(Value::from(f(1.5)).to_float(), Ok(f(1.5)));
    assert_eq!(Value::from(true).to_bool(), Ok(true));
    assert_eq!(Value::from(false).to_bool(), Ok(false));
    assert_eq!(Value::from(65u8).to_char(), Ok(65));
    assert_eq!(Value::from((f(1.0), f(2.0))).to_vec2f(), Ok((f(1.0), f(2.0))));
    assert_eq!(Value::from((f(1.0), f(2.0), f(3.0))).to_vec3f(), Ok((f(1.0), f(2.0), f(3.0))));
    assert_eq!(
        Value::from((f(1.0), f(2.0), f(3.0), f(4.0))).to_vec4f(),
        Ok((f(1.0), f(2.0), f(3.0), f(4.0)))
    );
    assert_eq!(Value::string("hello").to_string(), Ok(String::from("hello")));
    assert_eq!(Value::bytes(&[0, 159, 255]).to_bytes(), Ok(vec![0, 159, 255]));
    assert_eq!(Value::from(()), Value::Impulse);
}

#[test]
fn narrowing_truncates() {
    assert_eq!(Value::Float(f(2.75)).to_int(), Ok(2));
    assert_eq!(Value::Float(f(-2.75)).to_int(), Ok(-2));
    assert_eq!(Value::Int(300).to_char(), Ok(44));
    assert_eq!(Value::Int(-1).to_char(), Ok(255));
    assert_eq!(Value::Float(f(65.9)).to_char(), Ok(65));
}

#[test]
fn nonzero_numbers_are_true() {
    assert_eq!(Value::Int(0).to_bool(), Ok(false));
    assert_eq!(Value::Int(-3).to_bool(), Ok(true));
    assert_eq!(Value::Float(f(0.0)).to_bool(), Ok(false));
    assert_eq!(Value::Float(f(0.25)).to_bool(), Ok(true));
    assert_eq!(Value::Char(0).to_bool(), Ok(false));
    assert_eq!(Value::Char(1).to_bool(), Ok(true));
}

#[test]
fn numbers_widen_to_floats() {
    assert_eq!(Value::Int(3).to_float(), Ok(f(3.0)));
    assert_eq!(Value::Bool(true).to_float(), Ok(f(1.0)));
    assert_eq!(Value::Char(200).to_float(), Ok(f(200.0)));
    assert_eq!(Value::Bool(true).to_int(), Ok(1));
    assert_eq!(Value::Char(7).to_int(), Ok(7));
}

#[test]
fn incompatible_variants_are_a_type_mismatch() {
    assert_eq!(Value::string("abc").to_vec2f(), Err(Error::TypeMismatch));
    assert_eq!(Value::string("abc").to_int(), Err(Error::TypeMismatch));
    assert_eq!(Value::Impulse.to_float(), Err(Error::TypeMismatch));
    assert_eq!(Value::Int(1).to_string(), Err(Error::TypeMismatch));
    assert_eq!(Value::Int(1).to_bytes(), Err(Error::TypeMismatch));
    assert_eq!(Value::Int(1).to_list(), Err(Error::TypeMismatch));
    assert_eq!(Value::ints(&[1, 2]).to_bool(), Err(Error::TypeMismatch));
    assert_eq!(Value::Vec2f(f(1.0), f(2.0)).to_vec3f(), Err(Error::TypeMismatch));
    assert_eq!(Value::Int(1).to_ints(), Err(Error::TypeMismatch));
}

#[test]
fn strings_give_their_utf8_bytes() {
    assert_eq!(Value::string("aé").to_bytes(), Ok(vec![0x61, 0xc3, 0xa9]));
}

#[test]
fn bytes_give_the_text_they_spell() {
    assert_eq!(Value::bytes(&[0x61, 0xc3, 0xa9]).to_string(), Ok(String::from("aé")));
    assert_eq!(Value::bytes(&[]).to_string(), Ok(String::new()));
    assert_eq!(Value::bytes(&[0x61, 0xc3]).to_string(), Err(Error::TypeMismatch));
    assert_eq!(Value::bytes(&[0xff]).to_string(), Err(Error::TypeMismatch));
    let text = Value::string("grüße");
    assert_eq!(Value::bytes(&text.to_bytes().unwrap()).to_string(), text.to_string());
}

#[test]
fn lists_convert_where_all_elements_match() {
    assert_eq!(Value::ints(&[1, 2, 3]).to_ints(), Ok(vec![1, 2, 3]));
    assert_eq!(Value::floats(&[f(1.0), f(2.0)]).to_floats(), Ok(vec![f(1.0), f(2.0)]));
    assert_eq!(Value::floats(&[f(1.0), f(2.0)]).to_vec2f(), Ok((f(1.0), f(2.0))));
    assert_eq!(Value::floats(&[f(1.0), f(2.0)]).to_vec3f(), Err(Error::TypeMismatch));
    assert_eq!(Value::ints(&[1, 2]).to_floats(), Err(Error::TypeMismatch));
    assert_eq!(Value::ints(&[1, 2]).to_vec2f(), Err(Error::TypeMismatch));
    let mixed = Value::List(vec![Value::Int(1), Value::Bool(true)]);
    assert_eq!(mixed.to_ints(), Err(Error::TypeMismatch));
    assert_eq!(mixed.to_list(), Ok(vec![Value::Int(1), Value::Bool(true)]));
    assert_eq!(Value::Vec3f(f(1.0), f(2.0), f(3.0)).to_floats(), Ok(vec![f(1.0), f(2.0), f(3.0)]));
    assert_eq!(
        Value::Vec2f(f(1.0), f(2.0)).to_list(),
        Ok(vec![Value::Float(f(1.0)), Value::Float(f(2.0))])
    );
}

#[test]
fn list_constructor_rejects_mixed_types() {
    assert_eq!(Value::list(vec![Value::Int(1), Value::Bool(true)]), Err(Error::InvalidArgument));
    assert_eq!(
        Value::list(vec![Value::Int(1), Value::Int(2)]),
        Ok(Value::List(vec![Value::Int(1), Value::Int(2)]))
    );
    assert_eq!(Value::list(Vec::new()), Ok(Value::List(Vec::new())));
}

#[test]
fn kinds_of_values() {
    assert_eq!(Value::Impulse.kind(), Type::Impulse);
    assert_eq!(Value::Int(1).kind(), Type::Int);
    assert_eq!(Value::Float(f(1.0)).kind(), Type::Float);
    assert_eq!(Value::Bool(true).kind(), Type::Bool);
    assert_eq!(Value::Char(1).kind(), Type::Char);
    assert_eq!(Value::string("a").kind(), Type::String);
    assert_eq!(Value::bytes(&[1]).kind(), Type::String);
    assert_eq!(Value::ints(&[]).kind(), Type::List);
    assert_eq!(Value::Vec4f(f(0.0), f(0.0), f(0.0), f(0.0)).kind(), Type::Vec4f);
}

#[test]
fn conversion_to_a_type() {
    assert_eq!(Value::Float(f(3.9)).convert(Type::Int), Ok(Value::Int(3)));
    assert_eq!(Value::Int(3).convert(Type::Float), Ok(Value::Float(f(3.0))));
    assert_eq!(Value::Int(3).convert(Type::Int), Ok(Value::Int(3)));
    assert_eq!(Value::Int(2).convert(Type::Bool), Ok(Value::Bool(true)));
    assert_eq!(Value::Int(3).convert(Type::String), Err(Error::TypeMismatch));
    assert_eq!(Value::Int(3).convert(Type::Impulse), Err(Error::TypeMismatch));
    assert_eq!(
        Value::floats(&[f(1.0), f(2.0)]).convert(Type::Vec2f),
        Ok(Value::Vec2f(f(1.0), f(2.0)))
    );
    assert_eq!(
        Value::Vec2f(f(1.0), f(2.0)).convert(Type::List),
        Ok(Value::floats(&[f(1.0), f(2.0)]))
    );
}

#[test]
fn clones_are_equal_and_independent() {
    let v = Value::List(vec![Value::string("a"), Value::ints(&[1, 2])]);
    let w = v.clone();
    assert_eq!(v, w);
    assert!(v.same(&w));
    assert!(!v.same(&Value::Impulse));
    assert!(!Value::bytes(&[1, 2]).same(&Value::bytes(&[1, 3])));
}

#[test]
fn type_codes() {
    let all = [
        Type::Float,
        Type::Int,
        Type::Vec2f,
        Type::Vec3f,
        Type::Vec4f,
        Type::Impulse,
        Type::Bool,
        Type::String,
        Type::List,
        Type::Char,
    ];
    for (i, t) in all.iter().enumerate() {
        assert_eq!(t.repr(), i as i32);
        assert_eq!(Type::from_repr(i as i32), Some(*t));
    }
    assert_eq!(Type::from_repr(10), None);
    assert_eq!(Type::from_repr(-1), None);
}

#[test]
fn initial_values() {
    assert_eq!(Type::Int.default_value(), Value::Int(0));
    assert_eq!(Type::Float.default_value(), Value::Float(f(0.0)));
    assert_eq!(Type::Bool.default_value(), Value::Bool(false));
    assert_eq!(Type::String.default_value(), Value::string(""));
    assert_eq!(Type::List.default_value(), Value::List(Vec::new()));
    assert_eq!(Type::Impulse.default_value(), Value::Impulse);
    assert_eq!(Type::Vec2f.default_value(), Value::Vec2f(f(0.0), f(0.0)));
}
