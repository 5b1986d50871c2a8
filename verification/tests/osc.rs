use ossia::osc::{decode, encode};
use ossia::{Device, Error, Float, Protocol, Type, Value};

fn f(x: f32) -> Float {
    Float::from_bits(x.to_bits())
}

#[test]
fn a_float_message_is_framed_as_the_protocol_lays_out() {
    let bytes = encode("/oscillator/4/frequency", &Value::Float(f(440.0))).unwrap();
    let mut expect = Vec::new();
    expect.extend_from_slice(b"/oscillator/4/frequency\0");
    expect.extend_from_slice(b",f\0\0");
    expect.extend_from_slice(&[0x43, 0xdc, 0x00, 0x00]);
    assert_eq!(bytes, expect);
}

#[test]
fn integers_are_big_endian_twos_complement() {
    assert_eq!(encode("/foo", &Value::Int(1000)).unwrap(), b"/foo\0\0\0\0,i\0\0\x00\x00\x03\xe8".to_vec());
    assert_eq!(encode("/foo", &Value::Int(-1)).unwrap(), b"/foo\0\0\0\0,i\0\0\xff\xff\xff\xff".to_vec());
    assert_eq!(decode(b"/foo\0\0\0\0,i\0\0\xff\xff\xff\xfe"), Some((String::from("/foo"), Value::Int(-2))));
    assert_eq!(
        decode(b"/foo\0\0\0\0,i\0\0\x80\x00\x00\x00"),
        Some((String::from("/foo"), Value::Int(i32::MIN)))
    );
}

#[test]
fn strings_and_blobs_are_padded() {
    assert_eq!(
        encode("/a", &Value::string("hello")).unwrap(),
        b"/a\0\0,s\0\0hello\0\0\0".to_vec()
    );
    assert_eq!(encode("/a", &Value::string("abcd")).unwrap(), b"/a\0\0,s\0\0abcd\0\0\0\0".to_vec());
    assert_eq!(
        encode("/a", &Value::bytes(&[1, 2, 3, 4, 5])).unwrap(),
        b"/a\0\0,b\0\0\0\0\0\x05\x01\x02\x03\x04\x05\0\0\0".to_vec()
    );
    assert_eq!(encode("/a", &Value::bytes(&[])).unwrap(), b"/a\0\0,b\0\0\0\0\0\0".to_vec());
}

#[test]
fn tags_without_data() {
    assert_eq!(encode("/a", &Value::Bool(true)).unwrap(), b"/a\0\0,T\0\0".to_vec());
    assert_eq!(encode("/a", &Value::Bool(false)).unwrap(), b"/a\0\0,F\0\0".to_vec());
    assert_eq!(encode("/a", &Value::Impulse).unwrap(), b"/a\0\0,I\0\0".to_vec());
    assert_eq!(encode("/a", &Value::Char(b'x')).unwrap(), b"/a\0\0,c\0\0\0\0\0x".to_vec());
    assert_eq!(decode(b"/a\0\0,\0\0\0"), Some((String::from("/a"), Value::Impulse)));
}

#[test]
fn vectors_and_lists() {
    assert_eq!(
        encode("/a", &Value::Vec2f(f(1.0), f(2.0))).unwrap(),
        b"/a\0\0,ff\0\x3f\x80\0\0\x40\0\0\0".to_vec()
    );
    assert_eq!(
        encode("/a", &Value::ints(&[1, 2])).unwrap(),
        b"/a\0\0,[ii]\0\0\0\0\0\0\x01\0\0\0\x02".to_vec()
    );
    assert_eq!(encode("/a", &Value::List(Vec::new())).unwrap(), b"/a\0\0,[]\0".to_vec());
    assert_eq!(
        decode(b"/a\0\0,ff\0\x3f\x80\0\0\x40\0\0\0"),
        Some((String::from("/a"), Value::floats(&[f(1.0), f(2.0)])))
    );
    assert_eq!(
        decode(b"/a\0\0,i[iT]s\0\0\0\0\x01\0\0\0\x02x\0\0\0"),
        Some((
            String::from("/a"),
            Value::List(vec![
                Value::Int(1),
                Value::List(vec![Value::Int(2), Value::Bool(true)]),
                Value::string("x")
            ])
        ))
    );
}

#[test]
fn what_is_framed_is_read_back() {
    let values = vec![
        Value::Impulse,
        Value::Int(0),
        Value::Int(i32::MAX),
        Value::Int(i32::MIN),
        Value::Float(f(-0.125)),
        Value::Float(f(f32::INFINITY)),
        Value::Bool(true),
        Value::Bool(false),
        Value::Char(0),
        Value::Char(255),
        Value::string(""),
        Value::string("abc"),
        Value::string("héllo wörld"),
        Value::bytes(&[0, 1, 2, 0]),
        Value::bytes(&[9; 7]),
        Value::List(Vec::new()),
        Value::List(vec![Value::Int(1)]),
        Value::List(vec![Value::Int(1), Value::string("two"), Value::Bool(false), Value::bytes(&[3])]),
    ];
    for v in values {
        for address in ["/", "/a", "/abc", "/foo/bar", "/é"] {
            let bytes = encode(address, &v).unwrap();
            assert_eq!(bytes.len() % 4, 0);
            assert_eq!(decode(&bytes), Some((String::from(address), v.clone())));
        }
    }
    let v = Value::Vec3f(f(1.0), f(2.0), f(3.0));
    assert_eq!(
        decode(&encode("/v", &v).unwrap()),
        Some((String::from("/v"), Value::floats(&[f(1.0), f(2.0), f(3.0)])))
    );
    let v = Value::Vec4f(f(1.0), f(2.0), f(3.0), f(4.0));
    assert_eq!(
        decode(&encode("/v", &v).unwrap()).unwrap().1.convert(Type::Vec4f),
        Ok(v)
    );
}

#[test]
fn what_cannot_be_framed_is_refused() {
    assert_eq!(encode("foo", &Value::Int(1)), Err(Error::InvalidArgument));
    assert_eq!(encode("", &Value::Int(1)), Err(Error::InvalidArgument));
    assert_eq!(encode("/a\0b", &Value::Int(1)), Err(Error::InvalidArgument));
    assert_eq!(encode("/a", &Value::string("x\0y")), Err(Error::InvalidArgument));
    assert_eq!(encode("/a", &Value::List(vec![Value::List(Vec::new())])), Err(Error::InvalidArgument));
    assert_eq!(encode("/a", &Value::List(vec![Value::Vec2f(f(0.0), f(0.0))])), Err(Error::InvalidArgument));
}

#[test]
fn malformed_messages_are_no_messages() {
    assert_eq!(decode(b""), None);
    assert_eq!(decode(b"/a"), None);
    assert_eq!(decode(b"/a\0\0"), None);
    assert_eq!(decode(b"a\0\0\0,\0\0\0"), None);
    assert_eq!(decode(b"/a\0\0i\0\0\0"), None);
    assert_eq!(decode(b"/a\0\0,i\0\0\0\0\0"), None);
    assert_eq!(decode(b"/a\0\0,i\0\0\0\0\0\x01\0\0\0\0"), None);
    assert_eq!(decode(b"/a\0\0,x\0\0"), None);
    assert_eq!(decode(b"/a\0\0,[i\0\0\0\0\x01"), None);
    assert_eq!(decode(b"/a\0\0,[[]]\0\0\0"), None);
    assert_eq!(decode(b"/a\0\x01,T\0\0"), None);
    assert_eq!(decode(b"/a\0\0,c\0\0\0\0\x01\0"), None);
    assert_eq!(decode(b"/a\0\0,s\0\0\xff\xfe\0\0"), None);
    assert_eq!(decode(b"/a\0\0,b\0\0\0\0\0\x05\x01\x02"), None);
    assert_eq!(decode(b"/\xff\0\0,T\0\0"), None);
}

#[test]
fn a_device_takes_messages_and_frames_values() {
    let mut d = Device::new(Protocol::osc("127.0.0.1", 9001, 9000).unwrap(), "D");
    let root = d.root();
    let p = root.new(&mut d, "/foo/bar").unwrap().0.add_parameter(&mut d, Type::Int).unwrap();
    let message = encode("/foo/bar", &Value::Float(f(7.5))).unwrap();
    assert_eq!(d.receive(&message), Ok((p, Vec::new())));
    assert_eq!(p.get_value(&d), Ok(Value::Int(7)));
    assert_eq!(d.frame(p), Ok(b"/foo/bar\0\0\0\0,i\0\0\0\0\0\x07".to_vec()));
    assert_eq!(d.receive(b"junk"), Err(Error::InvalidArgument));
    assert_eq!(d.receive(&encode("/nowhere", &Value::Int(1)).unwrap()), Err(Error::NotFound));
    assert_eq!(d.receive(&encode("/foo/bar", &Value::string("x")).unwrap()), Err(Error::TypeMismatch));
    assert_eq!(d.frame(ossia::Parameter { node: root }), Err(Error::NotFound));
    let odd = root.new(&mut d, "z\0z").unwrap().0.add_parameter(&mut d, Type::Int).unwrap();
    assert_eq!(d.frame(odd), Err(Error::InvalidArgument));
}
