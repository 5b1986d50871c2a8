use ossia::{Device, Error, LogLevel, Logger, MessageQueue, Parameter, Protocol, Record, Type, Value};

fn osc(port: i32) -> Protocol {
    Protocol::osc("127.0.0.1", port, port + 1).unwrap()
}

#[test]
fn endpoints_are_kept() {
    assert_eq!(
        Protocol::osc("10.0.0.1", 9000, 9001),
        Ok(Protocol::Osc { ip: String::from("10.0.0.1"), remote_port: 9000, local_port: 9001 })
    );
    assert_eq!(
        Protocol::minuit("me", "10.0.0.1", 6666, 9998),
        Ok(Protocol::Minuit {
            local_name: String::from("me"),
            ip: String::from("10.0.0.1"),
            remote_port: 6666,
            local_port: 9998
        })
    );
    assert_eq!(
        Protocol::oscquery_server(1234, 5678),
        Ok(Protocol::OscQueryServer { osc_port: 1234, ws_port: 5678 })
    );
    assert_eq!(
        Protocol::oscquery_mirror("ws://host:5678"),
        Protocol::OscQueryMirror { host: String::from("ws://host:5678") }
    );
}

#[test]
fn ports_must_be_port_numbers() {
    assert_eq!(Protocol::osc("h", 70000, 1), Err(Error::TransportError));
    assert_eq!(Protocol::osc("h", 1, -1), Err(Error::TransportError));
    assert_eq!(Protocol::minuit("n", "h", 65536, 1), Err(Error::TransportError));
    assert_eq!(Protocol::oscquery_server(0, 65536), Err(Error::TransportError));
    assert!(Protocol::osc("h", 0, 65535).is_ok());
}

#[test]
fn a_cycle_delivers_once_and_never_back() {
    let mut m = Protocol::multiplex(osc(1000), osc(2000));
    assert_eq!(m.route(0), vec![1]);
    assert_eq!(m.route(1), Vec::<usize>::new());
    assert_eq!(m.expose_to(1, 0), Ok(()));
    assert_eq!(m.route(0), vec![1]);
    assert_eq!(m.route(1), vec![0]);
    assert_eq!(m.expose_to(1, 0), Ok(()));
    assert_eq!(m.route(1), vec![0]);
}

#[test]
fn values_travel_along_chains_of_edges() {
    let mut m = Protocol::multiplex(osc(1000), osc(2000));
    assert_eq!(m.add_member(osc(3000)), Ok(2));
    assert_eq!(m.add_member(osc(4000)), Ok(3));
    m.expose_to(1, 2).unwrap();
    m.expose_to(2, 0).unwrap();
    assert_eq!(m.route(0), vec![1, 2]);
    assert_eq!(m.route(1), vec![0, 2]);
    assert_eq!(m.route(2), vec![0, 1]);
    assert_eq!(m.route(3), Vec::<usize>::new());
    m.expose_to(3, 3).unwrap();
    assert_eq!(m.route(3), Vec::<usize>::new());
    m.expose_to(3, 0).unwrap();
    assert_eq!(m.route(3), vec![0, 1, 2]);
    assert_eq!(m.route(17), Vec::<usize>::new());
}

#[test]
fn only_members_can_be_exposed() {
    let mut m = Protocol::multiplex(osc(1000), osc(2000));
    assert_eq!(m.expose_to(0, 2), Err(Error::InvalidArgument));
    assert_eq!(m.expose_to(5, 0), Err(Error::InvalidArgument));
    let mut plain = osc(1000);
    assert_eq!(plain.expose_to(0, 0), Err(Error::Unsupported));
    assert_eq!(plain.add_member(osc(1)), Err(Error::Unsupported));
    assert_eq!(plain.route(0), Vec::<usize>::new());
    let wild = Protocol::Multiplex { members: vec![osc(1), osc(3)], edges: vec![(0, 7), (7, 1), (1, 0)] };
    assert_eq!(wild.route(0), Vec::<usize>::new());
    assert_eq!(wild.route(1), vec![0]);
}

#[test]
fn a_refresh_asks_the_mirrors() {
    let d = Device::new(Protocol::oscquery_mirror("ws://a"), "D");
    assert_eq!(d.update_namespace(), vec![0]);
    let d = Device::new(osc(1), "D");
    assert_eq!(d.update_namespace(), Vec::<usize>::new());
    let d = Device::new(Protocol::multiplex(osc(1), Protocol::oscquery_mirror("ws://a")), "D");
    assert_eq!(d.update_namespace(), vec![0]);
    assert!(Protocol::multiplex(osc(1), Protocol::oscquery_mirror("x")).mirrors());
    assert!(!Protocol::multiplex(osc(1), osc(3)).mirrors());
}

#[test]
fn the_queue_is_first_in_first_out() {
    let mut d = Device::new(osc(9000), "D");
    let root = d.root();
    let p1 = root.new(&mut d, "a").unwrap().0.add_parameter(&mut d, Type::Int).unwrap();
    let p2 = root.new(&mut d, "b").unwrap().0.add_parameter(&mut d, Type::Int).unwrap();
    let mut q = MessageQueue::new(&d);
    q.register(p1);
    q.register(p2);
    assert!(q.enqueue(p1, Value::Int(1)));
    assert!(q.enqueue(p2, Value::Int(2)));
    assert_eq!(q.len(), 2);
    assert_eq!(q.pop(), Some((p1, Value::Int(1))));
    assert_eq!(q.pop(), Some((p2, Value::Int(2))));
    assert_eq!(q.pop(), None);
    assert_eq!(q.pop(), None);
}

#[test]
fn the_queue_takes_registered_parameters_only() {
    let mut d = Device::new(osc(9000), "D");
    let root = d.root();
    let p1 = root.new(&mut d, "a").unwrap().0.add_parameter(&mut d, Type::Int).unwrap();
    let p2 = Parameter { node: root };
    let mut q = MessageQueue::new(&d);
    assert!(!q.enqueue(p1, Value::Int(1)));
    q.register(p1);
    q.register(p1);
    assert!(q.is_registered(p1));
    assert!(!q.is_registered(p2));
    assert!(q.enqueue(p1, Value::Int(1)));
    assert!(!q.enqueue(p2, Value::Int(2)));
    q.unregister(p1);
    assert!(!q.is_registered(p1));
    assert!(!q.enqueue(p1, Value::Int(3)));
    assert_eq!(q.len(), 1);
    assert_eq!(q.pop(), Some((p1, Value::Int(1))));
    assert_eq!(q.pop(), None);
}

#[test]
fn messages_pass_at_or_above_the_level() {
    let mut log = Logger::new("host", "app");
    let expect = |lvl, text: &str| {
        Some(Record { level: lvl, host: String::from("host"), app: String::from("app"), message: String::from(text) })
    };
    assert_eq!(log.log(LogLevel::Trace, "t"), expect(LogLevel::Trace, "t"));
    log.level(LogLevel::Warn);
    assert_eq!(log.log(LogLevel::Info, "i"), None);
    assert_eq!(log.log(LogLevel::Warn, "w"), expect(LogLevel::Warn, "w"));
    assert_eq!(log.log(LogLevel::Critical, "c"), expect(LogLevel::Critical, "c"));
    assert_eq!(log.log(LogLevel::Off, "o"), None);
    log.level(LogLevel::Off);
    assert_eq!(log.log(LogLevel::Critical, "c"), None);
}

#[test]
fn the_heartbeat_registers_once() {
    let mut log = Logger::new("host", "app");
    assert!(log.heatbeat(42, "app --flag"));
    assert!(!log.heatbeat(43, "other"));
}

#[test]
fn level_codes() {
    let all = [
        LogLevel::Trace,
        LogLevel::Debug,
        LogLevel::Info,
        LogLevel::Warn,
        LogLevel::Error,
        LogLevel::Critical,
        LogLevel::Off,
    ];
    for (i, l) in all.iter().enumerate() {
        assert_eq!(l.repr(), i as i32);
        assert_eq!(LogLevel::from_repr(i as i32), Some(*l));
    }
    assert_eq!(LogLevel::from_repr(7), None);
}
