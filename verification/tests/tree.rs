use ossia::{Device, Double, Error, Float, Node, NodeCallbackId, Notice, Protocol, TreeEvent, Type, Value};

fn device() -> Device {
    Device::new(Protocol::osc("127.0.0.1", 9001, 9000).unwrap(), "D")
}

fn child(d: &mut Device, parent: Node, name: &str) -> Node {
    parent.add_child(d, name).unwrap().0
}

#[test]
fn a_new_device_has_a_root_and_nothing_else() {
    let d = device();
    let root = d.root();
    assert_eq!(d.name(), "D");
    assert!(d.contains(root));
    assert_eq!(root.num_children(&d), Ok(0));
    assert_eq!(root.path(&d), Ok(String::from("/")));
    assert_eq!(root.parent(&d), None);
    assert_eq!(root.name(&d), Ok(String::from("D")));
    assert_eq!(d.num_protocols(), 1);
}

#[test]
fn created_path_is_found_again_under_its_address() {
    let mut d = device();
    let root = d.root();
    let (b, _) = root.new(&mut d, "a/b").unwrap();
    assert_eq!(b.path(&d), Ok(String::from("/a/b")));
    let address = b.path(&d).unwrap();
    assert_eq!(root.find(&d, &address), Some(b));
    assert_eq!(root.find(&d, "a/b"), Some(b));
    assert_eq!(root.find(&d, "/a//b/"), Some(b));
    let a = root.find(&d, "a").unwrap();
    assert_eq!(a.find(&d, "b"), Some(b));
    assert_eq!(b.parent(&d), Some(a));
    assert_eq!(a.name(&d), Ok(String::from("a")));
    assert_eq!(root.find(&d, ""), Some(root));
}

#[test]
fn nested_creation_under_a_child_is_found_from_the_root() {
    let mut d = device();
    let root = d.root();
    let x = child(&mut d, root, "x");
    let (leaf, _) = x.new(&mut d, "a/b").unwrap();
    let address = leaf.path(&d).unwrap();
    assert_eq!(address, "/x/a/b");
    assert_eq!(d.root().find(&d, &address), Some(leaf));
}

#[test]
fn missing_names_resolve_to_nothing() {
    let mut d = device();
    let root = d.root();
    root.new(&mut d, "a/b").unwrap();
    assert_eq!(root.find(&d, "a/c"), None);
    assert_eq!(root.find(&d, "b"), None);
    assert_eq!(root.find_child(&d, "zzz"), None);
    assert_eq!(Node { id: 99 }.find(&d, "a"), None);
}

#[test]
fn creation_reuses_what_is_there() {
    let mut d = device();
    let root = d.root();
    let (b, _) = root.new(&mut d, "a/b").unwrap();
    let (c, _) = root.new(&mut d, "a/c").unwrap();
    assert_eq!(root.num_children(&d), Ok(1));
    let a = root.find(&d, "a").unwrap();
    assert_eq!(a.num_children(&d), Ok(2));
    assert_eq!(a.child(&d, 0), Some(b));
    assert_eq!(a.child(&d, 1), Some(c));
    assert_eq!(a.child(&d, 2), None);
    let again = root.new(&mut d, "a/b").unwrap();
    assert_eq!(again.0, b);
    assert_eq!(again.1, Vec::<Notice>::new());
}

#[test]
fn creating_over_a_parameter_is_a_duplicate() {
    let mut d = device();
    let root = d.root();
    let (b, _) = root.new(&mut d, "a/b").unwrap();
    b.add_parameter(&mut d, Type::Int).unwrap();
    assert_eq!(root.new(&mut d, "a/b"), Err(Error::DuplicateName));
    assert_eq!(root.new(&mut d, "/a/b/"), Err(Error::DuplicateName));
    assert!(root.new(&mut d, "a/b/c").is_ok());
}

#[test]
fn added_children_must_be_new() {
    let mut d = device();
    let root = d.root();
    let a = child(&mut d, root, "a");
    assert_eq!(root.add_child(&mut d, "a"), Err(Error::DuplicateName));
    assert_eq!(root.add_child(&mut d, "/a/"), Err(Error::DuplicateName));
    assert_eq!(root.add_child(&mut d, ""), Err(Error::InvalidArgument));
    assert_eq!(root.add_child(&mut d, "//"), Err(Error::InvalidArgument));
    assert_eq!(Node { id: 42 }.add_child(&mut d, "b"), Err(Error::NotFound));
    assert_eq!(root.find_child(&d, "a"), Some(a));
    assert!(a.add_child(&mut d, "a").is_ok());
    let before = root.num_children(&d);
    assert_eq!(root.add_child(&mut d, "a/a"), Err(Error::DuplicateName));
    assert_eq!(root.num_children(&d), before);
}

#[test]
fn an_added_path_is_found_again_under_its_address() {
    let mut d = device();
    let root = d.root();
    let node = child(&mut d, root, "n");
    let (created, notices) = node.add_child(&mut d, "a/b").unwrap();
    assert_eq!(notices, Vec::<Notice>::new());
    let address = created.path(&d).unwrap();
    assert_eq!(address, "/n/a/b");
    assert_eq!(d.root().find(&d, &address), Some(created));
    assert_eq!(node.find(&d, "a/b"), Some(created));
    assert_eq!(node.add_child(&mut d, "a/b"), Err(Error::DuplicateName));
    assert!(node.add_child(&mut d, "a/c").is_ok());
}

#[test]
fn creation_notifies_every_subscriber_for_every_node() {
    let mut d = device();
    let root = d.root();
    let first = d.on_node_created().unwrap();
    let second = d.on_node_created().unwrap();
    assert_eq!(first, NodeCallbackId::NodeCreated(0));
    assert_eq!(second, NodeCallbackId::NodeCreated(1));
    let (b, notices) = root.new(&mut d, "a/b").unwrap();
    let a = root.find(&d, "a").unwrap();
    assert_eq!(
        notices,
        vec![
            Notice { callback: first, node: a },
            Notice { callback: second, node: a },
            Notice { callback: first, node: b },
            Notice { callback: second, node: b },
        ]
    );
    d.rm_callback(first);
    let (c, notices) = root.add_child(&mut d, "c").unwrap();
    assert_eq!(notices, vec![Notice { callback: second, node: c }]);
}

#[test]
fn tokens_are_not_reused() {
    let mut d = device();
    let a = d.on_node_removing().unwrap();
    d.rm_callback(a);
    let b = d.on_node_removing().unwrap();
    assert_eq!(a, NodeCallbackId::NodeRemoving(0));
    assert_eq!(b, NodeCallbackId::NodeRemoving(1));
    assert_eq!(d.callbacks(TreeEvent::NodeRemoving), vec![b]);
    d.rm_callback(NodeCallbackId::NodeRemoving(77));
    d.rm_callback(NodeCallbackId::NodeCreated(1));
    assert_eq!(d.callbacks(TreeEvent::NodeRemoving), vec![b]);
    assert_eq!(d.callbacks(TreeEvent::NodeCreated), Vec::new());
    assert_eq!(d.on_parameter_deleting(), Ok(NodeCallbackId::ParameterDeleting(0)));
}

#[test]
fn removal_announces_the_parameter_and_then_the_node() {
    let mut d = device();
    let root = d.root();
    let (b, _) = root.new(&mut d, "a/b").unwrap();
    let a = root.find(&d, "a").unwrap();
    b.add_parameter(&mut d, Type::Int).unwrap();
    let deleting = d.on_parameter_deleting().unwrap();
    let removing = d.on_node_removing().unwrap();
    let notices = a.removing(&d, b).unwrap();
    assert_eq!(
        notices,
        vec![Notice { callback: deleting, node: b }, Notice { callback: removing, node: b }]
    );
    assert_eq!(root.find(&d, "a/b"), Some(b));
    assert_eq!(a.rm_child(&mut d, b), Ok(()));
    assert_eq!(root.find(&d, "a/b"), None);
    assert!(!d.contains(b));
    assert_eq!(b.parameter(&d), None);
    assert_eq!(b.name(&d), Err(Error::NotFound));
}

#[test]
fn removal_takes_the_subtree_leaves_first() {
    let mut d = device();
    let root = d.root();
    let (c, _) = root.new(&mut d, "a/b/c").unwrap();
    let a = root.find(&d, "a").unwrap();
    let b = a.find(&d, "b").unwrap();
    let other = child(&mut d, root, "other");
    c.add_parameter(&mut d, Type::Bool).unwrap();
    let removing = d.on_node_removing().unwrap();
    let deleting = d.on_parameter_deleting().unwrap();
    assert_eq!(
        root.removing(&d, a),
        Ok(vec![
            Notice { callback: deleting, node: c },
            Notice { callback: removing, node: c },
            Notice { callback: removing, node: b },
            Notice { callback: removing, node: a },
        ])
    );
    assert_eq!(root.rm_child(&mut d, a), Ok(()));
    assert!(!d.contains(a) && !d.contains(b) && !d.contains(c));
    assert!(d.contains(other));
    assert_eq!(root.num_children(&d), Ok(1));
    assert_eq!(root.child(&d, 0), Some(other));
    let (again, _) = root.new(&mut d, "a").unwrap();
    assert!(again != a);
    assert_eq!(again.num_children(&d), Ok(0));
}

#[test]
fn only_children_can_be_removed() {
    let mut d = device();
    let root = d.root();
    let (b, _) = root.new(&mut d, "a/b").unwrap();
    assert_eq!(root.rm_child(&mut d, b), Err(Error::NotFound));
    assert_eq!(root.removing(&d, b), Err(Error::NotFound));
    assert_eq!(root.rm_child(&mut d, root), Err(Error::NotFound));
    assert_eq!(root.rm_child(&mut d, Node { id: 50 }), Err(Error::NotFound));
    assert!(d.contains(b));
}

#[test]
fn attributes_are_plain_get_and_set() {
    let mut d = device();
    let root = d.root();
    let n = child(&mut d, root, "n");
    assert_eq!(n.description(&d), Ok(String::new()));
    assert_eq!(n.extended_type(&d), Ok(String::new()));
    assert_eq!(n.tags(&d), Ok(Vec::new()));
    assert_eq!(n.hidden(&d), Ok(false));
    assert_eq!(n.refresh_rate(&d), Ok(None));
    assert_eq!(n.priority(&d), Ok(None));
    assert_eq!(n.step_size(&d), Ok(None));
    assert_eq!(n.instance_bounds(&d), Ok(None));
    assert_eq!(n.default_value(&d), Ok(None));

    n.set_description(&mut d, "a node").unwrap();
    n.set_extended_type(&mut d, "color.rgb").unwrap();
    n.set_tags(&mut d, &["x", "y", "x"]).unwrap();
    n.set_hidden(&mut d, true).unwrap();
    n.set_refresh_rate(&mut d, 50).unwrap();
    n.set_priority(&mut d, Float::from_bits(2.5f32.to_bits())).unwrap();
    n.set_step_size(&mut d, Double::from_bits(0.125f64.to_bits())).unwrap();
    n.set_instance_bounds(&mut d, (1, 4)).unwrap();
    n.set_default_value(&mut d, Value::Int(3)).unwrap();

    assert_eq!(n.description(&d), Ok(String::from("a node")));
    assert_eq!(n.extended_type(&d), Ok(String::from("color.rgb")));
    assert_eq!(n.tags(&d), Ok(vec![String::from("x"), String::from("y")]));
    assert_eq!(n.hidden(&d), Ok(true));
    assert_eq!(n.refresh_rate(&d), Ok(Some(50)));
    assert_eq!(n.priority(&d).unwrap().map(|p| f32::from_bits(p.to_bits())), Some(2.5));
    assert_eq!(n.step_size(&d).unwrap().map(|p| f64::from_bits(p.to_bits())), Some(0.125));
    assert_eq!(n.instance_bounds(&d), Ok(Some((1, 4))));
    assert_eq!(n.default_value(&d), Ok(Some(Value::Int(3))));

    n.unset_refresh_rate(&mut d).unwrap();
    n.unset_priority(&mut d).unwrap();
    n.unset_step_size(&mut d).unwrap();
    n.unset_instance_bounds(&mut d).unwrap();
    assert_eq!(n.refresh_rate(&d), Ok(None));
    assert_eq!(n.priority(&d), Ok(None));
    assert_eq!(n.step_size(&d), Ok(None));
    assert_eq!(n.instance_bounds(&d), Ok(None));
    assert_eq!(n.name(&d), Ok(String::from("n")));
    assert_eq!(root.find_child(&d, "n"), Some(n));
}

#[test]
fn attributes_of_a_missing_node_are_not_found() {
    let mut d = device();
    let ghost = Node { id: 7 };
    assert_eq!(ghost.hidden(&d), Err(Error::NotFound));
    assert_eq!(ghost.set_hidden(&mut d, true), Err(Error::NotFound));
    assert_eq!(ghost.tags(&d), Err(Error::NotFound));
    assert_eq!(ghost.unset_priority(&mut d), Err(Error::NotFound));
    assert_eq!(ghost.set_default_value(&mut d, Value::Impulse), Err(Error::NotFound));
    assert_eq!(ghost.path(&d), Err(Error::NotFound));
    assert_eq!(ghost.num_children(&d), Err(Error::NotFound));
    assert_eq!(ghost.add_parameter(&mut d, Type::Int), Err(Error::NotFound));
}

#[test]
fn patterns_find_matching_children_in_creation_order() {
    let mut d = device();
    let root = d.root();
    let foo2 = child(&mut d, root, "foo2");
    let bar = child(&mut d, root, "bar");
    let foo1 = child(&mut d, root, "foo1");
    let foo = child(&mut d, root, "foo");
    let deep = child(&mut d, foo1, "foo9");
    let count = root.num_children(&d).unwrap();
    let (found, notices) = root.from_pattern(&mut d, "foo*");
    assert_eq!(found, vec![foo2, foo1, foo]);
    assert_eq!(notices, Vec::<Notice>::new());
    assert_eq!(root.num_children(&d), Ok(count));
    assert_eq!(root.find_pattern(&d, "foo*"), vec![foo2, foo1, foo]);
    assert_eq!(root.find_pattern(&d, "foo?"), vec![foo2, foo1]);
    assert_eq!(root.find_pattern(&d, "*"), vec![foo2, bar, foo1, foo]);
    assert_eq!(root.find_pattern(&d, "*/*"), vec![deep]);
    assert_eq!(root.find_pattern(&d, "{bar,foo}"), vec![bar, foo]);
    assert_eq!(root.find_pattern(&d, "nothing*"), Vec::<Node>::new());
    assert_eq!(root.find_pattern(&d, ""), vec![root]);
    assert_eq!(Node { id: 99 }.find_pattern(&d, "*"), Vec::<Node>::new());
}

#[test]
fn patterns_find_in_tree_order() {
    let mut d = device();
    let root = d.root();
    let a = child(&mut d, root, "a");
    let b = child(&mut d, root, "b");
    let bx = child(&mut d, b, "x");
    let ax = child(&mut d, a, "x");
    let ay = child(&mut d, a, "y");
    assert_eq!(root.find_pattern(&d, "*/*"), vec![ax, ay, bx]);
    assert_eq!(root.find_pattern(&d, "[ab]/x"), vec![ax, bx]);
}

#[test]
fn patterns_create_what_they_spell_out() {
    let mut d = device();
    let root = d.root();
    let created = d.on_node_created().unwrap();
    let (nodes, notices) = root.from_pattern(&mut d, "x/{a,b}");
    let x = root.find(&d, "x").unwrap();
    let a = x.find(&d, "a").unwrap();
    let b = x.find(&d, "b").unwrap();
    assert_eq!(nodes, vec![a, b]);
    assert_eq!(
        notices,
        vec![
            Notice { callback: created, node: x },
            Notice { callback: created, node: a },
            Notice { callback: created, node: b },
        ]
    );
    let (again, notices) = root.from_pattern(&mut d, "x/{a,b,c}");
    let c = x.find(&d, "c").unwrap();
    assert_eq!(again, vec![a, b, c]);
    assert_eq!(notices, vec![Notice { callback: created, node: c }]);
    let (below, _) = root.from_pattern(&mut d, "x/*/leaf");
    assert_eq!(below.len(), 3);
    assert_eq!(below[0].path(&d), Ok(String::from("/x/a/leaf")));
    assert_eq!(below[2].path(&d), Ok(String::from("/x/c/leaf")));
    let (none, notices) = Node { id: 99 }.from_pattern(&mut d, "q");
    assert_eq!(none, Vec::<Node>::new());
    assert_eq!(notices, Vec::<Notice>::new());
}
