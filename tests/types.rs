use telegraph::errors::UnpackError;
use telegraph::nodes::{Action, Group, Node, NodeInfo, Placeholder, Variable};
use telegraph::types::{enum_type, Type, TypeClass};
use telegraph::value::{enum_value, Value};
use telegraph::wire;

#[test]
fn enum_type_and_pack() {
    let t = enum_type("gear", &["park", "drive"]);
    assert!(t.is_enum());
    let w = t.pack();
    assert_eq!(w.class, wire::Class::Enum);
    assert_eq!(w.name, "gear");
    assert_eq!(w.labels, vec!["park".to_string(), "drive".to_string()]);
}

#[test]
fn type_pack_unpack_plain() {
    let t = Type { name: None, type_class: TypeClass::Int16 };
    assert!(!t.is_enum());
    let w = t.pack();
    assert_eq!(w.class, wire::Class::Int16);
    assert_eq!(w.name, "");
    let back = Type::unpack(&w).unwrap();
    assert!(back.name.is_none());
    assert!(matches!(back.type_class, TypeClass::Int16));
}

#[test]
fn type_unpack_labels_error() {
    let w = wire::Type { class: wire::Class::Bool, name: "x".to_string(), labels: vec!["a".to_string()] };
    assert!(matches!(Type::unpack(&w), Err(UnpackError::LabelsError)));
}

#[test]
fn value_pack_unpack() {
    for v in [
        Value::Invalid,
        Value::Null,
        enum_value(3),
        Value::Bool(true),
        Value::Uint8(200),
        Value::Uint16(60000),
        Value::Int8(-5),
        Value::Int16(-30000),
        Value::Int64(i64::MIN),
        Value::Float(2.5f32.to_bits()),
        Value::Double(1.0f64.to_bits()),
    ] {
        assert_eq!(Value::unpack(&v.pack()), Ok(v));
    }
}

#[test]
fn value_unpack_narrows_and_rejects_empty() {
    let w = wire::Value { value_type: Some(wire::ValueType::U8(0x1FF)) };
    assert_eq!(Value::unpack(&w), Ok(Value::Uint8(0xFF)));
    let w = wire::Value { value_type: Some(wire::ValueType::I8(200)) };
    assert_eq!(Value::unpack(&w), Ok(Value::Int8(-56)));
    let w = wire::Value { value_type: None };
    assert_eq!(Value::unpack(&w), Err(UnpackError::NullFieldError));
}

#[test]
fn placeholder_pack_unpack() {
    let p = Placeholder::new(12);
    assert_eq!(p.id(), 12);
    assert!(matches!(p.pack().node, Some(wire::NodeKind::Placeholder(12))));
    assert_eq!(Placeholder::unpack(70000).id(), (70000 % 65536) as u16);
}

#[test]
fn variable_pack_unpack() {
    let v = Variable::new(NodeInfo::new(5, "speed", "Speed", "wheel speed"), Type { name: None, type_class: TypeClass::Uint16 });
    let w = v.pack();
    let inner = match w.node {
        Some(wire::NodeKind::Var(x)) => x,
        _ => panic!("expected a variable"),
    };
    assert_eq!(inner.id, 5);
    assert_eq!(inner.name, "speed");
    let back = Variable::unpack(&inner).unwrap();
    assert!(matches!(back.get_type().type_class, TypeClass::Uint16));
    let missing = wire::Variable { data_type: None, ..inner };
    assert!(matches!(Variable::unpack(&missing), Err(UnpackError::NullFieldError)));
}

#[test]
fn action_pack_keeps_both_types() {
    let a = Action::new(
        NodeInfo::new(9, "reset", "Reset", ""),
        Type { name: None, type_class: TypeClass::Bool },
        Type { name: None, type_class: TypeClass::Uint32 },
    );
    let inner = match a.pack().node {
        Some(wire::NodeKind::Action(x)) => x,
        _ => panic!("expected an action"),
    };
    assert_eq!(inner.arg_type.as_ref().unwrap().class, wire::Class::Bool);
    assert_eq!(inner.ret_type.as_ref().unwrap().class, wire::Class::Uint32);
    let back = Action::unpack(&inner).unwrap();
    assert!(matches!(back.ret_type().type_class, TypeClass::Uint32));
}

#[test]
fn group_keeps_last_of_same_name() {
    let a1 = Node::variable(2, "a", "A1", "", Type { name: None, type_class: TypeClass::Float });
    let b = Node::variable(3, "b", "B", "", Type { name: None, type_class: TypeClass::Uint8 });
    let a2 = Node::variable(4, "a", "A2", "", Type { name: None, type_class: TypeClass::Bool });
    let g = Group::new(NodeInfo::new(1, "foo", "Foo", ""), vec![a1, b, a2], "s".to_string(), 1);
    assert_eq!(g.children().len(), 2);
    let a = g.get_child("a").unwrap();
    assert_eq!(a.id(), 4);
    assert_eq!(a.info().unwrap().pretty, "A2");
    assert!(g.get_child("c").is_none());
    assert_eq!(g.schema(), "s");
    assert_eq!(g.version(), 1);
}

#[test]
fn node_tree_pack_unpack() {
    let child_a = Node::variable(2, "a", "A", "", Type { name: None, type_class: TypeClass::Float });
    let child_c = Node::variable(4, "c", "C", "", enum_type("Status", &["On", "Off"]));
    let inner = Node::group(5, "inner", "Inner", "", vec![Node::placeholder(9)], "", 2);
    let root = Node::group(1, "foo", "Foo", "", vec![child_a, child_c, inner], "", 1);
    assert_eq!(root.type_str(), "Group");
    let w = root.pack();
    let back = Node::unpack(&w).unwrap();
    match back {
        Node::Group(g) => {
            assert_eq!(g.children().len(), 3);
            let inner = g.get_child("inner").unwrap();
            match inner {
                Node::Group(ig) => {
                    assert_eq!(ig.children().len(), 1);
                    assert_eq!(ig.children()[0].type_str(), "Placeholder");
                    assert_eq!(ig.children()[0].id(), 9);
                }
                _ => panic!("expected a group"),
            }
            assert_eq!(g.get_child("c").unwrap().type_str(), "Variable");
        }
        _ => panic!("expected a group"),
    }
    assert!(matches!(Node::unpack(&wire::Node { node: None }), Err(UnpackError::NullNodeError)));
}

#[test]
fn group_unpack_skips_broken_children() {
    let broken = wire::Node { node: Some(wire::NodeKind::Var(wire::Variable {
        id: 3,
        name: "x".to_string(),
        pretty: String::new(),
        desc: String::new(),
        data_type: None,
    })) };
    let ok = wire::Node { node: Some(wire::NodeKind::Placeholder(7)) };
    let g = wire::Group {
        id: 1,
        name: "g".to_string(),
        pretty: String::new(),
        desc: String::new(),
        schema: String::new(),
        version: 0,
        children: vec![broken, ok],
    };
    let out = Group::unpack(&g);
    assert_eq!(out.children().len(), 1);
}
