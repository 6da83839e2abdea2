use telegraph::can::DataType;
use std::collections::HashMap;

use telegraph::schema::{
    build_can_tree, insert_nodes, CanIdConfig, CanValueConfig, Kind, SchemaError, Tree,
};

fn value(path: &str, ty: &str) -> CanValueConfig {
    CanValueConfig {
        access_string: path.to_string(),
        ty: ty.to_string(),
        unit: None,
        enum_values: None,
        name: path.to_string(),
        description: String::new(),
    }
}

fn path_of(tree: &Tree, mut id: u16) -> String {
    let mut parts = Vec::new();
    while id != 0 {
        let e = tree.get(id).unwrap();
        parts.push(e.info.name.clone());
        id = e.parent;
    }
    parts.reverse();
    parts.join(".")
}

#[test]
fn build_tree_shares_groups() {
    let ids = vec![
        CanIdConfig {
            id: 0x10,
            values: vec![value("sensors.wheel.speed", "uint16"), value("sensors.wheel.slip", "bool")],
        },
        CanIdConfig { id: 0x11, values: vec![value("sensors.temp", "int8")] },
    ];
    let (tree, map) = build_can_tree("can_tree".to_string(), &ids).unwrap();
    // root, sensors, wheel, speed, slip, temp
    assert_eq!(tree.len(), 6);
    let l10 = &map[&0x10];
    assert_eq!(l10.len(), 2);
    assert_eq!(l10[0].0, DataType::U16);
    assert_eq!(l10[1].0, DataType::Bool);
    assert_eq!(path_of(&tree, l10[0].1), "sensors.wheel.speed");
    assert_eq!(path_of(&tree, l10[1].1), "sensors.wheel.slip");
    let l11 = &map[&0x11];
    assert_eq!(path_of(&tree, l11[0].1), "sensors.temp");
    assert!(matches!(tree.get(l11[0].1).unwrap().kind, Kind::Variable(_)));
}

#[test]
fn build_tree_duplicate_path() {
    let ids = vec![CanIdConfig { id: 1, values: vec![value("a.b", "bool"), value("a.b", "bool")] }];
    assert!(matches!(build_can_tree("t".to_string(), &ids), Err(SchemaError::DuplicatePath)));
}

#[test]
fn build_tree_through_variable() {
    let ids = vec![CanIdConfig { id: 1, values: vec![value("a", "bool"), value("a.b", "bool")] }];
    assert!(matches!(build_can_tree("t".to_string(), &ids), Err(SchemaError::NotAGroup)));
}

#[test]
fn build_tree_variable_on_group() {
    let ids = vec![CanIdConfig { id: 1, values: vec![value("a.b", "bool"), value("a", "bool")] }];
    assert!(matches!(build_can_tree("t".to_string(), &ids), Err(SchemaError::DuplicatePath)));
}

#[test]
fn build_tree_unknown_type() {
    let ids = vec![CanIdConfig { id: 1, values: vec![value("a", "string")] }];
    assert!(matches!(build_can_tree("t".to_string(), &ids), Err(SchemaError::UnknownType)));
}

#[test]
fn build_tree_enum_labels_and_units() {
    let mut v = value("mode", "uint8");
    v.enum_values = Some("off.on.auto".to_string());
    v.unit = Some("rpm".to_string());
    let ids = vec![CanIdConfig { id: 3, values: vec![v] }];
    let (tree, map) = build_can_tree("t".to_string(), &ids).unwrap();
    let id = map[&3][0].1;
    match &tree.get(id).unwrap().kind {
        Kind::Variable(t) => {
            assert_eq!(t.enum_values, Some(vec!["off".to_string(), "on".to_string(), "auto".to_string()]));
            assert_eq!(t.units, Some("rpm".to_string()));
        }
        Kind::Group => panic!("expected a variable"),
    }
}

#[test]
fn build_tree_later_id_replaces_layout() {
    let ids = vec![
        CanIdConfig { id: 1, values: vec![value("a", "bool")] },
        CanIdConfig { id: 1, values: vec![value("b", "uint8"), value("c", "uint8")] },
    ];
    let (tree, map) = build_can_tree("t".to_string(), &ids).unwrap();
    assert_eq!(map.len(), 1);
    assert_eq!(map[&1].len(), 2);
    assert_eq!(path_of(&tree, map[&1][0].1), "b");
}

#[test]
fn insert_nodes_keeps_values_before_a_clash() {
    let mut tree = Tree::new("t".to_string());
    let mut map = HashMap::new();
    let ok = CanIdConfig { id: 1, values: vec![value("a.b", "bool")] };
    assert!(insert_nodes(&ok, &mut tree, &mut map).is_ok());
    let clash = CanIdConfig { id: 2, values: vec![value("c", "uint8"), value("a.b", "bool")] };
    assert!(matches!(insert_nodes(&clash, &mut tree, &mut map), Err(SchemaError::DuplicatePath)));
    // root, a, b, c
    assert_eq!(tree.len(), 4);
    assert!(!map.contains_key(&2));
    let unknown = CanIdConfig { id: 3, values: vec![value("d", "uint8"), value("e", "text")] };
    assert!(matches!(insert_nodes(&unknown, &mut tree, &mut map), Err(SchemaError::UnknownType)));
    assert_eq!(tree.len(), 4);
}

#[test]
fn build_tree_unknown_type_found_first() {
    let ids = vec![
        CanIdConfig { id: 1, values: vec![value("a", "bool"), value("a", "bool")] },
        CanIdConfig { id: 2, values: vec![value("b", "nope")] },
    ];
    assert!(matches!(build_can_tree("t".to_string(), &ids), Err(SchemaError::UnknownType)));
}
