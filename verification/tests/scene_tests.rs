use tscn::element::ElementType;
use tscn::scene::{NodePath, NodePathError, Scene, SceneError};
use tscn::tokenizer::TokenizerError;

#[test]
fn end_to_end_example() {
    let scene = Scene::from_tscn_file("[node name=\"Root\" parent=\".\"]\nvisible = true\n\n")
        .unwrap();
    assert_eq!(scene.elements.len(), 1);
    let e = &scene.elements[0];
    assert_eq!(e.element_type, ElementType::Node);
    assert_eq!(e.get_data_value("name"), Ok(String::from("\"Root\"")));
    assert_eq!(e.get_data_value("parent"), Ok(String::from("\".\"")));
    assert_eq!(e.properties.len(), 1);
    assert_eq!(e.properties[0].0, "visible");
    assert_eq!(e.properties[0].1, "true");
    let r = scene.get_node_property(NodePath::from("Root"), "visible");
    assert_eq!(r, Ok(String::from("true")));
}

#[test]
fn classification_by_element_name() {
    let scene = Scene::from_tscn_file(
        "[gd_scene ]\n[ext_resource ]\n[sub_resource ]\n[node ]\n[connection ]\n[custom ]\n",
    )
    .unwrap();
    let kinds: Vec<ElementType> = scene.elements.iter().map(|e| e.element_type).collect();
    assert_eq!(
        kinds,
        vec![
            ElementType::SceneData,
            ElementType::Resource,
            ElementType::Resource,
            ElementType::Node,
            ElementType::SceneData,
            ElementType::Unknown,
        ]
    );
}

#[test]
fn filter_elements_keeps_document_order() {
    let scene = Scene::from_tscn_file("[node name=\"A\" ]\n[gd_scene ]\n[node name=\"B\" ]\n")
        .unwrap();
    let nodes = Scene::filter_elements(&scene.elements, ElementType::Node);
    assert_eq!(nodes.len(), 2);
    assert_eq!(nodes[0].get_data_value("name"), Ok(String::from("\"A\"")));
    assert_eq!(nodes[1].get_data_value("name"), Ok(String::from("\"B\"")));
}

#[test]
fn add_elements_appends_in_order() {
    let mut scene = Scene::from_tscn_file("[node name=\"A\" ]\n").unwrap();
    let extra = Scene::from_tscn_file("[node name=\"B\" ]\n").unwrap();
    scene.add_elements(extra.elements);
    assert_eq!(scene.elements.len(), 2);
    assert_eq!(scene.elements[1].get_data_value("name"), Ok(String::from("\"B\"")));
}

#[test]
fn to_tscn_is_canonical_and_byte_exact_for_canonical_input() {
    let doc = "[gd_scene load_steps=4 format=2 ]\n[node name=\"Root\" parent=\".\" ]\nvisible = true\n\n";
    let scene = Scene::from_tscn_file(doc).unwrap();
    assert_eq!(scene.to_tscn(), doc);
}

#[test]
fn mutating_one_element_leaves_the_siblings_alone() {
    let doc = "[node name=\"A\" parent=\".\" ]\n[node name=\"B\" parent=\".\" ]\n";
    let reference = Scene::from_tscn_file(doc).unwrap();
    let mut scene = Scene::from_tscn_file(doc).unwrap();
    assert_eq!(scene.elements[0].update_data("name", "\"C\""), Ok(()));
    assert_eq!(
        format!("{:?}", scene.elements[1]),
        format!("{:?}", reference.elements[1])
    );
    assert_eq!(
        scene.to_tscn(),
        "[node name=\"C\" parent=\".\" ]\n[node name=\"B\" parent=\".\" ]\n"
    );
}

#[test]
fn resolves_a_nested_node_path() {
    let doc = "[node name=\"CollisionShape2D\" parent=\"Tree/StaticBody2D\" ]\ndisabled = false\n\n";
    let scene = Scene::from_tscn_file(doc).unwrap();
    let r = scene.get_node_property(
        NodePath::from("Tree/StaticBody2D/CollisionShape2D"),
        "disabled",
    );
    assert_eq!(r, Ok(String::from("false")));
}

#[test]
fn missing_node_is_node_not_found() {
    let scene = Scene::from_tscn_file("[node name=\"A\" parent=\".\" ]\n").unwrap();
    let r = scene.get_node_property(NodePath::from("B"), "visible");
    assert_eq!(r, Err(NodePathError::NodeNotFound));
}

#[test]
fn missing_property_is_property_not_found() {
    let scene = Scene::from_tscn_file("[node name=\"A\" parent=\".\" ]\nvisible = true\n\n")
        .unwrap();
    let r = scene.get_node_property(NodePath::from("A"), "hidden");
    assert_eq!(r, Err(NodePathError::PropertyNotFound));
}

#[test]
fn path_with_dot_is_invalid_and_never_resolves() {
    let p = NodePath::from("a/b.c");
    assert!(!p.is_valid());
    let scene = Scene::from_tscn_file("[node name=\"b\" parent=\"a\" ]\nx = 1\n\n").unwrap();
    let r = scene.get_node_property(p, "x");
    assert_eq!(r, Err(NodePathError::NodeNotFound));
}

#[test]
fn empty_path_is_invalid() {
    assert!(!NodePath::from("").is_valid());
    assert!(NodePath::from("A").is_valid());
    assert!(NodePath::from("A/B").is_valid());
    assert!(NodePath::from("A\\B").is_valid());
}

#[test]
fn malformed_document_yields_no_scene() {
    let r = Scene::from_tscn_file("[node ]\nbroken ");
    assert!(matches!(
        r,
        Err(SceneError::TokenizerError(TokenizerError::EarlyEOF))
    ));
}

#[test]
fn tokenize() {
    let scene = Scene::from_tscn_file(
        "[node name=\"X\" ]\n[node name=\"CollisionShape2D\" parent=\"Tree/StaticBody2D\" ]\ntest = 1\n\n",
    );
    if let Ok(mut sc) = scene {
        println!("Tokens\n{:#?}", sc.elements[0].tokens);
        assert_eq!(sc.elements[0].update_data_by_index(0, "\"Test\""), Ok(()));
        println!("Updated Tokens\n{:#?}", sc.elements[0].tokens);
        let r = sc.get_node_property(
            NodePath::from("Tree/StaticBody2D/CollisionShape2D"),
            "test",
        );
        println!("{:#?}", r);
        assert_eq!(r, Ok(String::from("1")));
    } else {
        panic!("the document should parse");
    }
}
