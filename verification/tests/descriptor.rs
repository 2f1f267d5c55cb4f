use deferred_cache::cache::Cache;
use deferred_cache::descriptor::Descriptor;
use deferred_cache::promise::Promise;

fn text(value: &str) -> Descriptor {
    Descriptor::Text(value.to_string())
}

fn mesh(width: i64) -> Descriptor {
    Descriptor::named(
        "grid_mesh".to_string(),
        Descriptor::sequence(vec![
            Descriptor::named("n_vertices_width".to_string(), Descriptor::Integer(width)),
            Descriptor::named("n_vertices_height".to_string(), Descriptor::Integer(3)),
            Descriptor::named("scale".to_string(), Descriptor::Real(1.5f64.to_bits())),
            Descriptor::named("closed".to_string(), Descriptor::Boolean(true)),
            Descriptor::named("parent".to_string(), Descriptor::Nil),
        ]),
    )
}

#[test]
fn equal_trees_are_equal() {
    assert!(mesh(4).equals(&mesh(4)));
    assert!(text("a").equals(&Descriptor::Text(String::from("a"))));
    assert!(Descriptor::Nil.equals(&Descriptor::Nil));
    assert!(Descriptor::sequence(vec![]).equals(&Descriptor::Sequence(Vec::new())));
}

#[test]
fn different_trees_are_different() {
    assert!(!mesh(4).equals(&mesh(5)));
    assert!(!text("a").equals(&text("b")));
    assert!(!Descriptor::Integer(1).equals(&Descriptor::Real(1)));
    assert!(!Descriptor::Integer(1).equals(&Descriptor::Boolean(true)));
    assert!(!Descriptor::Nil.equals(&Descriptor::sequence(vec![])));
    assert!(!Descriptor::sequence(vec![text("a")]).equals(&Descriptor::sequence(vec![text("a"), text("a")])));
    assert!(!Descriptor::pair(text("a"), text("b")).equals(&Descriptor::pair(text("b"), text("a"))));
    assert!(!Descriptor::named("x".to_string(), text("a")).equals(&Descriptor::named("y".to_string(), text("a"))));
    assert!(!Descriptor::named("x".to_string(), text("a")).equals(&Descriptor::named("x".to_string(), text("b"))));
}

#[test]
fn clone_stands_for_the_same_tree() {
    let source = Descriptor::triple(mesh(7), text("shader"), Descriptor::sequence(vec![text("t")]));
    let copy = source.clone();
    assert!(copy.equals(&source));
    assert!(source.equals(&copy));
}

#[test]
fn pair_and_triple_are_sequences() {
    assert!(Descriptor::pair(text("a"), text("b")).equals(&Descriptor::sequence(vec![text("a"), text("b")])));
    assert!(Descriptor::triple(text("a"), text("b"), text("c"))
        .equals(&Descriptor::sequence(vec![text("a"), text("b"), text("c")])));
}

#[test]
fn object_fields_come_in_order() {
    let object = Descriptor::sequence(vec![
        Descriptor::named("diffuse".to_string(), text("wood.png")),
        Descriptor::named("normal".to_string(), text("bumps.png")),
    ]);
    let (names, values) = object.object_fields().unwrap();
    assert_eq!(names, vec!["diffuse".to_string(), "normal".to_string()]);
    assert_eq!(values.len(), 2);
    assert!(values[0].equals(&text("wood.png")));
    assert!(values[1].equals(&text("bumps.png")));
    let (no_names, no_values) = Descriptor::sequence(vec![]).object_fields().unwrap();
    assert!(no_names.is_empty() && no_values.is_empty());
}

#[test]
fn only_sequences_of_named_values_are_objects() {
    assert!(text("wood.png").object_fields().is_none());
    assert!(Descriptor::Nil.object_fields().is_none());
    assert!(Descriptor::named("a".to_string(), text("b")).object_fields().is_none());
    let mixed = Descriptor::sequence(vec![Descriptor::named("a".to_string(), text("b")), text("c")]);
    assert!(mixed.object_fields().is_none());
}

#[test]
fn object_of_makes_one_field() {
    let object = Descriptor::object_of("diffuse".to_string(), text("wood.png"));
    let (names, values) = object.object_fields().unwrap();
    assert_eq!(names, vec!["diffuse".to_string()]);
    assert!(values[0].equals(&text("wood.png")));
}

#[test]
fn cache_finds_equal_descriptors() {
    let mut cache = Cache::new();
    assert_eq!(cache.get(&mesh(4)), None);
    cache.insert(mesh(4), Promise { index: 11 });
    cache.insert(mesh(5), Promise { index: 12 });
    assert_eq!(cache.get(&mesh(4)), Some(Promise { index: 11 }));
    assert_eq!(cache.get(&mesh(5)), Some(Promise { index: 12 }));
    assert_eq!(cache.get(&mesh(6)), None);
    assert_eq!(cache.len(), 2);
}

#[test]
fn equal_descriptors_are_constructed_once() {
    let mut cache = Cache::new();
    let mut calls = 0;
    let first = cache.get_or_construct(&mesh(4), |_| {
        calls += 1;
        Promise { index: 1 }
    });
    let second = cache.get_or_construct(&mesh(4), |_| {
        calls += 1;
        Promise { index: 2 }
    });
    let third = cache.get_or_construct(&mesh(5), |_| {
        calls += 1;
        Promise { index: 3 }
    });
    assert_eq!(first, Promise { index: 1 });
    assert_eq!(second, first);
    assert_eq!(third, Promise { index: 3 });
    assert_eq!(calls, 2);
    assert_eq!(cache.len(), 2);
}

#[test]
fn construct_sees_the_requested_descriptor() {
    let mut cache = Cache::new();
    let promise = cache.get_or_construct(&Descriptor::Integer(9), |descriptor| match descriptor {
        Descriptor::Integer(value) => Promise { index: *value as usize },
        _ => Promise { index: 0 },
    });
    assert_eq!(promise, Promise { index: 9 });
}
