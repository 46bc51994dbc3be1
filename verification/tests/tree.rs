use gini_tree::builder::{build_tree, BuildError};
use gini_tree::node::{Node, PredictError};
use gini_tree::provider::find_provider;
use gini_tree::sample::TrainObject;
use std::collections::HashMap;

#[derive(Debug, Clone, Copy)]
struct Object {
    f1: i8,
    f2: i8,
    f3: i8,
}

type Provider = fn(&Object) -> i8;

fn read_f1(o: &Object) -> i8 {
    o.f1
}

fn read_f2(o: &Object) -> i8 {
    o.f2
}

fn read_f3(o: &Object) -> i8 {
    o.f3
}

fn named(names: &[&str]) -> Vec<(String, Provider)> {
    names
        .iter()
        .map(|name| {
            let provider = match *name {
                "f1" => read_f1 as Provider,
                "f2" => read_f2 as Provider,
                _ => read_f3 as Provider,
            };
            (name.to_string(), provider)
        })
        .collect()
}

fn providers() -> Vec<(String, Provider)> {
    named(&["f1", "f2", "f3"])
}

fn sample(f1: i8, f2: i8, f3: i8, class: i8) -> TrainObject<Object> {
    TrainObject { o: Object { f1, f2, f3 }, class }
}

fn fixture() -> Vec<TrainObject<Object>> {
    vec![
        sample(1, 3, 3, 2),
        sample(2, 3, 2, 1),
        sample(2, 2, 1, 1),
        sample(1, 2, 1, 2),
        sample(2, 1, 3, 2),
        sample(1, 1, 2, 2),
        sample(2, 3, 1, 1),
        sample(1, 2, 2, 2),
    ]
}

fn leaf(class: i8) -> Node {
    Node::Leaf { class }
}

fn calc(feature: &str, routes: Vec<(i8, Node)>) -> Node {
    let route_map: HashMap<i8, Node> = routes.into_iter().collect();
    Node::Calc { feature_name: feature.to_string(), route_map }
}

/// Walks the tree with the samples that reach each node and checks that the
/// keys of every decision are the distinct values of its feature there, and
/// that every leaf holds the one class of its samples.
fn check_routes(node: &Node, reached: &[TrainObject<Object>], providers: &[(String, Provider)]) {
    assert!(!reached.is_empty());
    match node {
        Node::Leaf { class } => {
            for s in reached {
                assert_eq!(s.class, *class);
            }
        }
        Node::Calc { feature_name, route_map } => {
            let provider = providers.iter().find(|p| &p.0 == feature_name).unwrap().1;
            let mut values: Vec<i8> = reached.iter().map(|s| provider(&s.o)).collect();
            values.sort();
            values.dedup();
            let mut keys: Vec<i8> = route_map.keys().copied().collect();
            keys.sort();
            assert_eq!(keys, values);
            for (value, child) in route_map {
                let part: Vec<TrainObject<Object>> = reached
                    .iter()
                    .filter(|s| provider(&s.o) == *value)
                    .map(|s| TrainObject { o: s.o, class: s.class })
                    .collect();
                check_routes(child, &part, providers);
            }
        }
    }
}

#[test]
fn fixture_is_learned_exactly() {
    let data = fixture();
    let providers = providers();
    let root = build_tree(&data, &providers).unwrap();
    for s in data.iter() {
        assert_eq!(root.get_class(&providers, &s.o), Ok(s.class));
    }
}

#[test]
fn fixture_tree_has_the_expected_shape() {
    let root = build_tree(&fixture(), &providers()).unwrap();
    let expected = calc(
        "f1",
        vec![(1, leaf(2)), (2, calc("f2", vec![(1, leaf(2)), (2, leaf(1)), (3, leaf(1))]))],
    );
    assert_eq!(root, expected);
}

#[test]
fn fixture_routes_are_the_values_that_reached_each_decision() {
    let data = fixture();
    let providers = providers();
    let root = build_tree(&data, &providers).unwrap();
    check_routes(&root, &data, &providers);
}

#[test]
fn a_new_object_is_classified() {
    let providers = providers();
    let root = build_tree(&fixture(), &providers).unwrap();
    let test_object = Object { f1: 2, f2: 1, f3: 3 };
    assert_eq!(root.get_class(&providers, &test_object), Ok(2));
    // With f1 = 1 the other features are not read.
    assert_eq!(root.get_class(&providers, &Object { f1: 1, f2: 9, f3: 9 }), Ok(2));
}

#[test]
fn among_equal_gains_the_first_provider_is_taken() {
    // Below f1 = 2 both f2 and f3 separate the classes.
    let providers = named(&["f1", "f3", "f2"]);
    let data = fixture();
    let root = build_tree(&data, &providers).unwrap();
    let expected = calc(
        "f1",
        vec![(1, leaf(2)), (2, calc("f3", vec![(1, leaf(1)), (2, leaf(1)), (3, leaf(2))]))],
    );
    assert_eq!(root, expected);
    for s in data.iter() {
        assert_eq!(root.get_class(&providers, &s.o), Ok(s.class));
    }
}

#[test]
fn the_greatest_gain_wins_wherever_its_provider_stands() {
    let expected_root = "f1";
    for order in [["f1", "f2", "f3"], ["f2", "f1", "f3"], ["f3", "f2", "f1"]] {
        let root = build_tree(&fixture(), &named(&order)).unwrap();
        match root {
            Node::Calc { feature_name, .. } => assert_eq!(feature_name, expected_root),
            Node::Leaf { .. } => panic!("the fixture has two classes"),
        }
    }
}

#[test]
fn growing_twice_gives_the_same_tree() {
    let data = fixture();
    let providers = providers();
    let first = build_tree(&data, &providers).unwrap();
    let second = build_tree(&data, &providers).unwrap();
    assert_eq!(first, second);
    for f1 in 0..4 {
        for f2 in 0..5 {
            for f3 in 0..5 {
                let x = Object { f1, f2, f3 };
                assert_eq!(first.get_class(&providers, &x), second.get_class(&providers, &x));
            }
        }
    }
}

#[test]
fn the_order_of_the_samples_does_not_matter() {
    let providers = providers();
    let expected = build_tree(&fixture(), &providers).unwrap();
    let mut turned = fixture();
    turned.reverse();
    assert_eq!(build_tree(&turned, &providers).unwrap(), expected);
    turned.swap(0, 3);
    turned.swap(2, 7);
    assert_eq!(build_tree(&turned, &providers).unwrap(), expected);
}

#[test]
fn one_class_gives_a_leaf() {
    let data = vec![sample(1, 2, 3, 7), sample(3, 2, 1, 7), sample(1, 1, 1, 7)];
    assert_eq!(build_tree(&data, &providers()), Ok(leaf(7)));
}

#[test]
fn one_class_gives_a_leaf_without_providers() {
    let data = vec![sample(1, 2, 3, 7), sample(3, 2, 1, 7)];
    let none: Vec<(String, Provider)> = Vec::new();
    let root = build_tree(&data, &none).unwrap();
    assert_eq!(root, leaf(7));
    assert_eq!(root.get_class(&none, &Object { f1: 0, f2: 0, f3: 0 }), Ok(7));
}

#[test]
fn one_sample_gives_a_leaf() {
    let data = vec![sample(1, 2, 3, -5)];
    assert_eq!(build_tree(&data, &providers()), Ok(leaf(-5)));
}

#[test]
fn three_classes_are_separated() {
    let data = vec![
        sample(1, 0, 0, 10),
        sample(2, 0, 0, 20),
        sample(3, 0, 0, 30),
        sample(3, 0, 0, 30),
    ];
    let providers = providers();
    let root = build_tree(&data, &providers).unwrap();
    assert_eq!(root, calc("f1", vec![(1, leaf(10)), (2, leaf(20)), (3, leaf(30))]));
    check_routes(&root, &data, &providers);
}

#[test]
fn values_at_the_ends_of_the_range() {
    let data = vec![sample(127, 0, 0, 1), sample(-128, 0, 0, 2), sample(0, 0, 0, 1)];
    let providers = providers();
    let root = build_tree(&data, &providers).unwrap();
    assert_eq!(root, calc("f1", vec![(-128, leaf(2)), (0, leaf(1)), (127, leaf(1))]));
    assert_eq!(root.get_class(&providers, &Object { f1: -128, f2: 5, f3: 5 }), Ok(2));
    assert_eq!(root.get_class(&providers, &Object { f1: 127, f2: 5, f3: 5 }), Ok(1));
}

#[test]
fn empty_input_is_an_error() {
    let data: Vec<TrainObject<Object>> = Vec::new();
    assert_eq!(build_tree(&data, &providers()), Err(BuildError::EmptyInput));
    let none: Vec<(String, Provider)> = Vec::new();
    assert_eq!(build_tree(&data, &none), Err(BuildError::EmptyInput));
}

#[test]
fn two_classes_without_providers_is_an_error() {
    let data = vec![sample(1, 1, 1, 1), sample(2, 2, 2, 2)];
    let none: Vec<(String, Provider)> = Vec::new();
    assert_eq!(build_tree(&data, &none), Err(BuildError::NoInformativeFeature));
}

#[test]
fn no_gain_is_an_error() {
    // Each feature alone leaves both halves as mixed as the whole.
    let data = vec![sample(1, 1, 0, 1), sample(1, 2, 0, 2), sample(2, 1, 0, 2), sample(2, 2, 0, 1)];
    assert_eq!(build_tree(&data, &providers()), Err(BuildError::NoInformativeFeature));
}

#[test]
fn same_features_with_two_classes_is_an_error() {
    let data = vec![sample(1, 1, 1, 1), sample(1, 1, 1, 2)];
    assert_eq!(build_tree(&data, &providers()), Err(BuildError::NoInformativeFeature));
}

#[test]
fn an_error_below_the_root_is_the_error_of_the_tree() {
    // f1 splits the samples, and the part with f1 = 1 cannot be split further.
    let data = vec![sample(1, 1, 1, 1), sample(1, 1, 1, 2), sample(2, 1, 1, 1), sample(2, 1, 1, 1)];
    assert_eq!(build_tree(&data, &providers()), Err(BuildError::NoInformativeFeature));
}

#[test]
fn unseen_value_is_an_error() {
    let providers = providers();
    let root = build_tree(&fixture(), &providers).unwrap();
    let stranger = Object { f1: 3, f2: 1, f3: 1 };
    assert_eq!(root.get_class(&providers, &stranger), Err(PredictError::UnseenCategory));
}

#[test]
fn unseen_value_below_the_root_is_an_error() {
    let providers = providers();
    let root = build_tree(&fixture(), &providers).unwrap();
    let stranger = Object { f1: 2, f2: 4, f3: 1 };
    assert_eq!(root.get_class(&providers, &stranger), Err(PredictError::UnseenCategory));
}

#[test]
fn missing_provider_is_an_error() {
    let root = build_tree(&fixture(), &providers()).unwrap();
    let fewer = named(&["f2", "f3"]);
    let x = Object { f1: 2, f2: 1, f3: 3 };
    assert_eq!(root.get_class(&fewer, &x), Err(PredictError::MissingProvider));
    let none: Vec<(String, Provider)> = Vec::new();
    assert_eq!(root.get_class(&none, &x), Err(PredictError::MissingProvider));
}

#[test]
fn missing_provider_below_the_root_is_an_error() {
    let root = build_tree(&fixture(), &providers()).unwrap();
    let fewer = named(&["f1", "f3"]);
    assert_eq!(
        root.get_class(&fewer, &Object { f1: 2, f2: 1, f3: 3 }),
        Err(PredictError::MissingProvider)
    );
    // The leaf below f1 = 1 is reached without reading f2.
    assert_eq!(root.get_class(&fewer, &Object { f1: 1, f2: 1, f3: 3 }), Ok(2));
}

#[test]
fn a_name_stands_for_its_first_provider() {
    let twice: Vec<(String, Provider)> =
        vec![("f".to_string(), read_f1 as Provider), ("f".to_string(), read_f2 as Provider)];
    // Only f2 tells the classes apart, and the name stands for f1.
    let data = vec![sample(1, 1, 0, 1), sample(1, 2, 0, 2)];
    assert_eq!(build_tree(&data, &twice), Err(BuildError::NoInformativeFeature));
    let data = vec![sample(1, 5, 0, 1), sample(2, 5, 0, 2)];
    let root = build_tree(&data, &twice).unwrap();
    assert_eq!(root, calc("f", vec![(1, leaf(1)), (2, leaf(2))]));
    assert_eq!(root.get_class(&twice, &Object { f1: 2, f2: 1, f3: 0 }), Ok(2));
}

#[test]
fn a_tree_made_by_hand_is_walked() {
    let tree = calc("f2", vec![(1, leaf(10)), (3, calc("f1", vec![(0, leaf(30))]))]);
    let providers = providers();
    assert_eq!(tree.get_class(&providers, &Object { f1: 0, f2: 1, f3: 0 }), Ok(10));
    assert_eq!(tree.get_class(&providers, &Object { f1: 0, f2: 3, f3: 0 }), Ok(30));
    assert_eq!(
        tree.get_class(&providers, &Object { f1: 1, f2: 3, f3: 0 }),
        Err(PredictError::UnseenCategory)
    );
    assert_eq!(
        tree.get_class(&providers, &Object { f1: 0, f2: 2, f3: 0 }),
        Err(PredictError::UnseenCategory)
    );
    let no_routes = calc("f1", Vec::new());
    assert_eq!(
        no_routes.get_class(&providers, &Object { f1: 0, f2: 0, f3: 0 }),
        Err(PredictError::UnseenCategory)
    );
    let unknown = calc("f9", vec![(0, leaf(1))]);
    assert_eq!(
        unknown.get_class(&providers, &Object { f1: 0, f2: 0, f3: 0 }),
        Err(PredictError::MissingProvider)
    );
}

#[test]
fn providers_are_found_by_name() {
    let providers = named(&["f1", "f2", "f1", "f3"]);
    assert_eq!(find_provider(&providers, &"f1".to_string()), Some(0));
    assert_eq!(find_provider(&providers, &"f2".to_string()), Some(1));
    assert_eq!(find_provider(&providers, &"f3".to_string()), Some(3));
    assert_eq!(find_provider(&providers, &"f4".to_string()), None);
    assert_eq!(find_provider(&providers, &"".to_string()), None);
}

#[test]
fn many_samples_are_learned() {
    // With f1 = 0 the class is f2, else it is 10 + f1; f3 tells nothing.
    let mut data = Vec::new();
    for f3 in 0..4i8 {
        for f2 in 0..3i8 {
            for f1 in 0..3i8 {
                let class = if f1 == 0 { f2 } else { 10 + f1 };
                data.push(sample(f1, f2, f3, class));
            }
        }
    }
    let providers = named(&["f3", "f1", "f2"]);
    let root = build_tree(&data, &providers).unwrap();
    let expected = calc(
        "f1",
        vec![
            (0, calc("f2", vec![(0, leaf(0)), (1, leaf(1)), (2, leaf(2))])),
            (1, leaf(11)),
            (2, leaf(12)),
        ],
    );
    assert_eq!(root, expected);
    check_routes(&root, &data, &providers);
    for s in data.iter() {
        assert_eq!(root.get_class(&providers, &s.o), Ok(s.class));
    }
}
