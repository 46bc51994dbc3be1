use gini_tree::impurity::{
    count_class, distinct_values, impurity_of, labels_of, main_impurity, values_of,
};
use gini_tree::sample::{calculate_gini_for_feature, calculate_main_gini, TrainObject};
use gini_tree::score::Score;

struct Object {
    f1: i8,
    f2: i8,
    f3: i8,
}

type Provider = fn(&Object) -> i8;

fn read_f1(o: &Object) -> i8 {
    o.f1
}

fn read_f2(o: &Object) -> i8 {
    o.f2
}

fn read_f3(o: &Object) -> i8 {
    o.f3
}

fn sample(f1: i8, f2: i8, f3: i8, class: i8) -> TrainObject<Object> {
    TrainObject { o: Object { f1, f2, f3 }, class }
}

fn fixture() -> Vec<TrainObject<Object>> {
    vec![
        sample(1, 3, 3, 2),
        sample(2, 3, 2, 1),
        sample(2, 2, 1, 1),
        sample(1, 2, 1, 2),
        sample(2, 1, 3, 2),
        sample(1, 1, 2, 2),
        sample(2, 3, 1, 1),
        sample(1, 2, 2, 2),
    ]
}

fn parts(s: &Score) -> (Option<u64>, Option<u64>) {
    (s.numerator().to_u64(), s.denominator().to_u64())
}

#[test]
fn distinct_values_are_sorted_and_unique() {
    assert_eq!(distinct_values(&vec![3, 1, 3, 2, 1, 1]), vec![1, 2, 3]);
    assert_eq!(distinct_values(&vec![5]), vec![5]);
    assert_eq!(distinct_values(&Vec::new()), Vec::<i8>::new());
}

#[test]
fn distinct_values_at_the_ends_of_the_range() {
    assert_eq!(distinct_values(&vec![127, -128, 0, -1, 127, -128]), vec![-128, -1, 0, 127]);
}

#[test]
fn distinct_values_of_the_whole_range() {
    let mut all: Vec<i8> = Vec::new();
    for v in (-128i16..128).rev() {
        all.push(v as i8);
        all.push(v as i8);
    }
    let expected: Vec<i8> = (-128i16..128).map(|v| v as i8).collect();
    assert_eq!(distinct_values(&all), expected);
}

#[test]
fn classes_are_counted() {
    let labels = vec![2, 1, 1, 2, 2, 2, 1, 2];
    assert_eq!(count_class(&labels, 1), 3);
    assert_eq!(count_class(&labels, 2), 5);
    assert_eq!(count_class(&labels, 3), 0);
    assert_eq!(count_class(&Vec::new(), 1), 0);
}

#[test]
fn observations_split_into_values_and_labels() {
    let obs = vec![(1, 2), (2, 1), (2, 1)];
    assert_eq!(values_of(&obs), vec![1, 2, 2]);
    assert_eq!(labels_of(&obs), vec![2, 1, 1]);
}

#[test]
fn main_impurity_is_the_product_of_the_class_fractions() {
    // 3 of 8 in class 1, 5 of 8 in class 2: (3 / 8) * (5 / 8)
    let labels = vec![2, 1, 1, 2, 2, 2, 1, 2];
    let score = main_impurity(&labels, &vec![1, 2]);
    assert_eq!(parts(&score), (Some(15), Some(64)));
    let data = fixture();
    let same = calculate_main_gini(&data, &vec![1, 2]);
    assert_eq!(parts(&same), (Some(15), Some(64)));
}

#[test]
fn main_impurity_of_one_class_is_one() {
    let score = main_impurity(&vec![4, 4, 4], &vec![4]);
    assert_eq!(parts(&score), (Some(3), Some(3)));
    assert!(score.same(&Score::one()));
}

#[test]
fn main_impurity_without_classes_is_one() {
    let score = main_impurity(&vec![4, 4, 4], &Vec::new());
    assert_eq!(parts(&score), (Some(1), Some(1)));
}

#[test]
fn impurity_of_the_first_feature() {
    // value 1: 4 of 8, classes 0/4 and 4/4; value 2: 4 of 8, classes 3/4 and 1/4
    let data = fixture();
    let score = calculate_gini_for_feature(&(read_f1 as Provider), &data, &vec![1, 2]);
    assert_eq!(parts(&score), (Some(1536), Some(16384)));
    assert!(score.same(&Score::from_counts(3, 32)));
}

#[test]
fn impurity_of_the_second_feature() {
    // value 1: 2 of 8, pure; values 2 and 3: 3 of 8 each, classes 1/3 and 2/3
    let data = fixture();
    let score = calculate_gini_for_feature(&(read_f2 as Provider), &data, &vec![1, 2]);
    assert_eq!(parts(&score), (Some(27648), Some(165888)));
    assert!(score.same(&Score::from_counts(1, 6)));
}

#[test]
fn impurity_of_the_third_feature() {
    let data = fixture();
    let score = calculate_gini_for_feature(&(read_f3 as Provider), &data, &vec![1, 2]);
    assert!(score.same(&Score::from_counts(1, 6)));
}

#[test]
fn impurity_from_observations() {
    let obs = vec![(1, 2), (2, 1), (2, 1), (1, 2), (2, 2), (1, 2), (2, 1), (1, 2)];
    let score = impurity_of(&obs, &vec![1, 2]);
    assert_eq!(parts(&score), (Some(1536), Some(16384)));
}

#[test]
fn impurity_of_a_feature_with_one_value_is_the_main_impurity() {
    let obs = vec![(7, 2), (7, 1), (7, 1), (7, 2), (7, 2), (7, 2), (7, 1), (7, 2)];
    let score = impurity_of(&obs, &vec![1, 2]);
    assert!(score.same(&Score::from_counts(15, 64)));
    assert!(!score.lt(&main_impurity(&labels_of(&obs), &vec![1, 2])));
}

#[test]
fn impurity_of_a_feature_that_separates_the_classes_is_zero() {
    let obs = vec![(1, 10), (2, 20), (3, 30), (1, 10)];
    let score = impurity_of(&obs, &vec![10, 20, 30]);
    assert!(score.same(&Score::zero()));
}

#[test]
fn impurity_without_observations_is_zero() {
    let score = impurity_of(&Vec::new(), &vec![1, 2]);
    assert_eq!(parts(&score), (Some(0), Some(1)));
}

#[test]
fn impurity_without_classes_is_one() {
    // Each value adds its share of the observations.
    let obs = vec![(1, 2), (2, 1), (2, 1)];
    let score = impurity_of(&obs, &Vec::new());
    assert_eq!(parts(&score), (Some(9), Some(9)));
}

#[test]
fn impurity_with_a_negative_value() {
    // value -128: 1 of 3, pure; value 127: 2 of 3, classes 1/2 and 1/2
    let obs = vec![(127, 1), (-128, 1), (127, 2)];
    let score = impurity_of(&obs, &vec![1, 2]);
    assert!(score.same(&Score::from_counts(1, 6)));
}

#[test]
fn impurity_does_not_depend_on_the_order_of_the_samples() {
    let data = fixture();
    let mut turned = fixture();
    turned.reverse();
    turned.swap(1, 5);
    let classes = vec![1, 2];
    for provider in [read_f1 as Provider, read_f2 as Provider, read_f3 as Provider] {
        let a = calculate_gini_for_feature(&provider, &data, &classes);
        let b = calculate_gini_for_feature(&provider, &turned, &classes);
        assert_eq!(parts(&a), parts(&b));
        assert!(a.same(&b));
    }
}
