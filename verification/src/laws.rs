//! What holds of every tree that is grown and of every impurity score.
use crate::builder::{
    best_feature, build_routes, build_spec, fits, gain, grown, is_best, lemma_best_unique,
    lemma_positive_gain_splits, splits, BuildError,
};
use crate::impurity::{
    distinct, distinct_below, feature_gini, fractions_product, has_value, is_class, labels,
    lemma_distinct, main_gini, terms_sum, values,
};
use crate::node::{Node, PredictError, Tree};
use crate::provider::{first_index, lemma_first_index_exists, Features};
use crate::sample::{class_labels, classes_of, observations, reads_value, TrainObject};
use crate::score::Ratio;
use vstd::multiset::Multiset;
use vstd::prelude::*;

verus! {

/// The elements that a filter keeps are the elements of the sequence that
/// satisfy the predicate, each as often as it occurs.
pub proof fn lemma_filter_multiset<A>(s: Seq<A>, pred: spec_fn(A) -> bool)
    ensures
        s.filter(pred).to_multiset() == s.to_multiset().filter(pred),
    decreases s.len(),
{
    broadcast use vstd::multiset::group_multiset_axioms;

    reveal(Seq::filter);
    if s.len() == 0 {
        s.to_multiset_ensures();
    } else {
        let rest = s.drop_last();
        let x = s.last();
        lemma_filter_multiset(rest, pred);
        assert(rest.push(x) =~= s);
        rest.to_multiset_ensures();
        rest.filter(pred).to_multiset_ensures();
    }
}

/// Sequences with the same elements, in any order, have as many elements
/// that satisfy a predicate.
pub proof fn lemma_filter_permutation<A>(s1: Seq<A>, s2: Seq<A>, pred: spec_fn(A) -> bool)
    requires
        s1.to_multiset() == s2.to_multiset(),
    ensures
        s1.filter(pred).to_multiset() == s2.filter(pred).to_multiset(),
        s1.filter(pred).len() == s2.filter(pred).len(),
        s1.len() == s2.len(),
{
    lemma_filter_multiset(s1, pred);
    lemma_filter_multiset(s2, pred);
    s1.filter(pred).to_multiset_ensures();
    s2.filter(pred).to_multiset_ensures();
    s1.to_multiset_ensures();
    s2.to_multiset_ensures();
}

/// Mapping sequences with the same elements gives sequences with the same
/// elements.
pub proof fn lemma_map_permutation<A, B>(s1: Seq<A>, s2: Seq<A>, g: spec_fn(A) -> B)
    requires
        s1.to_multiset() == s2.to_multiset(),
    ensures
        s1.map_values(g).to_multiset() == s2.map_values(g).to_multiset(),
    decreases s1.len(),
{
    broadcast use vstd::multiset::group_multiset_axioms;

    s1.to_multiset_ensures();
    s2.to_multiset_ensures();
    if s1.len() == 0 {
        assert(s1.map_values(g) =~= s2.map_values(g));
    } else {
        let a = s1.last();
        assert(s1.contains(a));
        assert(s2.to_multiset().count(a) > 0);
        let i = choose|i: int| 0 <= i < s2.len() && s2[i] == a;
        let r1 = s1.drop_last();
        let r2 = s2.remove(i);
        assert(r1 =~= s1.remove(s1.len() - 1));
        lemma_map_permutation(r1, r2, g);
        let m1 = s1.map_values(g);
        let m2 = s2.map_values(g);
        assert(r1.map_values(g) =~= m1.remove(m1.len() - 1));
        assert(r2.map_values(g) =~= m2.remove(i));
        m1.to_multiset_ensures();
        m2.to_multiset_ensures();
        assert(m1.to_multiset() =~= m1.remove(m1.len() - 1).to_multiset().insert(g(a)));
    }
}

proof fn lemma_distinct_below_same(s1: Seq<i8>, s2: Seq<i8>, bound: int)
    requires
        forall|v: i8| s1.contains(v) <==> s2.contains(v),
    ensures
        distinct_below(s1, bound) == distinct_below(s2, bound),
    decreases bound + 128,
{
    if bound > -128 {
        lemma_distinct_below_same(s1, s2, bound - 1);
    }
}

proof fn lemma_fractions_product_permutation(
    start: Ratio,
    labels1: Seq<i8>,
    labels2: Seq<i8>,
    classes: Seq<i8>,
)
    requires
        labels1.to_multiset() == labels2.to_multiset(),
    ensures
        fractions_product(start, labels1, classes) == fractions_product(start, labels2, classes),
    decreases classes.len(),
{
    if classes.len() > 0 {
        lemma_fractions_product_permutation(start, labels1, labels2, classes.drop_last());
        lemma_filter_permutation(labels1, labels2, is_class(classes.last()));
    }
}

proof fn lemma_terms_sum_permutation(
    obs1: Seq<(i8, i8)>,
    obs2: Seq<(i8, i8)>,
    classes: Seq<i8>,
    vs: Seq<i8>,
)
    requires
        obs1.to_multiset() == obs2.to_multiset(),
    ensures
        terms_sum(obs1, classes, vs) == terms_sum(obs2, classes, vs),
    decreases vs.len(),
{
    if vs.len() > 0 {
        lemma_terms_sum_permutation(obs1, obs2, classes, vs.drop_last());
        let v = vs.last();
        lemma_filter_permutation(obs1, obs2, has_value(v));
        lemma_map_permutation(
            obs1.filter(has_value(v)),
            obs2.filter(has_value(v)),
            |p: (i8, i8)| p.1,
        );
        lemma_fractions_product_permutation(
            Ratio::of(obs1.filter(has_value(v)).len(), obs1.len()),
            labels(obs1.filter(has_value(v))),
            labels(obs2.filter(has_value(v))),
            classes,
        );
    }
}

/// The impurity of a feature does not depend on the order of the
/// observations.
pub proof fn lemma_feature_gini_permutation(
    obs1: Seq<(i8, i8)>,
    obs2: Seq<(i8, i8)>,
    classes: Seq<i8>,
)
    requires
        obs1.to_multiset() == obs2.to_multiset(),
    ensures
        feature_gini(obs1, classes) == feature_gini(obs2, classes),
{
    lemma_map_permutation(obs1, obs2, |p: (i8, i8)| p.0);
    assert forall|v: i8| values(obs1).contains(v) <==> values(obs2).contains(v) by {
        vstd::seq_lib::to_multiset_contains(values(obs1), v);
        vstd::seq_lib::to_multiset_contains(values(obs2), v);
    }
    lemma_distinct_below_same(values(obs1), values(obs2), 128);
    lemma_terms_sum_permutation(obs1, obs2, classes, distinct(values(obs1)));
}

/// The impurity score of a feature is the same for samples that are given in
/// another order.
pub proof fn lemma_impurity_ignores_order<T>(
    samples1: Seq<TrainObject<T>>,
    samples2: Seq<TrainObject<T>>,
    f: spec_fn(T) -> i8,
    classes: Seq<i8>,
)
    requires
        samples1.to_multiset() == samples2.to_multiset(),
    ensures
        feature_gini(observations(samples1, f), classes) == feature_gini(
            observations(samples2, f),
            classes,
        ),
{
    lemma_map_permutation(samples1, samples2, |s: TrainObject<T>| (f(s.o), s.class));
    lemma_feature_gini_permutation(observations(samples1, f), observations(samples2, f), classes);
}

/// The impurity before a split is the same for samples that are given in
/// another order.
pub proof fn lemma_main_impurity_ignores_order<T>(
    samples1: Seq<TrainObject<T>>,
    samples2: Seq<TrainObject<T>>,
    classes: Seq<i8>,
)
    requires
        samples1.to_multiset() == samples2.to_multiset(),
    ensures
        main_gini(class_labels(samples1), classes) == main_gini(class_labels(samples2), classes),
{
    lemma_map_permutation(samples1, samples2, |s: TrainObject<T>| s.class);
    lemma_fractions_product_permutation(
        Ratio::one(),
        class_labels(samples1),
        class_labels(samples2),
        classes,
    );
}

/// A sequence that repeats one value has that value as its only distinct
/// one.
pub proof fn lemma_distinct_of_constant(s: Seq<i8>, v: i8)
    requires
        s.len() > 0,
        forall|i: int| 0 <= i < s.len() ==> s[i] == v,
    ensures
        distinct(s) == seq![v],
{
    let d = distinct(s);
    lemma_distinct(s);
    assert(s[0] == v);
    assert(d.contains(v));
    assert forall|k: int| 0 <= k < d.len() implies d[k] == v by {
        assert(d.contains(d[k]));
    }
    if d.len() > 1 {
        assert(d[0] < d[1]);
    }
}

/// Samples that all have the class `class` give the leaf of that class,
/// whatever the features are.
pub proof fn lemma_one_class_gives_leaf<T>(
    samples: Seq<TrainObject<T>>,
    features: Features<T>,
    class: i8,
)
    requires
        samples.len() > 0,
        forall|i: int| 0 <= i < samples.len() ==> samples[i].class == class,
    ensures
        build_spec(samples, features) == Ok::<Tree, BuildError>(Tree::Leaf { class }),
{
    lemma_distinct_of_constant(class_labels(samples), class);
}

/// The routes that are built are one for each of the values, each to the
/// tree grown from the samples with that value.
pub proof fn lemma_routes_follow_values<T>(
    samples: Seq<TrainObject<T>>,
    features: Features<T>,
    j: int,
    vs: Seq<i8>,
)
    requires
        splits(samples, features.provider_at(j)),
        build_routes(samples, features, j, vs) is Ok,
    ensures
        build_routes(samples, features, j, vs).unwrap().dom() == vs.to_set(),
        forall|v: i8| #[trigger]
            vs.contains(v) ==> build_spec(
                samples.filter(reads_value(features.provider_at(j), v)),
                features,
            ) == Ok::<Tree, BuildError>(build_routes(samples, features, j, vs).unwrap()[v]),
    decreases vs.len(),
{
    let f = features.provider_at(j);
    let routes = build_routes(samples, features, j, vs).unwrap();
    if vs.len() > 0 {
        lemma_routes_follow_values(samples, features, j, vs.drop_last());
        let last = vs.last();
        assert(vs.drop_last().push(last) =~= vs);
        vs.drop_last().lemma_push_to_set_commute(last);
        assert forall|v: i8| #[trigger] vs.contains(v) implies build_spec(
            samples.filter(reads_value(f, v)),
            features,
        ) == Ok::<Tree, BuildError>(routes[v]) by {
            if v != last {
                assert(vs.to_set().contains(v));
            }
        }
    }
}

/// A decision that is grown names the feature with the best gain, and the
/// keys of its routes are exactly the values that this feature takes on the
/// samples that reached the decision. Each route leads to the tree grown
/// from the samples with the route's value, so the same holds of every
/// decision below.
pub proof fn lemma_decision_routes<T>(samples: Seq<TrainObject<T>>, features: Features<T>)
    requires
        build_spec(samples, features) is Ok,
        build_spec(samples, features).unwrap() is Calc,
    ensures
        best_feature(samples, features) is Some,
        ({
            let j = best_feature(samples, features).unwrap();
            let f = features.provider_at(j);
            let tree = build_spec(samples, features).unwrap();
            &&& 0 <= j < features.names.len()
            &&& tree->feature == features.names[j]
            &&& tree->routes.dom() == values(observations(samples, f)).to_set()
            &&& forall|v: i8| #[trigger]
                tree->routes.dom().contains(v) ==> build_spec(
                    samples.filter(reads_value(f, v)),
                    features,
                ) == Ok::<Tree, BuildError>(tree->routes[v])
        }),
{
    let j = best_feature(samples, features).unwrap();
    let f = features.provider_at(j);
    let vals = values(observations(samples, f));
    let vs = distinct(vals);
    lemma_positive_gain_splits(samples, features, j);
    lemma_routes_follow_values(samples, features, j, vs);
    lemma_distinct(vals);
    assert(vs.to_set() =~= vals.to_set());
}

/// A tree that is grown is a tree for the samples it was grown from: at every
/// decision in it, the keys of the routes are exactly the values of the
/// decision's feature on the samples that reached the decision, and every
/// leaf holds the one class of the samples that reached it.
pub proof fn lemma_grown_tree_fits<T>(samples: Seq<TrainObject<T>>, features: Features<T>)
    requires
        build_spec(samples, features) is Ok,
    ensures
        fits(build_spec(samples, features).unwrap(), samples, features),
    decreases samples.len(),
{
    let tree = build_spec(samples, features).unwrap();
    if classes_of(samples).len() == 1 {
        lemma_distinct(class_labels(samples));
        assert forall|i: int| 0 <= i < samples.len() implies (#[trigger] samples[i]).class
            == classes_of(samples)[0] by {
            assert(class_labels(samples)[i] == samples[i].class);
            assert(classes_of(samples).contains(samples[i].class));
        }
    } else {
        lemma_decision_routes(samples, features);
        let j = best_feature(samples, features).unwrap();
        let f = features.provider_at(j);
        let routes = tree->routes;
        lemma_positive_gain_splits(samples, features, j);
        lemma_first_index_exists(features.names, features.names[j], j);
        assert forall|v: i8| #[trigger] routes.dom().contains(v) implies fits(
            routes[v],
            samples.filter(reads_value(f, v)),
            features,
        ) by {
            lemma_grown_tree_fits(samples.filter(reads_value(f, v)), features);
        }
    }
}

/// A tree for the samples gives every one of them its own class.
pub proof fn lemma_fitting_tree_classifies<T>(
    tree: Tree,
    samples: Seq<TrainObject<T>>,
    features: Features<T>,
    i: int,
)
    requires
        fits(tree, samples, features),
        0 <= i < samples.len(),
    ensures
        tree.class_of(features, samples[i].o) == Ok::<i8, PredictError>(samples[i].class),
    decreases tree,
{
    match tree {
        Tree::Leaf { class } => {},
        Tree::Calc { feature, routes } => {
            let j = first_index(features.names, feature).unwrap();
            let f = features.extract[j];
            let obs = observations(samples, f);
            let v = f(samples[i].o);
            assert(values(obs)[i] == v);
            let part = samples.filter(reads_value(f, v));
            samples.lemma_filter_contains(reads_value(f, v), i);
            let at = choose|at: int| 0 <= at < part.len() && part[at] == samples[i];
            lemma_fitting_tree_classifies(routes[v], part, features, at);
        },
    }
}

/// A tree for some samples never lacks a provider, whatever feature vector
/// it is asked about: every feature that it names is one of `features`.
pub proof fn lemma_fitting_tree_has_its_providers<T>(
    tree: Tree,
    samples: Seq<TrainObject<T>>,
    features: Features<T>,
    x: T,
)
    requires
        fits(tree, samples, features),
    ensures
        tree.class_of(features, x) != Err::<i8, PredictError>(PredictError::MissingProvider),
    decreases tree,
{
    match tree {
        Tree::Leaf { class } => {},
        Tree::Calc { feature, routes } => {
            let j = first_index(features.names, feature).unwrap();
            let f = features.extract[j];
            let v = f(x);
            if routes.dom().contains(v) {
                lemma_fitting_tree_has_its_providers(
                    routes[v],
                    samples.filter(reads_value(f, v)),
                    features,
                    x,
                );
            }
        },
    }
}

/// A decision for some samples refuses a feature vector whose value of the
/// decision's feature none of the samples has.
pub proof fn lemma_unseen_value_is_refused<T>(
    tree: Tree,
    samples: Seq<TrainObject<T>>,
    features: Features<T>,
    x: T,
)
    requires
        fits(tree, samples, features),
        tree is Calc,
        !values(
            observations(
                samples,
                features.extract[first_index(features.names, tree->feature).unwrap()],
            ),
        ).contains(features.extract[first_index(features.names, tree->feature).unwrap()](x)),
    ensures
        tree.class_of(features, x) == Err::<i8, PredictError>(PredictError::UnseenCategory),
{
    let f = features.extract[first_index(features.names, tree->feature).unwrap()];
}

/// A tree that is grown gives every sample it was grown from the sample's
/// own class.
pub proof fn lemma_training_samples_keep_their_class<T>(
    samples: Seq<TrainObject<T>>,
    features: Features<T>,
    i: int,
)
    requires
        build_spec(samples, features) is Ok,
        0 <= i < samples.len(),
    ensures
        build_spec(samples, features).unwrap().class_of(features, samples[i].o) == Ok::<
            i8,
            PredictError,
        >(samples[i].class),
{
    lemma_grown_tree_fits(samples, features);
    lemma_fitting_tree_classifies(build_spec(samples, features).unwrap(), samples, features, i);
}

/// Only an empty set of samples is refused as empty: the samples that reach
/// a route are never none.
pub proof fn lemma_empty_input<T>(samples: Seq<TrainObject<T>>, features: Features<T>)
    ensures
        build_spec(samples, features) == Err::<Tree, BuildError>(BuildError::EmptyInput)
            <==> samples.len() == 0,
    decreases samples.len(), 1nat, 0nat,
{
    if samples.len() > 0 && classes_of(samples).len() != 1 {
        if best_feature(samples, features) is Some {
            let j = best_feature(samples, features).unwrap();
            let f = features.provider_at(j);
            let vs = distinct(values(observations(samples, f)));
            lemma_positive_gain_splits(samples, features, j);
            lemma_distinct(values(observations(samples, f)));
            assert forall|k: int| 0 <= k < vs.len() implies values(
                observations(samples, f),
            ).contains(#[trigger] vs[k]) by {
                assert(vs.contains(vs[k]));
            }
            lemma_routes_not_empty_input(samples, features, j, vs);
        }
    }
}

proof fn lemma_routes_not_empty_input<T>(
    samples: Seq<TrainObject<T>>,
    features: Features<T>,
    j: int,
    vs: Seq<i8>,
)
    requires
        splits(samples, features.provider_at(j)),
        forall|k: int|
            0 <= k < vs.len() ==> values(observations(samples, features.provider_at(j))).contains(
                #[trigger] vs[k],
            ),
    ensures
        build_routes(samples, features, j, vs) != Err::<Map<i8, Tree>, BuildError>(
            BuildError::EmptyInput,
        ),
    decreases samples.len(), 0nat, vs.len(),
{
    if vs.len() > 0 {
        let f = features.provider_at(j);
        let obs = observations(samples, f);
        let v = vs.last();
        let part = samples.filter(reads_value(f, v));
        assert(forall|k: int|
            0 <= k < vs.drop_last().len() ==> values(obs).contains(#[trigger] vs.drop_last()[k]));
        lemma_routes_not_empty_input(samples, features, j, vs.drop_last());
        let i = choose|i: int| 0 <= i < values(obs).len() && values(obs)[i] == v;
        samples.lemma_filter_contains(reads_value(f, v), i);
        lemma_empty_input(part, features);
    }
}

/// The classes that occur among samples do not depend on the order of the
/// samples.
proof fn lemma_classes_ignore_order<T>(
    samples1: Seq<TrainObject<T>>,
    samples2: Seq<TrainObject<T>>,
)
    requires
        samples1.to_multiset() == samples2.to_multiset(),
    ensures
        classes_of(samples1) == classes_of(samples2),
{
    let labels1 = class_labels(samples1);
    let labels2 = class_labels(samples2);
    lemma_map_permutation(samples1, samples2, |s: TrainObject<T>| s.class);
    assert forall|c: i8| labels1.contains(c) <==> labels2.contains(c) by {
        vstd::seq_lib::to_multiset_contains(labels1, c);
        vstd::seq_lib::to_multiset_contains(labels2, c);
    }
    lemma_distinct_below_same(labels1, labels2, 128);
}

/// The gain of a feature does not depend on the order of the samples.
proof fn lemma_gain_ignores_order<T>(
    samples1: Seq<TrainObject<T>>,
    samples2: Seq<TrainObject<T>>,
    features: Features<T>,
    j: int,
)
    requires
        samples1.to_multiset() == samples2.to_multiset(),
    ensures
        gain(samples1, features, j) == gain(samples2, features, j),
{
    lemma_classes_ignore_order(samples1, samples2);
    lemma_main_impurity_ignores_order(samples1, samples2, classes_of(samples1));
    lemma_impurity_ignores_order(
        samples1,
        samples2,
        features.provider_at(j),
        classes_of(samples1),
    );
}

/// The tree that is grown does not depend on the order of the samples.
pub proof fn lemma_growing_ignores_order<T>(
    samples1: Seq<TrainObject<T>>,
    samples2: Seq<TrainObject<T>>,
    features: Features<T>,
)
    requires
        samples1.to_multiset() == samples2.to_multiset(),
    ensures
        build_spec(samples1, features) == build_spec(samples2, features),
    decreases samples1.len(), 1nat, 0nat,
{
    samples1.to_multiset_ensures();
    samples2.to_multiset_ensures();
    lemma_classes_ignore_order(samples1, samples2);
    if samples1.len() > 0 && classes_of(samples1).len() != 1 {
        assert forall|k: int|
            #![trigger gain(samples1, features, k)]
            #![trigger gain(samples2, features, k)]
            gain(samples1, features, k) == gain(samples2, features, k) by {
            lemma_gain_ignores_order(samples1, samples2, features, k);
        }
        assert(forall|j: int| is_best(samples1, features, j) == is_best(samples2, features, j));
        if best_feature(samples1, features) is Some {
            let j = best_feature(samples1, features).unwrap();
            let f = features.provider_at(j);
            lemma_best_unique(samples2, features, j, best_feature(samples2, features).unwrap());
            lemma_positive_gain_splits(samples1, features, j);
            lemma_positive_gain_splits(samples2, features, j);
            lemma_map_permutation(samples1, samples2, |s: TrainObject<T>| (f(s.o), s.class));
            let obs1 = observations(samples1, f);
            let obs2 = observations(samples2, f);
            lemma_map_permutation(obs1, obs2, |p: (i8, i8)| p.0);
            assert forall|v: i8| values(obs1).contains(v) <==> values(obs2).contains(v) by {
                vstd::seq_lib::to_multiset_contains(values(obs1), v);
                vstd::seq_lib::to_multiset_contains(values(obs2), v);
            }
            lemma_distinct_below_same(values(obs1), values(obs2), 128);
            lemma_routes_ignore_order(samples1, samples2, features, j, distinct(values(obs1)));
        }
    }
}

proof fn lemma_routes_ignore_order<T>(
    samples1: Seq<TrainObject<T>>,
    samples2: Seq<TrainObject<T>>,
    features: Features<T>,
    j: int,
    vs: Seq<i8>,
)
    requires
        samples1.to_multiset() == samples2.to_multiset(),
        splits(samples1, features.provider_at(j)),
        splits(samples2, features.provider_at(j)),
    ensures
        build_routes(samples1, features, j, vs) == build_routes(samples2, features, j, vs),
    decreases samples1.len(), 0nat, vs.len(),
{
    if vs.len() > 0 {
        let pred = reads_value(features.provider_at(j), vs.last());
        lemma_routes_ignore_order(samples1, samples2, features, j, vs.drop_last());
        lemma_filter_permutation(samples1, samples2, pred);
        lemma_growing_ignores_order(samples1.filter(pred), samples2.filter(pred), features);
    }
}

/// Growing is a function of the samples and the features: two results of
/// growing from the same samples and features stand for the same tree, and
/// so give every feature vector the same answer.
pub proof fn lemma_growing_is_deterministic<T>(
    samples: Seq<TrainObject<T>>,
    features: Features<T>,
    first: Result<Node, BuildError>,
    second: Result<Node, BuildError>,
    x: T,
)
    requires
        grown(first) == build_spec(samples, features),
        grown(second) == build_spec(samples, features),
    ensures
        grown(first) == grown(second),
        first is Ok ==> second is Ok && first.unwrap()@.class_of(features, x)
            == second.unwrap()@.class_of(features, x),
{
}

} // verus!
