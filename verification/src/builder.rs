//! Growing a decision tree from labelled samples.
use crate::impurity::{
    distinct, distinct_values, feature_gini, impurity_of, labels, lemma_feature_gini_den,
    lemma_filter_full, lemma_fractions_product_den, lemma_single_value, main_gini, main_impurity,
    values, values_of,
};
use crate::laws::{lemma_empty_input, lemma_grown_tree_fits, lemma_one_class_gives_leaf};
use crate::node::{routes_model, Node, Tree};
use crate::provider::{all_pure, features_of, first_index, first_with_name, Features};
use crate::sample::{
    all_rows, class_labels, classes_of, gather, labels_at, observations, observe, reads_value,
    rows_in_range, TrainObject,
};
use crate::score::{
    lemma_difference_order, lemma_difference_positive, lemma_lt_then_not_above, Ratio, Score,
};
use std::collections::HashMap;
use vstd::prelude::*;

verus! {

broadcast use vstd::std_specs::hash::group_hash_axioms;

/// Why no tree could be grown.
#[derive(Debug, Clone, Copy, PartialEq, Eq, Structural)]
pub enum BuildError {
    /// There are no samples.
    EmptyInput,
    /// Samples of more than one class are left, at the root or below a
    /// decision, and no feature has a positive gain on them.
    NoInformativeFeature,
}

/// The impurity of the samples before any split.
pub open spec fn base_impurity<T>(samples: Seq<TrainObject<T>>) -> Ratio {
    main_gini(class_labels(samples), classes_of(samples))
}

/// The impurity of feature `j` on the samples.
pub open spec fn feature_impurity<T>(
    samples: Seq<TrainObject<T>>,
    features: Features<T>,
    j: int,
) -> Ratio {
    feature_gini(observations(samples, features.provider_at(j)), classes_of(samples))
}

/// How much splitting on feature `j` lowers the impurity.
pub open spec fn gain<T>(samples: Seq<TrainObject<T>>, features: Features<T>, j: int) -> Ratio {
    base_impurity(samples).minus(feature_impurity(samples, features, j))
}

/// Whether feature `j` is the one to split on: its gain is positive, no
/// feature has a greater gain, and every feature before it has a smaller one.
pub open spec fn is_best<T>(samples: Seq<TrainObject<T>>, features: Features<T>, j: int) -> bool {
    &&& 0 <= j < features.names.len()
    &&& Ratio::zero().lt(gain(samples, features, j))
    &&& forall|k: int|
        0 <= k < features.names.len() ==> !gain(samples, features, j).lt(
            #[trigger] gain(samples, features, k),
        )
    &&& forall|k: int|
        0 <= k < j ==> (#[trigger] gain(samples, features, k)).lt(gain(samples, features, j))
}

/// The feature to split on, if any has a positive gain.
pub open spec fn best_feature<T>(samples: Seq<TrainObject<T>>, features: Features<T>) -> Option<
    int,
> {
    if exists|j: int| is_best(samples, features, j) {
        Some(choose|j: int| is_best(samples, features, j))
    } else {
        None
    }
}

/// Whether splitting by `f` leaves every part smaller than the whole.
pub open spec fn splits<T>(samples: Seq<TrainObject<T>>, f: spec_fn(T) -> i8) -> bool {
    forall|v: i8| (#[trigger] samples.filter(reads_value(f, v))).len() < samples.len()
}

/// The tree grown from the samples: a leaf where they have one class, else
/// a decision on the best feature with a route for each value it takes. No
/// samples and no best feature are errors.
pub open spec fn build_spec<T>(samples: Seq<TrainObject<T>>, features: Features<T>) -> Result<
    Tree,
    BuildError,
>
    decreases samples.len(), 1nat, 0nat,
{
    if samples.len() == 0 {
        Err(BuildError::EmptyInput)
    } else if classes_of(samples).len() == 1 {
        Ok(Tree::Leaf { class: classes_of(samples)[0] })
    } else {
        match best_feature(samples, features) {
            None => Err(BuildError::NoInformativeFeature),
            Some(j) => match build_routes(
                samples,
                features,
                j,
                distinct(values(observations(samples, features.provider_at(j)))),
            ) {
                Err(e) => Err(e),
                Ok(routes) => Ok(Tree::Calc { feature: features.names[j], routes }),
            },
        }
    }
}

/// The routes for the values `vs` of feature `j`, each to the tree grown from
/// the samples with that value. The first value whose tree cannot be grown
/// decides the error. It is defined for a feature that splits the samples,
/// as every feature with a positive gain does.
pub open spec fn build_routes<T>(
    samples: Seq<TrainObject<T>>,
    features: Features<T>,
    j: int,
    vs: Seq<i8>,
) -> Result<Map<i8, Tree>, BuildError>
    decreases samples.len(), 0nat, vs.len(),
    when splits(samples, features.provider_at(j))
{
    if vs.len() == 0 {
        Ok(Map::empty())
    } else {
        match build_routes(samples, features, j, vs.drop_last()) {
            Err(e) => Err(e),
            Ok(routes) => match build_spec(
                samples.filter(reads_value(features.provider_at(j), vs.last())),
                features,
            ) {
                Err(e) => Err(e),
                Ok(tree) => Ok(routes.insert(vs.last(), tree)),
            },
        }
    }
}

/// Whether `tree` is a tree for `samples`. A leaf is one for samples that all
/// have its class. A decision is one where its feature has a provider, the
/// keys of its routes are exactly the values that the feature takes on the
/// samples, and each route leads to a tree for the samples with the route's
/// value.
pub open spec fn fits<T>(tree: Tree, samples: Seq<TrainObject<T>>, features: Features<T>) -> bool
    decreases tree,
{
    match tree {
        Tree::Leaf { class } => {
            &&& samples.len() > 0
            &&& forall|i: int| 0 <= i < samples.len() ==> (#[trigger] samples[i]).class == class
        },
        Tree::Calc { feature, routes } => match first_index(features.names, feature) {
            None => false,
            Some(j) => {
                &&& routes.dom() == values(observations(samples, features.extract[j])).to_set()
                &&& forall|v: i8| #[trigger]
                    routes.dom().contains(v) ==> fits(
                        routes[v],
                        samples.filter(reads_value(features.extract[j], v)),
                        features,
                    )
            },
        },
    }
}

/// The tree that a result of growing stands for.
pub open spec fn grown(r: Result<Node, BuildError>) -> Result<Tree, BuildError> {
    match r {
        Ok(node) => Ok(node@),
        Err(e) => Err(e),
    }
}

/// The impurity before a split has a positive denominator.
pub proof fn lemma_base_impurity_den<T>(samples: Seq<TrainObject<T>>)
    requires
        samples.len() > 0,
    ensures
        base_impurity(samples).positive_den(),
{
    lemma_fractions_product_den(Ratio::one(), class_labels(samples), classes_of(samples));
}

/// A feature with a positive gain takes at least two values on the samples:
/// each of its values leaves some sample out.
pub proof fn lemma_positive_gain_splits<T>(
    samples: Seq<TrainObject<T>>,
    features: Features<T>,
    j: int,
)
    requires
        samples.len() > 0,
        Ratio::zero().lt(gain(samples, features, j)),
    ensures
        splits(samples, features.provider_at(j)),
{
    let f = features.provider_at(j);
    let obs = observations(samples, f);
    lemma_difference_positive(base_impurity(samples), feature_impurity(samples, features, j));
    assert forall|v: i8| (#[trigger] samples.filter(reads_value(f, v))).len() < samples.len() by {
        samples.lemma_filter_len(reads_value(f, v));
        if samples.filter(reads_value(f, v)).len() == samples.len() {
            lemma_filter_full(samples, reads_value(f, v));
            assert(forall|i: int| 0 <= i < obs.len() ==> (#[trigger] obs[i]).0 == v);
            lemma_single_value(obs, classes_of(samples), v);
            assert(labels(obs) =~= class_labels(samples));
        }
    }
}

/// At most one feature is the one to split on.
pub proof fn lemma_best_unique<T>(
    samples: Seq<TrainObject<T>>,
    features: Features<T>,
    a: int,
    b: int,
)
    requires
        is_best(samples, features, a),
        is_best(samples, features, b),
    ensures
        a == b,
{
}

/// An error among the routes of the first values is the error of all routes.
proof fn lemma_routes_error<T>(
    samples: Seq<TrainObject<T>>,
    features: Features<T>,
    j: int,
    vs: Seq<i8>,
    m: int,
    e: BuildError,
)
    requires
        splits(samples, features.provider_at(j)),
        0 <= m <= vs.len(),
        build_routes(samples, features, j, vs.take(m)) == Err::<Map<i8, Tree>, BuildError>(e),
    ensures
        build_routes(samples, features, j, vs) == Err::<Map<i8, Tree>, BuildError>(e),
    decreases vs.len() - m,
{
    if m == vs.len() {
        assert(vs.take(m) =~= vs);
    } else {
        assert(vs.take(m + 1).drop_last() =~= vs.take(m));
        lemma_routes_error(samples, features, j, vs, m + 1, e);
    }
}

/// The positions of `rows` whose observation has the value `v`.
fn rows_with_value<T>(
    Ghost(data): Ghost<Seq<TrainObject<T>>>,
    Ghost(f): Ghost<spec_fn(T) -> i8>,
    rows: &Vec<usize>,
    obs: &Vec<(i8, i8)>,
    v: i8,
) -> (part: Vec<usize>)
    requires
        rows_in_range(rows@, data.len()),
        obs@ == observations(gather(data, rows@), f),
    ensures
        rows_in_range(part@, data.len()),
        gather(data, part@) == gather(data, rows@).filter(reads_value(f, v)),
{
    let mut part: Vec<usize> = Vec::new();
    let mut k: usize = 0;
    proof {
        reveal(Seq::filter);
    }
    while k < rows.len()
        invariant
            k <= rows.len(),
            rows@.len() == obs@.len(),
            rows_in_range(rows@, data.len()),
            obs@ == observations(gather(data, rows@), f),
            rows_in_range(part@, data.len()),
            gather(data, part@) == gather(data, rows@.take(k as int)).filter(reads_value(f, v)),
        decreases rows.len() - k,
    {
        proof {
            let sample = data[rows@[k as int] as int];
            let before = gather(data, rows@.take(k as int));
            assert(gather(data, rows@.take(k + 1)) =~= before.push(sample));
            before.lemma_filter_push(sample, reads_value(f, v));
            assert(obs@[k as int].0 == f(sample.o));
            if obs@[k as int].0 == v {
                assert(gather(data, part@.push(rows@[k as int])) =~= gather(data, part@).push(
                    sample,
                ));
            }
        }
        if obs[k].0 == v {
            part.push(rows[k]);
        }
        k += 1;
    }
    assert(rows@.take(k as int) =~= rows@);
    part
}

/// The feature to split the samples at `rows` on, if any has a positive gain.
fn choose_feature<T, F: Fn(&T) -> i8>(
    data: &Vec<TrainObject<T>>,
    providers: &Vec<(String, F)>,
    rows: &Vec<usize>,
    classes: &Vec<i8>,
) -> (best: Option<usize>)
    requires
        all_pure::<T, F>(providers@),
        rows_in_range(rows@, data@.len()),
        rows@.len() > 0,
        classes@ == classes_of(gather(data@, rows@)),
    ensures
        match best {
            Some(j) => j < providers@.len() && best_feature(
                gather(data@, rows@),
                features_of::<T, F>(providers@),
            ) == Some(j as int),
            None => best_feature(gather(data@, rows@), features_of::<T, F>(providers@)).is_none(),
        },
{
    let ghost part = gather(data@, rows@);
    let ghost features = features_of::<T, F>(providers@);
    let labels = labels_at(data, rows);
    let base = main_impurity(&labels, classes);
    let mut best: Option<usize> = None;
    let mut best_score: Option<Score> = None;
    let mut j: usize = 0;
    proof {
        lemma_base_impurity_den(part);
    }
    while j < providers.len()
        invariant
            j <= providers.len(),
            all_pure::<T, F>(providers@),
            rows_in_range(rows@, data@.len()),
            part == gather(data@, rows@),
            features == features_of::<T, F>(providers@),
            classes@ == classes_of(part),
            base@ == base_impurity(part),
            base@.positive_den(),
            best is Some <==> best_score is Some,
            match best {
                Some(b) => {
                    &&& b < j
                    &&& best_score.unwrap()@ == feature_impurity(part, features, b as int)
                    &&& best_score.unwrap()@.lt(base@)
                    &&& forall|k: int|
                        0 <= k < j ==> !(#[trigger] feature_impurity(part, features, k)).lt(
                            best_score.unwrap()@,
                        )
                    &&& forall|k: int|
                        0 <= k < b ==> best_score.unwrap()@.lt(
                            #[trigger] feature_impurity(part, features, k),
                        )
                },
                None => forall|k: int|
                    0 <= k < j ==> !(#[trigger] feature_impurity(part, features, k)).lt(base@),
            },
        decreases providers.len() - j,
    {
        let first = first_with_name(providers, j);
        let obs = observe(&providers[first].1, data, rows);
        let score = impurity_of(&obs, classes);
        proof {
            lemma_feature_gini_den(obs@, classes@);
            assert forall|k: int| 0 <= k < j implies (#[trigger] feature_impurity(
                part,
                features,
                k,
            )).positive_den() by {
                lemma_feature_gini_den(
                    observations(part, features.provider_at(k)),
                    classes_of(part),
                );
            }
        }
        let better = match &best_score {
            Some(least) => score.lt(least),
            None => score.lt(&base),
        };
        if better {
            proof {
                match best {
                    Some(b) => {
                        let least = best_score.unwrap()@;
                        lemma_lt_then_not_above(score@, least, base@);
                        assert forall|k: int| 0 <= k < j implies score@.lt(
                            #[trigger] feature_impurity(part, features, k),
                        ) by {
                            lemma_lt_then_not_above(
                                score@,
                                least,
                                feature_impurity(part, features, k),
                            );
                        }
                    },
                    None => {
                        assert forall|k: int| 0 <= k < j implies score@.lt(
                            #[trigger] feature_impurity(part, features, k),
                        ) by {
                            lemma_lt_then_not_above(
                                score@,
                                base@,
                                feature_impurity(part, features, k),
                            );
                        }
                    },
                }
            }
            best = Some(j);
            best_score = Some(score);
        }
        j += 1;
    }
    proof {
        assert forall|k: int| 0 <= k < providers@.len() implies (Ratio::zero().lt(
            #[trigger] gain(part, features, k),
        ) <==> feature_impurity(part, features, k).lt(base@)) by {
            lemma_difference_positive(base@, feature_impurity(part, features, k));
        }
        match best {
            Some(b) => {
                let least = best_score.unwrap()@;
                assert forall|k: int| 0 <= k < providers@.len() implies (gain(
                    part,
                    features,
                    b as int,
                ).lt(#[trigger] gain(part, features, k)) <==> feature_impurity(
                    part,
                    features,
                    k,
                ).lt(least)) by {
                    lemma_difference_order(base@, least, feature_impurity(part, features, k));
                }
                assert forall|k: int| 0 <= k < providers@.len() implies ((#[trigger] gain(
                    part,
                    features,
                    k,
                )).lt(gain(part, features, b as int)) <==> least.lt(
                    feature_impurity(part, features, k),
                )) by {
                    lemma_difference_order(base@, feature_impurity(part, features, k), least);
                }
                assert(is_best(part, features, b as int));
                assert forall|c: int| is_best(part, features, c) implies c == b by {
                    lemma_best_unique(part, features, c, b as int);
                }
            },
            None => {
                assert(forall|c: int| !is_best(part, features, c));
            },
        }
    }
    best
}

/// The tree grown from the samples at `rows`.
fn grow<T, F: Fn(&T) -> i8>(
    data: &Vec<TrainObject<T>>,
    providers: &Vec<(String, F)>,
    rows: Vec<usize>,
) -> (r: Result<Node, BuildError>)
    requires
        all_pure::<T, F>(providers@),
        rows_in_range(rows@, data@.len()),
    ensures
        grown(r) == build_spec(gather(data@, rows@), features_of::<T, F>(providers@)),
    decreases rows@.len(),
{
    let ghost part = gather(data@, rows@);
    let ghost features = features_of::<T, F>(providers@);
    if rows.len() == 0 {
        return Err(BuildError::EmptyInput);
    }
    let labels = labels_at(data, &rows);
    let classes = distinct_values(&labels);
    if classes.len() == 1 {
        return Ok(Node::Leaf { class: classes[0] });
    }
    let j = match choose_feature(data, providers, &rows, &classes) {
        Some(j) => j,
        None => {
            return Err(BuildError::NoInformativeFeature);
        },
    };
    let first = first_with_name(providers, j);
    proof {
        lemma_positive_gain_splits(part, features, j as int);
    }
    let ghost f = features.provider_at(j as int);
    let obs = observe(&providers[first].1, data, &rows);
    let vals = values_of(&obs);
    let vs = distinct_values(&vals);
    let mut route_map: HashMap<i8, Node> = HashMap::new();
    let mut k: usize = 0;
    proof {
        assert(routes_model(route_map@) =~= Map::<i8, Tree>::empty());
    }
    while k < vs.len()
        invariant
            k <= vs.len(),
            all_pure::<T, F>(providers@),
            rows_in_range(rows@, data@.len()),
            part == gather(data@, rows@),
            features == features_of::<T, F>(providers@),
            f == features.provider_at(j as int),
            obs@ == observations(part, f),
            splits(part, f),
            part.len() > 0,
            classes_of(part).len() != 1,
            best_feature(part, features) == Some(j as int),
            vs@ == distinct(values(observations(part, f))),
            build_routes(part, features, j as int, vs@.take(k as int)) == Ok::<
                Map<i8, Tree>,
                BuildError,
            >(routes_model(route_map@)),
        decreases vs.len() - k,
    {
        let v = vs[k];
        let sub = rows_with_value::<T>(Ghost(data@), Ghost(f), &rows, &obs, v);
        proof {
            assert(vs@.take(k + 1).drop_last() =~= vs@.take(k as int));
        }
        match grow(data, providers, sub) {
            Err(e) => {
                proof {
                    lemma_routes_error(part, features, j as int, vs@, k + 1, e);
                }
                return Err(e);
            },
            Ok(child) => {
                proof {
                    assert(routes_model(route_map@.insert(v, child)) =~= routes_model(
                        route_map@,
                    ).insert(v, child@));
                }
                route_map.insert(v, child);
            },
        }
        k += 1;
    }
    proof {
        assert(vs@.take(k as int) =~= vs@);
    }
    let node = Node::Calc { feature_name: providers[j].0.clone(), route_map };
    proof {
        node.lemma_view_of_calc();
    }
    Ok(node)
}

/// Grows a decision tree from `data`.
///
/// Samples of one class give a leaf with that class. Otherwise the samples
/// are split on the feature with the greatest gain, the gain of a feature
/// being what its impurity takes from the impurity before the split. Only a
/// positive gain counts, and among features of equal gain the first in
/// `providers` is taken. The decision gets one route for each value that the
/// feature takes, to the tree grown from the samples with that value.
///
/// Fails with `EmptyInput` without samples, and with `NoInformativeFeature`
/// where samples of several classes are left and no feature has a positive
/// gain on them.
pub fn build_tree<T, F: Fn(&T) -> i8>(
    data: &Vec<TrainObject<T>>,
    providers: &Vec<(String, F)>,
) -> (r: Result<Node, BuildError>)
    requires
        all_pure::<T, F>(providers@),
    ensures
        grown(r) == build_spec(data@, features_of::<T, F>(providers@)),
        r matches Err(BuildError::EmptyInput) <==> data@.len() == 0,
        data@.len() > 0 && (forall|i: int|
            0 <= i < data@.len() ==> (#[trigger] data@[i]).class == data@[0].class) ==> grown(r)
            == Ok::<Tree, BuildError>(Tree::Leaf { class: data@[0].class }),
        r matches Ok(node) ==> fits(node@, data@, features_of::<T, F>(providers@)),
{
    let rows = all_rows(data);
    let r = grow(data, providers, rows);
    proof {
        let features = features_of::<T, F>(providers@);
        lemma_empty_input(data@, features);
        if data@.len() > 0 && (forall|i: int|
            0 <= i < data@.len() ==> (#[trigger] data@[i]).class == data@[0].class) {
            lemma_one_class_gives_leaf(data@, features, data@[0].class);
        }
        if r is Ok {
            lemma_grown_tree_fits(data@, features);
        }
    }
    r
}

} // verus!
