//! Labelled samples and what the providers read from them.
use crate::impurity::{distinct, feature_gini, impurity_of, main_gini, main_impurity};
use crate::provider::{extractor, is_pure, read_feature};
use crate::score::Score;
use vstd::prelude::*;

verus! {

/// A feature vector with its class label.
#[derive(Debug)]
pub struct TrainObject<T> {
    pub o: T,
    pub class: i8,
}

/// The class labels of the samples, in their order.
pub open spec fn class_labels<T>(samples: Seq<TrainObject<T>>) -> Seq<i8> {
    samples.map_values(|s: TrainObject<T>| s.class)
}

/// The classes that occur among the samples, ascending.
pub open spec fn classes_of<T>(samples: Seq<TrainObject<T>>) -> Seq<i8> {
    distinct(class_labels(samples))
}

/// What `f` reads from each sample, with the sample's class.
pub open spec fn observations<T>(samples: Seq<TrainObject<T>>, f: spec_fn(T) -> i8) -> Seq<
    (i8, i8),
> {
    samples.map_values(|s: TrainObject<T>| (f(s.o), s.class))
}

/// The predicate "`f` reads the value `v`" on samples.
pub open spec fn reads_value<T>(f: spec_fn(T) -> i8, v: i8) -> spec_fn(TrainObject<T>) -> bool {
    |s: TrainObject<T>| f(s.o) == v
}

/// The samples at the positions `rows`, in the order of `rows`.
pub open spec fn gather<T>(data: Seq<TrainObject<T>>, rows: Seq<usize>) -> Seq<TrainObject<T>> {
    rows.map_values(|r: usize| data[r as int])
}

/// Whether every position of `rows` is one of `data`.
pub open spec fn rows_in_range(rows: Seq<usize>, len: nat) -> bool {
    forall|k: int| 0 <= k < rows.len() ==> #[trigger] rows[k] < len
}

/// Every position of `data`, ascending.
pub(crate) fn all_rows<T>(data: &Vec<TrainObject<T>>) -> (rows: Vec<usize>)
    ensures
        rows_in_range(rows@, data@.len()),
        gather(data@, rows@) == data@,
{
    let mut rows: Vec<usize> = Vec::new();
    let mut i: usize = 0;
    while i < data.len()
        invariant
            i <= data.len(),
            rows@.len() == i,
            forall|k: int| 0 <= k < i ==> rows@[k] == k,
        decreases data.len() - i,
    {
        rows.push(i);
        i += 1;
    }
    rows
}

/// The class labels of the samples at `rows`.
pub(crate) fn labels_at<T>(data: &Vec<TrainObject<T>>, rows: &Vec<usize>) -> (labels: Vec<i8>)
    requires
        rows_in_range(rows@, data@.len()),
    ensures
        labels@ == class_labels(gather(data@, rows@)),
{
    let mut labels: Vec<i8> = Vec::new();
    let mut k: usize = 0;
    while k < rows.len()
        invariant
            k <= rows.len(),
            rows_in_range(rows@, data@.len()),
            labels@.len() == k,
            forall|i: int| 0 <= i < k ==> labels@[i] == data@[rows@[i] as int].class,
        decreases rows.len() - k,
    {
        labels.push(data[rows[k]].class);
        k += 1;
    }
    labels
}

/// What the provider reads from each sample at `rows`, with the sample's
/// class.
pub(crate) fn observe<T, F: Fn(&T) -> i8>(
    provider: &F,
    data: &Vec<TrainObject<T>>,
    rows: &Vec<usize>,
) -> (obs: Vec<(i8, i8)>)
    requires
        is_pure::<T, F>(*provider),
        rows_in_range(rows@, data@.len()),
    ensures
        obs@ == observations(gather(data@, rows@), extractor::<T, F>(*provider)),
{
    let mut obs: Vec<(i8, i8)> = Vec::new();
    let mut k: usize = 0;
    while k < rows.len()
        invariant
            k <= rows.len(),
            is_pure::<T, F>(*provider),
            rows_in_range(rows@, data@.len()),
            obs@.len() == k,
            forall|i: int|
                0 <= i < k ==> obs@[i] == (
                    extractor::<T, F>(*provider)(data@[rows@[i] as int].o),
                    data@[rows@[i] as int].class,
                ),
        decreases rows.len() - k,
    {
        let sample = &data[rows[k]];
        let v = read_feature(provider, &sample.o);
        obs.push((v, sample.class));
        k += 1;
    }
    obs
}

/// The impurity of the feature that `provider` reads, over `data` and the
/// class labels `classes`.
///
/// For each distinct value of the feature, the share of the samples that
/// have it is multiplied by the fraction of each class of `classes` among
/// those samples; the score is the sum of these products.
pub fn calculate_gini_for_feature<T, F: Fn(&T) -> i8>(
    provider: &F,
    data: &Vec<TrainObject<T>>,
    classes: &Vec<i8>,
) -> (score: Score)
    requires
        is_pure::<T, F>(*provider),
    ensures
        score@ == feature_gini(observations(data@, extractor::<T, F>(*provider)), classes@),
        score@.positive_den(),
{
    let rows = all_rows(data);
    let obs = observe(provider, data, &rows);
    impurity_of(&obs, classes)
}

/// The impurity of `data` before any split: the product of the fractions of
/// the classes of `classes` among the samples.
pub fn calculate_main_gini<T>(data: &Vec<TrainObject<T>>, classes: &Vec<i8>) -> (score: Score)
    ensures
        score@ == main_gini(class_labels(data@), classes@),
        data@.len() > 0 ==> score@.positive_den(),
{
    let rows = all_rows(data);
    let labels = labels_at(data, &rows);
    main_impurity(&labels, classes)
}

} // verus!
