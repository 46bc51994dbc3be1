//! The impurity of a feature over a set of observations.
//!
//! An observation is a pair of a feature's value and a class label. The
//! impurity of the feature is a sum over the distinct values `v` it takes:
//! the share of observations with value `v`, times the product, over the
//! class labels, of the fraction of those observations that carry the label.
//! It is a product of class fractions, not `1 - sum p^2`.
use crate::score::{lemma_times_same, Ratio, Score};
use vstd::prelude::*;

verus! {

/// The values below `bound` that occur in `s`, each once, in ascending order.
pub open spec fn distinct_below(s: Seq<i8>, bound: int) -> Seq<i8>
    decreases bound + 128,
{
    if bound <= -128 {
        Seq::empty()
    } else {
        let rest = distinct_below(s, bound - 1);
        if s.contains((bound - 1) as i8) {
            rest.push((bound - 1) as i8)
        } else {
            rest
        }
    }
}

/// The values that occur in `s`, each once, in ascending order.
pub open spec fn distinct(s: Seq<i8>) -> Seq<i8> {
    distinct_below(s, 128)
}

/// The predicate "has the feature value `v`" on observations.
pub open spec fn has_value(v: i8) -> spec_fn((i8, i8)) -> bool {
    |p: (i8, i8)| p.0 == v
}

/// The predicate "is the label `c`" on class labels.
pub open spec fn is_class(c: i8) -> spec_fn(i8) -> bool {
    |l: i8| l == c
}

/// The feature values of the observations, in their order.
pub open spec fn values(obs: Seq<(i8, i8)>) -> Seq<i8> {
    obs.map_values(|p: (i8, i8)| p.0)
}

/// The class labels of the observations, in their order.
pub open spec fn labels(obs: Seq<(i8, i8)>) -> Seq<i8> {
    obs.map_values(|p: (i8, i8)| p.1)
}

/// The fraction of `labels` that are the label `c`.
pub open spec fn class_fraction(labels: Seq<i8>, c: i8) -> Ratio {
    Ratio::of(labels.filter(is_class(c)).len(), labels.len())
}

/// `start` times the fraction of each class of `classes` among `labels`.
pub open spec fn fractions_product(start: Ratio, labels: Seq<i8>, classes: Seq<i8>) -> Ratio
    decreases classes.len(),
{
    if classes.len() == 0 {
        start
    } else {
        fractions_product(start, labels, classes.drop_last()).times(
            class_fraction(labels, classes.last()),
        )
    }
}

/// The impurity of a set of labels before any split: the product of the
/// fractions of the classes.
pub open spec fn main_gini(labels: Seq<i8>, classes: Seq<i8>) -> Ratio {
    fractions_product(Ratio::one(), labels, classes)
}

/// What the value `v` adds to the impurity: the share of the observations
/// that have it, times the class fractions among those.
pub open spec fn value_term(obs: Seq<(i8, i8)>, classes: Seq<i8>, v: i8) -> Ratio {
    let part = obs.filter(has_value(v));
    fractions_product(Ratio::of(part.len(), obs.len()), labels(part), classes)
}

/// The sum of the terms of the values `vs`, added in their order.
pub open spec fn terms_sum(obs: Seq<(i8, i8)>, classes: Seq<i8>, vs: Seq<i8>) -> Ratio
    decreases vs.len(),
{
    if vs.len() == 0 {
        Ratio::zero()
    } else {
        terms_sum(obs, classes, vs.drop_last()).plus(value_term(obs, classes, vs.last()))
    }
}

/// The impurity of a feature whose values and labels are `obs`.
pub open spec fn feature_gini(obs: Seq<(i8, i8)>, classes: Seq<i8>) -> Ratio {
    terms_sum(obs, classes, distinct(values(obs)))
}

/// `distinct_below` holds exactly the values below the bound that occur, and
/// holds them in strictly ascending order.
pub proof fn lemma_distinct_below(s: Seq<i8>, bound: int)
    requires
        -128 <= bound <= 128,
    ensures
        forall|v: i8|
            #[trigger] distinct_below(s, bound).contains(v) <==> v < bound && s.contains(v),
        forall|i: int, j: int|
            0 <= i < j < distinct_below(s, bound).len() ==> distinct_below(s, bound)[i]
                < distinct_below(s, bound)[j],
    decreases bound + 128,
{
    let d = distinct_below(s, bound);
    if bound > -128 {
        lemma_distinct_below(s, bound - 1);
        let rest = distinct_below(s, bound - 1);
        let top = (bound - 1) as i8;
        if s.contains(top) {
            assert(d[rest.len() as int] == top);
            assert forall|v: i8| #[trigger] d.contains(v) <==> v < bound && s.contains(v) by {
                if d.contains(v) {
                    let k = choose|k: int| 0 <= k < d.len() && d[k] == v;
                    if k < rest.len() {
                        assert(rest.contains(v));
                    }
                }
                if v < bound && s.contains(v) && v != top {
                    assert(rest.contains(v));
                    let k = choose|k: int| 0 <= k < rest.len() && rest[k] == v;
                    assert(d[k] == v);
                }
            }
            assert forall|i: int, j: int| 0 <= i < j < d.len() implies d[i] < d[j] by {
                if j == rest.len() {
                    assert(rest.contains(d[i]));
                }
            }
        }
    }
}

/// `distinct` holds exactly the values that occur, in strictly ascending order.
pub proof fn lemma_distinct(s: Seq<i8>)
    ensures
        forall|v: i8| #[trigger] distinct(s).contains(v) <==> s.contains(v),
        forall|i: int, j: int| 0 <= i < j < distinct(s).len() ==> distinct(s)[i] < distinct(s)[j],
{
    lemma_distinct_below(s, 128);
}

/// A product of class fractions over a non-empty set of labels has a
/// positive denominator, given that it starts from one.
pub proof fn lemma_fractions_product_den(start: Ratio, labels: Seq<i8>, classes: Seq<i8>)
    requires
        start.positive_den(),
        labels.len() > 0,
    ensures
        fractions_product(start, labels, classes).positive_den(),
    decreases classes.len(),
{
    if classes.len() > 0 {
        lemma_fractions_product_den(start, labels, classes.drop_last());
        let before = fractions_product(start, labels, classes.drop_last());
        let n = labels.len() as int;
        assert(before.den * n > 0) by (nonlinear_arith)
            requires
                before.den > 0,
                n > 0,
        ;
    }
}

/// A value that occurs among the observations has at least one of them.
pub proof fn lemma_value_occurs(obs: Seq<(i8, i8)>, v: i8)
    requires
        values(obs).contains(v),
    ensures
        obs.filter(has_value(v)).len() > 0,
{
    let i = choose|i: int| 0 <= i < values(obs).len() && values(obs)[i] == v;
    obs.lemma_filter_contains(has_value(v), i);
}

/// A sum of terms of values that occur has a positive denominator.
pub proof fn lemma_terms_sum_den(obs: Seq<(i8, i8)>, classes: Seq<i8>, vs: Seq<i8>)
    requires
        forall|k: int| 0 <= k < vs.len() ==> values(obs).contains(#[trigger] vs[k]),
    ensures
        terms_sum(obs, classes, vs).positive_den(),
    decreases vs.len(),
{
    if vs.len() > 0 {
        lemma_terms_sum_den(obs, classes, vs.drop_last());
        let v = vs.last();
        let part = obs.filter(has_value(v));
        lemma_value_occurs(obs, v);
        obs.lemma_filter_len(has_value(v));
        lemma_fractions_product_den(
            Ratio::of(part.len(), obs.len()),
            labels(part),
            classes,
        );
        let before = terms_sum(obs, classes, vs.drop_last());
        let term = value_term(obs, classes, v);
        assert(before.den * term.den > 0) by (nonlinear_arith)
            requires
                before.den > 0,
                term.den > 0,
        ;
    }
}

/// The impurity of a feature has a positive denominator.
pub proof fn lemma_feature_gini_den(obs: Seq<(i8, i8)>, classes: Seq<i8>)
    ensures
        feature_gini(obs, classes).positive_den(),
{
    lemma_distinct(values(obs));
    let vs = distinct(values(obs));
    assert forall|k: int| 0 <= k < vs.len() implies values(obs).contains(#[trigger] vs[k]) by {
        assert(vs.contains(vs[k]));
    }
    lemma_terms_sum_den(obs, classes, vs);
}

/// Filtering by a predicate that holds of every element keeps the sequence.
pub proof fn lemma_filter_all<A>(s: Seq<A>, pred: spec_fn(A) -> bool)
    requires
        forall|i: int| 0 <= i < s.len() ==> pred(#[trigger] s[i]),
    ensures
        s.filter(pred) == s,
    decreases s.len(),
{
    reveal(Seq::filter);
    if s.len() > 0 {
        assert(forall|i: int|
            0 <= i < s.drop_last().len() ==> pred(#[trigger] s.drop_last()[i]));
        lemma_filter_all(s.drop_last(), pred);
    }
}

/// A filter that keeps the length keeps every element.
pub proof fn lemma_filter_full<A>(s: Seq<A>, pred: spec_fn(A) -> bool)
    requires
        s.filter(pred).len() == s.len(),
    ensures
        forall|i: int| 0 <= i < s.len() ==> pred(#[trigger] s[i]),
    decreases s.len(),
{
    reveal(Seq::filter);
    if s.len() > 0 {
        s.drop_last().lemma_filter_len(pred);
        lemma_filter_full(s.drop_last(), pred);
        assert forall|i: int| 0 <= i < s.len() implies pred(#[trigger] s[i]) by {
            if i < s.len() - 1 {
                assert(s.drop_last()[i] == s[i]);
            }
        }
    }
}

/// Starting from the same fraction gives the same product.
proof fn lemma_fractions_product_same(a: Ratio, b: Ratio, labels: Seq<i8>, classes: Seq<i8>)
    requires
        a.same(b),
    ensures
        fractions_product(a, labels, classes).same(fractions_product(b, labels, classes)),
    decreases classes.len(),
{
    if classes.len() > 0 {
        lemma_fractions_product_same(a, b, labels, classes.drop_last());
        lemma_times_same(
            fractions_product(a, labels, classes.drop_last()),
            fractions_product(b, labels, classes.drop_last()),
            class_fraction(labels, classes.last()),
        );
    }
}

/// A feature that takes one value on all observations has the impurity that
/// the labels have without a split.
pub proof fn lemma_single_value(obs: Seq<(i8, i8)>, classes: Seq<i8>, v: i8)
    requires
        obs.len() > 0,
        forall|i: int| 0 <= i < obs.len() ==> (#[trigger] obs[i]).0 == v,
    ensures
        feature_gini(obs, classes).same(main_gini(labels(obs), classes)),
{
    let vals = values(obs);
    let vs = distinct(vals);
    lemma_distinct(vals);
    assert(vals[0] == v);
    assert(vals.contains(v));
    assert(vs.contains(v));
    assert forall|k: int| 0 <= k < vs.len() implies vs[k] == v by {
        assert(vs.contains(vs[k]));
    }
    if vs.len() > 1 {
        assert(vs[0] < vs[1]);
    }
    assert(vs =~= seq![v]);
    assert(forall|i: int| 0 <= i < obs.len() ==> has_value(v)(#[trigger] obs[i]));
    lemma_filter_all(obs, has_value(v));
    let n = obs.len();
    let term = value_term(obs, classes, v);
    assert(terms_sum(obs, classes, vs.drop_last()) == Ratio::zero());
    assert(terms_sum(obs, classes, vs) == Ratio::zero().plus(term));
    assert((n as int) * 1 == 1 * (n as int));
    lemma_fractions_product_same(Ratio::of(n, n), Ratio::one(), labels(obs), classes);
}

proof fn lemma_contains_push(s: Seq<i8>, x: i8, v: i8)
    ensures
        s.push(x).contains(v) <==> s.contains(v) || v == x,
{
    let t = s.push(x);
    if t.contains(v) && v != x {
        let k = choose|k: int| 0 <= k < t.len() && t[k] == v;
        assert(s[k] == v);
    }
    if s.contains(v) {
        let k = choose|k: int| 0 <= k < s.len() && s[k] == v;
        assert(t[k] == v);
    }
    if v == x {
        assert(t[s.len() as int] == v);
    }
}

/// The position of the value `v` in a table with one slot for each `i8`.
spec fn slot_of(v: i8) -> int {
    v + 128
}

/// The values that occur in `vals`, each once, in ascending order.
pub fn distinct_values(vals: &Vec<i8>) -> (r: Vec<i8>)
    ensures
        r@ == distinct(vals@),
{
    let mut seen: Vec<bool> = Vec::new();
    let mut t: usize = 0;
    while t < 256
        invariant
            t <= 256,
            seen@.len() == t,
            forall|k: int| 0 <= k < t ==> !seen@[k],
        decreases 256 - t,
    {
        seen.push(false);
        t += 1;
    }
    let mut i: usize = 0;
    while i < vals.len()
        invariant
            i <= vals.len(),
            seen@.len() == 256,
            forall|v: i8| seen@[#[trigger] slot_of(v)] == vals@.take(i as int).contains(v),
        decreases vals.len() - i,
    {
        let x = vals[i];
        let slot: usize = (x as i16 + 128) as usize;
        seen.set(slot, true);
        proof {
            assert(vals@.take(i + 1) =~= vals@.take(i as int).push(x));
            assert forall|v: i8| seen@[#[trigger] slot_of(v)] == vals@.take(i + 1).contains(v) by {
                lemma_contains_push(vals@.take(i as int), x, v);
            }
        }
        i += 1;
    }
    assert(vals@.take(i as int) =~= vals@);
    let mut out: Vec<i8> = Vec::new();
    let mut b: i16 = -128;
    while b < 128
        invariant
            -128 <= b <= 128,
            seen@.len() == 256,
            forall|v: i8| seen@[#[trigger] slot_of(v)] == vals@.contains(v),
            out@ == distinct_below(vals@, b as int),
        decreases 128 - b,
    {
        let present = seen[(b + 128) as usize];
        proof {
            assert(seen@[slot_of(b as i8)] == vals@.contains(b as i8));
        }
        if present {
            out.push(b as i8);
        }
        b += 1;
    }
    out
}

/// How many of `labels` are the label `c`.
pub fn count_class(labels: &Vec<i8>, c: i8) -> (n: usize)
    ensures
        n == labels@.filter(is_class(c)).len(),
{
    let mut n: usize = 0;
    let mut i: usize = 0;
    proof {
        reveal(Seq::filter);
    }
    while i < labels.len()
        invariant
            i <= labels.len(),
            n <= i,
            n == labels@.take(i as int).filter(is_class(c)).len(),
        decreases labels.len() - i,
    {
        proof {
            assert(labels@.take(i + 1) =~= labels@.take(i as int).push(labels@[i as int]));
            labels@.take(i as int).lemma_filter_push(labels@[i as int], is_class(c));
        }
        if labels[i] == c {
            n += 1;
        }
        i += 1;
    }
    assert(labels@.take(i as int) =~= labels@);
    n
}

/// The feature values of the observations, in their order.
pub fn values_of(obs: &Vec<(i8, i8)>) -> (r: Vec<i8>)
    ensures
        r@ == values(obs@),
{
    let mut out: Vec<i8> = Vec::new();
    let mut i: usize = 0;
    while i < obs.len()
        invariant
            i <= obs.len(),
            out@.len() == i,
            forall|k: int| 0 <= k < i ==> out@[k] == obs@[k].0,
        decreases obs.len() - i,
    {
        out.push(obs[i].0);
        i += 1;
    }
    out
}

/// The class labels of the observations, in their order.
pub fn labels_of(obs: &Vec<(i8, i8)>) -> (r: Vec<i8>)
    ensures
        r@ == labels(obs@),
{
    let mut out: Vec<i8> = Vec::new();
    let mut i: usize = 0;
    while i < obs.len()
        invariant
            i <= obs.len(),
            out@.len() == i,
            forall|k: int| 0 <= k < i ==> out@[k] == obs@[k].1,
        decreases obs.len() - i,
    {
        out.push(obs[i].1);
        i += 1;
    }
    out
}

/// The class labels of the observations that have the value `v`.
fn labels_with_value(obs: &Vec<(i8, i8)>, v: i8) -> (r: Vec<i8>)
    ensures
        r@ == labels(obs@.filter(has_value(v))),
        r@.len() == obs@.filter(has_value(v)).len(),
{
    let mut out: Vec<i8> = Vec::new();
    let mut i: usize = 0;
    proof {
        reveal(Seq::filter);
    }
    while i < obs.len()
        invariant
            i <= obs.len(),
            out@ == labels(obs@.take(i as int).filter(has_value(v))),
        decreases obs.len() - i,
    {
        let p = obs[i];
        proof {
            let before = obs@.take(i as int);
            assert(obs@.take(i + 1) =~= before.push(p));
            before.lemma_filter_push(p, has_value(v));
            if p.0 == v {
                assert(labels(before.filter(has_value(v)).push(p)) =~= labels(
                    before.filter(has_value(v)),
                ).push(p.1));
            }
        }
        if p.0 == v {
            out.push(p.1);
        }
        i += 1;
    }
    assert(obs@.take(i as int) =~= obs@);
    out
}

/// `start` times the fraction of each class of `classes` among `labels`.
fn product_of_fractions(start: Score, labels: &Vec<i8>, classes: &Vec<i8>) -> (r: Score)
    ensures
        r@ == fractions_product(start@, labels@, classes@),
{
    let ghost first = start@;
    let mut acc = start;
    let mut k: usize = 0;
    while k < classes.len()
        invariant
            k <= classes.len(),
            acc@ == fractions_product(first, labels@, classes@.take(k as int)),
        decreases classes.len() - k,
    {
        let n = count_class(labels, classes[k]);
        let fraction = Score::from_counts(n, labels.len());
        acc = acc.times(&fraction);
        proof {
            assert(classes@.take(k + 1).drop_last() =~= classes@.take(k as int));
        }
        k += 1;
    }
    assert(classes@.take(k as int) =~= classes@);
    acc
}

/// The impurity of a set of labels before any split.
pub fn main_impurity(labels: &Vec<i8>, classes: &Vec<i8>) -> (r: Score)
    ensures
        r@ == main_gini(labels@, classes@),
        labels@.len() > 0 ==> r@.positive_den(),
{
    proof {
        if labels@.len() > 0 {
            lemma_fractions_product_den(Ratio::one(), labels@, classes@);
        }
    }
    product_of_fractions(Score::one(), labels, classes)
}

/// The impurity of a feature whose values and labels are `obs`.
pub fn impurity_of(obs: &Vec<(i8, i8)>, classes: &Vec<i8>) -> (r: Score)
    ensures
        r@ == feature_gini(obs@, classes@),
        r@.positive_den(),
{
    proof {
        lemma_feature_gini_den(obs@, classes@);
    }
    let vals = values_of(obs);
    let vs = distinct_values(&vals);
    let mut total = Score::zero();
    let mut k: usize = 0;
    while k < vs.len()
        invariant
            k <= vs.len(),
            total@ == terms_sum(obs@, classes@, vs@.take(k as int)),
        decreases vs.len() - k,
    {
        let part = labels_with_value(obs, vs[k]);
        let share = Score::from_counts(part.len(), obs.len());
        let term = product_of_fractions(share, &part, classes);
        total = total.plus(&term);
        proof {
            assert(vs@.take(k + 1).drop_last() =~= vs@.take(k as int));
        }
        k += 1;
    }
    assert(vs@.take(k as int) =~= vs@);
    total
}

} // verus!
