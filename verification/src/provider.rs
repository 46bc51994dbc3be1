//! The providers that read the features of a feature vector.
//!
//! A provider is a function from a feature vector to the value of one
//! feature. The library calls it as a plain function and reasons about it as
//! a mathematical one, so it has to be pure: defined on every feature vector
//! and returning one value for each. Providers come as a list of named
//! entries. A name that appears more than once stands for its first entry
//! everywhere, as in a mapping that keeps the first value given for a key.
use vstd::prelude::*;

verus! {

/// Whether a provider can be called on every feature vector and returns one
/// value for each.
pub open spec fn is_pure<T, F: Fn(&T) -> i8>(f: F) -> bool {
    &&& forall|x: T| #[trigger] call_requires(f, (&x,))
    &&& forall|x: T, v: i8, w: i8|
        #[trigger] call_ensures(f, (&x,), v) && #[trigger] call_ensures(f, (&x,), w) ==> v == w
}

/// The mathematical function that a pure provider computes.
pub open spec fn extractor<T, F: Fn(&T) -> i8>(f: F) -> spec_fn(T) -> i8 {
    |x: T| choose|v: i8| call_ensures(f, (&x,), v)
}

/// Whether every provider of the list is pure.
pub open spec fn all_pure<T, F: Fn(&T) -> i8>(providers: Seq<(String, F)>) -> bool {
    forall|j: int| 0 <= j < providers.len() ==> is_pure::<T, F>(#[trigger] providers[j].1)
}

/// Named features: `extract[j]` reads the feature called `names[j]`.
#[verifier::reject_recursive_types(T)]
pub ghost struct Features<T> {
    pub names: Seq<Seq<char>>,
    pub extract: Seq<spec_fn(T) -> i8>,
}

/// The features that a list of providers stands for.
pub open spec fn features_of<T, F: Fn(&T) -> i8>(providers: Seq<(String, F)>) -> Features<T> {
    Features {
        names: providers.map_values(|e: (String, F)| e.0@),
        extract: providers.map_values(|e: (String, F)| extractor::<T, F>(e.1)),
    }
}

/// The first position at which `x` occurs in `s`.
pub open spec fn first_index<A>(s: Seq<A>, x: A) -> Option<int> {
    if exists|i: int| is_first_index(s, x, i) {
        Some(choose|i: int| is_first_index(s, x, i))
    } else {
        None
    }
}

/// Whether `x` occurs in `s` at position `i` and nowhere before it.
pub open spec fn is_first_index<A>(s: Seq<A>, x: A, i: int) -> bool {
    &&& 0 <= i < s.len()
    &&& s[i] == x
    &&& forall|k: int| 0 <= k < i ==> s[k] != x
}

/// An element that occurs has a first position, at or before any of its
/// positions.
pub proof fn lemma_first_index_exists<A>(s: Seq<A>, x: A, i: int)
    requires
        0 <= i < s.len(),
        s[i] == x,
    ensures
        first_index(s, x) is Some,
        is_first_index(s, x, first_index(s, x).unwrap()),
        first_index(s, x).unwrap() <= i,
    decreases i,
{
    if exists|k: int| 0 <= k < i && s[k] == x {
        let k = choose|k: int| 0 <= k < i && s[k] == x;
        lemma_first_index_exists(s, x, k);
    } else {
        assert(is_first_index(s, x, i));
    }
}

impl<T> Features<T> {
    /// The function that the name of feature `j` stands for: that of the
    /// first feature with this name.
    pub open spec fn provider_at(self, j: int) -> spec_fn(T) -> i8 {
        self.extract[first_index(self.names, self.names[j]).unwrap()]
    }
}

/// The position of the first provider called `name`.
pub fn find_provider<F>(providers: &Vec<(String, F)>, name: &String) -> (r: Option<usize>)
    ensures
        match r {
            Some(j) => first_index(providers@.map_values(|e: (String, F)| e.0@), name@) == Some(
                j as int,
            ),
            None => first_index(providers@.map_values(|e: (String, F)| e.0@), name@).is_none(),
        },
{
    let ghost names = providers@.map_values(|e: (String, F)| e.0@);
    let mut j: usize = 0;
    while j < providers.len()
        invariant
            j <= providers.len(),
            names == providers@.map_values(|e: (String, F)| e.0@),
            forall|k: int| 0 <= k < j ==> names[k] != name@,
        decreases providers.len() - j,
    {
        if providers[j].0 == *name {
            assert(is_first_index(names, name@, j as int));
            return Some(j);
        }
        j += 1;
    }
    None
}

/// The position of the first provider with the name of provider `j`: the one
/// that this name stands for.
pub(crate) fn first_with_name<F>(providers: &Vec<(String, F)>, j: usize) -> (first: usize)
    requires
        j < providers@.len(),
    ensures
        first <= j,
        first_index(
            providers@.map_values(|e: (String, F)| e.0@),
            providers@[j as int].0@,
        ) == Some(first as int),
{
    let ghost names = providers@.map_values(|e: (String, F)| e.0@);
    let mut k: usize = 0;
    while k < j
        invariant
            k <= j < providers.len(),
            names == providers@.map_values(|e: (String, F)| e.0@),
            forall|i: int| 0 <= i < k ==> names[i] != names[j as int],
        decreases j - k,
    {
        if providers[k].0 == providers[j].0 {
            assert(is_first_index(names, names[j as int], k as int));
            return k;
        }
        k += 1;
    }
    assert(is_first_index(names, names[j as int], j as int));
    j
}

/// The value of a feature on a feature vector.
pub(crate) fn read_feature<T, F: Fn(&T) -> i8>(provider: &F, x: &T) -> (v: i8)
    requires
        is_pure::<T, F>(*provider),
    ensures
        v == extractor::<T, F>(*provider)(*x),
{
    provider(x)
}

} // verus!
