//! The decision tree and how it classifies.
//!
//! A tree is a leaf that holds a class, or a decision that names a feature
//! and routes each value that the feature took in training to a subtree.
//! Classifying walks from the root: a decision reads its feature from the
//! feature vector and follows the route of that value, a leaf answers.
use crate::provider::{all_pure, features_of, find_provider, first_index, read_feature, Features};
use std::collections::HashMap;
use vstd::prelude::*;

verus! {

broadcast use vstd::std_specs::hash::group_hash_axioms;

/// Why a feature vector could not be classified.
#[derive(Debug, Clone, Copy, PartialEq, Eq, Structural)]
pub enum PredictError {
    /// A decision names a feature that no provider is called.
    MissingProvider,
    /// A feature has a value for which the decision has no route: the value
    /// was not seen at this point in training.
    UnseenCategory,
}

/// A decision tree.
#[derive(Debug, PartialEq, Eq)]
pub enum Node {
    /// Every feature vector that arrives here has this class.
    Leaf { class: i8 },
    /// Feature vectors are passed on by the value of one feature.
    Calc { feature_name: String, route_map: HashMap<i8, Node> },
}

/// The mathematical tree that a [`Node`] stands for.
pub ghost enum Tree {
    Leaf { class: i8 },
    Calc { feature: Seq<char>, routes: Map<i8, Tree> },
}

/// The routes that a map of nodes stands for.
pub open spec fn routes_model(route_map: Map<i8, Node>) -> Map<i8, Tree> {
    Map::new(|v: i8| route_map.dom().contains(v), |v: i8| route_map[v]@)
}

impl Node {
    /// The mathematical tree that this node stands for.
    pub open spec fn model(self) -> Tree
        decreases self,
    {
        match self {
            Node::Leaf { class } => Tree::Leaf { class },
            Node::Calc { feature_name, route_map } => Tree::Calc {
                feature: feature_name@,
                routes: Map::new(
                    |v: i8| route_map@.dom().contains(v),
                    |v: i8|
                        if route_map@.dom().contains(v) {
                            route_map@[v].model()
                        } else {
                            Tree::Leaf { class: 0i8 }
                        },
                ),
            },
        }
    }
}

impl View for Node {
    type V = Tree;

    open spec fn view(&self) -> Tree {
        self.model()
    }
}

impl Node {
    /// The view of a decision is the decision over the views of its routes.
    pub proof fn lemma_view_of_calc(self)
        requires
            self is Calc,
        ensures
            self@ == (Tree::Calc {
                feature: self->feature_name@,
                routes: routes_model(self->route_map@),
            }),
    {
        assert(self@->routes =~= routes_model(self->route_map@));
    }
}

impl Tree {
    /// The class that the tree gives to the feature vector `x`, read through
    /// `features`.
    pub open spec fn class_of<T>(self, features: Features<T>, x: T) -> Result<i8, PredictError>
        decreases self,
    {
        match self {
            Tree::Leaf { class } => Ok(class),
            Tree::Calc { feature, routes } => match first_index(features.names, feature) {
                None => Err(PredictError::MissingProvider),
                Some(j) => if routes.dom().contains(features.extract[j](x)) {
                    routes[features.extract[j](x)].class_of(features, x)
                } else {
                    Err(PredictError::UnseenCategory)
                },
            },
        }
    }
}

impl Node {
    /// The class of the feature vector `obj`.
    ///
    /// Fails with `MissingProvider` where a decision on the way names a
    /// feature that `providers` does not have, and with `UnseenCategory`
    /// where the feature's value has no route.
    pub fn get_class<T, F: Fn(&T) -> i8>(&self, providers: &Vec<(String, F)>, obj: &T) -> (r:
        Result<i8, PredictError>)
        requires
            all_pure::<T, F>(providers@),
        ensures
            r == self@.class_of(features_of::<T, F>(providers@), *obj),
        decreases self,
    {
        match self {
            Node::Leaf { class } => Ok(*class),
            Node::Calc { feature_name, route_map } => {
                proof {
                    self.lemma_view_of_calc();
                }
                match find_provider(providers, feature_name) {
                    None => Err(PredictError::MissingProvider),
                    Some(j) => {
                        let v = read_feature(&providers[j].1, obj);
                        match route_map.get(&v) {
                            None => Err(PredictError::UnseenCategory),
                            Some(child) => child.get_class(providers, obj),
                        }
                    },
                }
            },
        }
    }
}

} // verus!
