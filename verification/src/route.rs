//! Routes.

use http::Method;
use std::borrow::Cow;
use vstd::prelude::*;

verus! {

/// `Method` of `http`, an HTTP request method. Nothing is claimed of what it holds.
#[verifier::external_type_specification]
#[verifier::external_body]
pub struct ExMethod(Method);

/// `Method::clone` of `http`: the copy is the same method.
pub assume_specification[ <Method as Clone>::clone ](method: &Method) -> (copy: Method)
    ensures
        copy == *method,
;

/// A route for rate limiting, consisting of a path and method.
#[derive(Debug, Hash, PartialEq, Eq)]
pub struct Route<'a> {
    pub method: Cow<'a, Method>,
    pub path: Cow<'a, str>,
}

impl<'a> Clone for Route<'a> {
    fn clone(&self) -> (route: Self)
        ensures
            route == *self,
    {
        Route {
            method: match &self.method {
                Cow::Borrowed(method) => Cow::Borrowed(*method),
                Cow::Owned(method) => Cow::Owned(method.clone()),
            },
            path: match &self.path {
                Cow::Borrowed(path) => Cow::Borrowed(*path),
                Cow::Owned(path) => Cow::Owned(path.clone()),
            },
        }
    }
}

impl<'a, P: Into<Cow<'a, str>>> From<(Method, P)> for Route<'a> {
    fn from(parts: (Method, P)) -> (route: Self)
        ensures
            route.method == Cow::<Method>::Owned(parts.0),
            call_ensures(P::into, (parts.1,), route.path),
    {
        let (method, path) = parts;
        Route { path: path.into(), method: Cow::Owned(method) }
    }
}

impl<'a, P: Into<Cow<'a, str>>> vstd::std_specs::convert::FromSpecImpl<(Method, P)> for Route<'a> {
    open spec fn obeys_from_spec() -> bool {
        <P as vstd::std_specs::convert::IntoSpec<Cow<'a, str>>>::obeys_into_spec()
    }

    open spec fn from_spec(parts: (Method, P)) -> Self {
        Route {
            method: Cow::Owned(parts.0),
            path: <P as vstd::std_specs::convert::IntoSpec<Cow<'a, str>>>::into_spec(parts.1),
        }
    }
}

} // verus!
