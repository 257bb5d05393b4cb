//! Tuple support for view values: a marker capability carried by tuples
//! whose components are views.

use vstd::prelude::*;

use crate::view::UiView;

verus! {

/// Marker capability of tuples of views.
pub trait TupleView {

}

impl TupleView for () {

}

impl TupleView for (UiView, UiView) {

}

impl TupleView for (UiView, UiView, UiView) {

}

} // verus!
