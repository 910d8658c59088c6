//! View data for the rendered pages.
//!
//! Rendering itself (templates, markup) belongs to the surrounding
//! application; this module holds the data a view is built from and the
//! presentation rules worth stating exactly.

use vstd::prelude::*;

use crate::conf::FlashLevel;
use crate::model::Item;

verus! {

/// The data behind the best-item fragment: the current poll winner, if the
/// tabulation produced one.
pub struct BestItemView {
    pub best_item: Option<Item>,
}

impl BestItemView {
    /// A view of the given tabulation result.
    pub fn new(best_item: Option<Item>) -> (view: BestItemView)
        ensures
            view.best_item == best_item,
    {
        Self { best_item }
    }
}

impl FlashLevel {
    /// The style classes of a flash message of this severity.
    pub fn notification_class(&self) -> (r: String)
        ensures
            match self {
                FlashLevel::Debug => r@ == "notification m-1 p-2 is-link"@,
                FlashLevel::Info => r@ == "notification m-1 p-2 is-info"@,
                FlashLevel::Success => r@ == "notification m-1 p-2 is-success"@,
                FlashLevel::Warning => r@ == "notification m-1 p-2 is-warning"@,
                FlashLevel::Error => r@ == "notification m-1 p-2 is-danger"@,
            },
    {
        let class = match self {
            FlashLevel::Debug => "notification m-1 p-2 is-link",
            FlashLevel::Info => "notification m-1 p-2 is-info",
            FlashLevel::Success => "notification m-1 p-2 is-success",
            FlashLevel::Warning => "notification m-1 p-2 is-warning",
            FlashLevel::Error => "notification m-1 p-2 is-danger",
        };
        class.to_owned()
    }
}

} // verus!
