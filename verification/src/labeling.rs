//! Labels for identifiable types.
//!
//! A label gives an identifier contextual meaning — typically the entity
//! kind it belongs to.  [`Labeling`] is the interface for producing one;
//! [`CustomLabeling`] carries an explicit label and [`NoLabeling`] stands
//! for the absence of one.

use vstd::prelude::*;

verus! {

/// A source of a label.
pub trait Labeling {
    /// The label associated with the type.
    fn label(&self) -> &str;
}

/// A type that knows which labeler describes it.
pub trait Label {
    /// The labeler type for this type.
    type Labeler: Labeling;

    /// An instance of the labeler for the type.
    fn labeler() -> Self::Labeler;
}

/// An explicitly chosen label.
#[derive(Debug, Clone)]
pub struct CustomLabeling {
    /// The label text.
    pub text: String,
}

impl CustomLabeling {
    /// Wraps the given label text.
    pub fn new(label: &str) -> (r: Self)
        ensures
            r.text@ == label@,
    {
        CustomLabeling { text: String::from_str(label) }
    }
}

impl Labeling for CustomLabeling {
    fn label(&self) -> &str {
        self.text.as_str()
    }
}

/// The absence of a label.
#[derive(Debug, Copy, Clone)]
pub struct NoLabeling;

impl Labeling for NoLabeling {
    fn label(&self) -> &str {
        ""
    }
}

/// The unit type carries no label.
impl Label for () {
    type Labeler = NoLabeling;

    fn labeler() -> NoLabeling {
        NoLabeling
    }
}

} // verus!
