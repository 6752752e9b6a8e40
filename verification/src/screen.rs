//! The screens of the terminal interface.
use vstd::prelude::*;

verus! {

/// Which screen is showing.
#[derive(Clone, Copy, PartialEq, Eq, Structural, Debug)]
pub enum View {
    /// The runs table.
    Runs,
    /// One tag across the runs in scope.
    Scalars,
    /// Small multiples of the tags in scope.
    Compare,
    /// The flat table of hyperparameters and metrics.
    Hparams,
    /// One histogram series as a ridgeline.
    Distributions,
}

/// The screen behind a screen.
pub open spec fn view_behind(view: View) -> View {
    match view {
        View::Runs => View::Scalars,
        View::Scalars => View::Compare,
        View::Compare => View::Hparams,
        View::Hparams => View::Distributions,
        View::Distributions => View::Runs,
    }
}

impl View {
    /// The screen that the tab key turns to.
    pub fn next(self) -> (view: View)
        ensures
            view == view_behind(self),
    {
        match self {
            View::Runs => View::Scalars,
            View::Scalars => View::Compare,
            View::Compare => View::Hparams,
            View::Hparams => View::Distributions,
            View::Distributions => View::Runs,
        }
    }
}

/// Five tabs come back to where they started, and no fewer do.
pub proof fn law_views_cycle(view: View)
    ensures
        view_behind(view_behind(view_behind(view_behind(view_behind(view))))) == view,
        view_behind(view) != view,
        view_behind(view_behind(view)) != view,
        view_behind(view_behind(view_behind(view))) != view,
        view_behind(view_behind(view_behind(view_behind(view)))) != view,
{
}

} // verus!
