//! Errors of the orchestrator core.
//!
//! All of these are configuration errors: they are found while resolving the
//! configuration layers or while building the dependency graph, before any
//! execution starts. Script failures during a run are not errors of this
//! kind; they are per-node results reported by the scheduler.

use vstd::prelude::*;

verus! {

/// A fatal configuration error.
#[derive(Debug)]
pub enum Error {
    /// A service step names a step that the project configuration lacks.
    MissingStep { name: String },
    /// A service references recipes that have not been loaded.
    MissingRecipes { names: Vec<String> },
    /// A node depends on an identifier that names no known node.
    MissingDependency { name: String },
    /// Two resolved nodes carry the same identifier.
    DuplicateNode { name: String },
    /// The dependency relation contains a cycle; every named node has one of
    /// its dependencies among the named nodes.
    DependencyCycle { names: Vec<String> },
}

/// Mathematical model of an [`Error`].
pub enum ErrorView {
    MissingStep { name: Seq<char> },
    MissingRecipes { names: Seq<Seq<char>> },
    MissingDependency { name: Seq<char> },
    DuplicateNode { name: Seq<char> },
    DependencyCycle { names: Seq<Seq<char>> },
}

impl View for Error {
    type V = ErrorView;

    open spec fn view(&self) -> ErrorView {
        match self {
            Error::MissingStep { name } => (ErrorView::MissingStep { name: name@ }),
            Error::MissingRecipes { names } => (ErrorView::MissingRecipes {
                names: names.deep_view(),
            }),
            Error::MissingDependency { name } => (ErrorView::MissingDependency { name: name@ }),
            Error::DuplicateNode { name } => (ErrorView::DuplicateNode { name: name@ }),
            Error::DependencyCycle { names } => (ErrorView::DependencyCycle {
                names: names.deep_view(),
            }),
        }
    }
}

} // verus!
