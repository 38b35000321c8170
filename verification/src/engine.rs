//! What the script engine decides: where a page goes, when timers run, how events travel and
//! what a location shows.
use crate::text;
use vstd::prelude::*;
use vstd::string::*;

verus! {

/// Somewhere that a script asks to go.
pub enum NavRequest {
    /// To a new entry of the history.
    Assign(String),
    /// In place of the current entry.
    Replace(String),
    Reload,
    /// So many entries forward, or back where negative.
    Go(i32),
}

/// Somewhere to go, over plain values.
pub enum NavView {
    Assign(Seq<char>),
    Replace(Seq<char>),
    Reload,
    Go(int),
}

impl View for NavRequest {
    type V = NavView;

    open spec fn view(&self) -> NavView {
        match self {
            NavRequest::Assign(s) => NavView::Assign(s@),
            NavRequest::Replace(s) => NavView::Replace(s@),
            NavRequest::Reload => NavView::Reload,
            NavRequest::Go(n) => NavView::Go(*n as int),
        }
    }
}

/// What running scripts came to: whether the page's own action is off, and whether the document
/// was changed.
#[derive(Clone, Copy, PartialEq, Eq, Structural, Debug)]
pub struct DispatchResult {
    pub default_prevented: bool,
    pub mutated: bool,
}

impl Default for DispatchResult {
    fn default() -> (r: Self)
        ensures
            r == (DispatchResult { default_prevented: false, mutated: false }),
    {
        DispatchResult { default_prevented: false, mutated: false }
    }
}

/// What running so many callbacks came to, with how many nodes the document had before and
/// after: nothing where there were no callbacks.
pub fn pump_result(callbacks: usize, nodes_before: usize, nodes_after: usize) -> (r: DispatchResult)
    ensures
        r == (DispatchResult {
            default_prevented: false,
            mutated: callbacks > 0 && nodes_before != nodes_after,
        }),
        callbacks == 0 || nodes_before == nodes_after ==> !r.mutated,
        callbacks > 0 && (nodes_before < nodes_after || nodes_after < nodes_before) ==> r.mutated,
{
    DispatchResult { default_prevented: false, mutated: callbacks > 0 && nodes_before != nodes_after }
}

} // verus!
