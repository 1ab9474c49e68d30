//! Diagnostics: a confirmed violation carries a message and a confidence.
//!
//! Confidence is a heuristic probability kept in thousandths: a `prob` of
//! `1000` means the rule's violation is always a genuine error, `700` means
//! it is one seven times out of ten.

use vstd::prelude::*;

verus! {

/// The text of a diagnostic message: borrowed from the rule table or built
/// for the concrete violation.
#[derive(Clone, Debug)]
pub enum Msg {
    Static(&'static str),
    Dynamic(String),
}

/// The characters of a message, whichever way it is stored.
pub open spec fn msg_view(m: Msg) -> Seq<char> {
    match m {
        Msg::Static(s) => s@,
        Msg::Dynamic(s) => s@,
    }
}

/// A confirmed violation. Immutable once created.
#[derive(Clone, Debug)]
pub struct Mistake {
    /// Confidence in thousandths, at most 1000.
    pub prob: u32,
    pub msg: Msg,
}

impl Mistake {
    pub fn new(msg: &'static str, prob: u32) -> (r: Mistake)
        ensures
            r.prob == prob,
            r.msg == Msg::Static(msg),
            msg_view(r.msg) == msg@,
    {
        Mistake { prob, msg: Msg::Static(msg) }
    }

    pub fn new_dyn(msg: String, prob: u32) -> (r: Mistake)
        ensures
            r.prob == prob,
            r.msg == Msg::Dynamic(msg),
            msg_view(r.msg) == msg@,
    {
        Mistake { prob, msg: Msg::Dynamic(msg) }
    }

    pub fn new_dyn_str(msg: &str, prob: u32) -> (r: Mistake)
        ensures
            r.prob == prob,
            r.msg matches Msg::Dynamic(m) && m@ == msg@,
            msg_view(r.msg) == msg@,
    {
        Mistake { prob, msg: Msg::Dynamic(msg.to_owned()) }
    }

    pub fn get_str(&self) -> (r: &str)
        ensures
            r@ == msg_view(self.msg),
    {
        match &self.msg {
            Msg::Dynamic(msg) => msg.as_str(),
            Msg::Static(msg) => msg,
        }
    }
}

/// The mathematical image of one diagnostic `(row, col, mistake)`.
pub ghost struct DiagView {
    pub row: int,
    pub col: int,
    pub msg: Seq<char>,
    pub prob: int,
}

/// The view of one returned diagnostic.
pub open spec fn diag_view(d: (usize, usize, Mistake)) -> DiagView {
    DiagView { row: d.0 as int, col: d.1 as int, msg: msg_view(d.2.msg), prob: d.2.prob as int }
}

/// The views of a list of diagnostics.
pub open spec fn diag_views(ds: Seq<(usize, usize, Mistake)>) -> Seq<DiagView> {
    ds.map_values(|d: (usize, usize, Mistake)| diag_view(d))
}

/// Appending a diagnostic on the right maps through `diag_views`.
pub proof fn lemma_diag_views_push(ds: Seq<(usize, usize, Mistake)>, d: (usize, usize, Mistake))
    ensures
        diag_views(ds.push(d)) =~= diag_views(ds).push(diag_view(d)),
{
}

} // verus!
