use vstd::prelude::*;

verus! {

/// The open/closed gate controlling whether ballots may be submitted.
///
/// Initialized closed; it transitions only through `open` and `close`, and
/// both are idempotent: re-opening clears the closing stamp, re-closing
/// refreshes it.
#[derive(Clone, Copy, Debug, PartialEq, Eq)]
pub struct VotingWindow {
    pub is_open: bool,
    pub opened_at: Option<i64>,
    pub closed_at: Option<i64>,
}

impl VotingWindow {
    /// A freshly initialized window: closed, with no recorded transitions.
    pub fn new() -> (w: VotingWindow)
        ensures
            !w.is_open,
            w.opened_at is None,
            w.closed_at is None,
    {
        VotingWindow { is_open: false, opened_at: None, closed_at: None }
    }

    /// Opens the window at time `now`; any earlier closing stamp is cleared.
    pub fn open(&mut self, now: i64)
        ensures
            final(self).is_open,
            final(self).opened_at == Some(now),
            final(self).closed_at is None,
    {
        self.is_open = true;
        self.opened_at = Some(now);
        self.closed_at = None;
    }

    /// Closes the window at time `now`, leaving the opening stamp untouched.
    pub fn close(&mut self, now: i64)
        ensures
            !final(self).is_open,
            final(self).opened_at == old(self).opened_at,
            final(self).closed_at == Some(now),
    {
        self.is_open = false;
        self.closed_at = Some(now);
    }
}

} // verus!
