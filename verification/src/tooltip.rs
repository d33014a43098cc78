//! The frame's pending hover hint. Hints are asked for while panels are
//! composed, but drawing one at once would let later panels cover it; the
//! slot keeps only the last one asked for (the most specific control under
//! the pointer) until the final layer takes it.

use vstd::prelude::*;

verus! {

/// At most one hover hint waiting for the final layer: its text and where
/// it is anchored.
pub struct TooltipSlot<A> {
    pending: Option<(String, A)>,
}

impl<A> TooltipSlot<A> {
    /// The hint waiting, as text and anchor.
    pub closed spec fn waiting(self) -> Option<(Seq<char>, A)> {
        match self.pending {
            Some((text, anchor)) => Some((text@, anchor)),
            None => None,
        }
    }

    /// A slot with no hint waiting.
    pub fn new() -> (slot: Self)
        ensures
            slot.waiting() is None,
    {
        TooltipSlot { pending: None }
    }

    /// Queue the hint `text` at `anchor`, replacing any hint waiting.
    pub fn queue(&mut self, text: &str, anchor: A)
        ensures
            final(self).waiting() == Some((text@, anchor)),
    {
        self.pending = Some((text.to_string(), anchor));
    }

    /// Take the hint waiting, leaving the slot empty.
    pub fn take(&mut self) -> (r: Option<(String, A)>)
        ensures
            final(self).waiting() is None,
            match r {
                Some((text, anchor)) => old(self).waiting() == Some((text@, anchor)),
                None => old(self).waiting() is None,
            },
    {
        let r = self.pending.take();
        r
    }
}

/// Clear a hint left by a frame that ended before its final layer drew it.
pub fn clear_tooltips<A>(slot: &mut TooltipSlot<A>)
    ensures
        final(slot).waiting() is None,
{
    slot.pending = None;
}

} // verus!
