use vstd::prelude::*;

use crate::error::Item;

verus! {

/// Ends a stream for good at its first error or at its end.
pub struct FuseOnErr {
    done: bool,
}

impl FuseOnErr {
    pub closed spec fn is_done(&self) -> bool {
        self.done
    }

    pub fn new() -> (r: FuseOnErr)
        ensures
            !r.is_done(),
    {
        FuseOnErr { done: false }
    }

    /// Passes one pull of the upstream on, unless the stream already ended.
    pub fn filter(&mut self, item: Option<Item>) -> (r: Option<Item>)
        ensures
            old(self).is_done() ==> r is None && final(self).is_done(),
            !old(self).is_done() ==> r == item,
            final(self).is_done() == (old(self).is_done() || item is None || item.unwrap() is Err),
    {
        if self.done {
            return None;
        }
        match item {
            None => {
                self.done = true;
                None
            },
            Some(Err(e)) => {
                self.done = true;
                Some(Err(e))
            },
            Some(Ok(t)) => Some(Ok(t)),
        }
    }
}

} // verus!
