use vstd::prelude::*;

use crate::error::Item;
use crate::fuse::FuseOnErr;
use crate::scope::Scope;
use crate::stream_context::{feed_model, initial_context, ContextView, JsonParsingState, StreamContext};
use crate::token::Token;

verus! {

/// Makes any token stream safe for the operators: its tokens follow the JSON
/// grammar, and after its first error it yields nothing more.
pub struct Sanitized {
    fuse: FuseOnErr,
    context: StreamContext,
}

impl Sanitized {
    pub closed spec fn view(&self) -> ContextView {
        self.context.view()
    }

    /// The tokens passed on so far.
    pub closed spec fn history(&self) -> Seq<Token> {
        self.context.history()
    }

    pub closed spec fn wf(&self) -> bool {
        &&& self.context.wf()
        &&& self.fuse.is_done() ==> self.context.view().state == JsonParsingState::Finished
    }

    pub fn new() -> (r: Sanitized)
        ensures
            r.wf(),
            r.view() == initial_context(),
            r.history() == Seq::<Token>::empty(),
    {
        Sanitized { fuse: FuseOnErr::new(), context: StreamContext::new() }
    }

    /// The structural path before the next token.
    pub fn get_path(&self) -> (r: &Vec<Scope>)
        ensures
            r@ == self.view().path,
    {
        self.context.get_path()
    }

    pub fn state(&self) -> (r: JsonParsingState)
        ensures
            r == self.view().state,
    {
        self.context.state()
    }

    /// One pull of the upstream (`None`: it ended) through the fuse and the
    /// validator.
    pub fn feed(&mut self, item: Option<Item>) -> (r: Option<Item>)
        requires
            old(self).wf(),
        ensures
            final(self).wf(),
            (final(self).view(), r) == feed_model(old(self).view(), item),
            r matches Some(Ok(t)) ==> final(self).history() == old(self).history().push(t),
            !(r is Some && r.unwrap() is Ok) ==> final(self).history() == old(self).history(),
    {
        let passed = self.fuse.filter(item);
        self.context.feed(passed)
    }
}

} // verus!
