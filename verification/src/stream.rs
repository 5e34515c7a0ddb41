//! A single-pass cursor over the argument strings.

use vstd::prelude::*;

verus! {

/// The input tokens and the position of the next one to read. Nested parsers
/// share one stream, so each continues where the other stopped.
pub struct ArgStream {
    args: Vec<String>,
    index: usize,
}

impl ArgStream {
    /// The cursor never passes the end of the tokens.
    #[verifier::type_invariant]
    spec fn in_bounds(&self) -> bool {
        self.index <= self.args.len()
    }

    /// All the tokens of the stream, read or not.
    pub closed spec fn tokens(&self) -> Seq<Seq<char>> {
        self.args.deep_view()
    }

    /// The position of the next token to read.
    pub closed spec fn cursor(&self) -> nat {
        self.index as nat
    }

    /// A stream over `args`, positioned at the first of them.
    pub fn new(args: Vec<String>) -> (stream: ArgStream)
        ensures
            stream.tokens() == args.deep_view(),
            stream.cursor() == 0,
    {
        ArgStream { args: args, index: 0 }
    }

    /// Whether a token is left to read.
    pub fn has_next(&self) -> (more: bool)
        ensures
            more == (self.cursor() < self.tokens().len()),
            self.cursor() <= self.tokens().len(),
    {
        proof {
            use_type_invariant(self);
        }
        self.index < self.args.len()
    }

    /// Reads the next token and moves past it.
    pub fn next(&mut self) -> (token: String)
        requires
            old(self).cursor() < old(self).tokens().len(),
        ensures
            token@ == old(self).tokens()[old(self).cursor() as int],
            final(self).tokens() == old(self).tokens(),
            final(self).cursor() == old(self).cursor() + 1,
            final(self).cursor() <= final(self).tokens().len(),
    {
        let len: usize = self.args.len();
        let token = self.args[self.index].clone();
        assert(self.index < len);
        self.index = self.index + 1;
        token
    }
}

} // verus!
