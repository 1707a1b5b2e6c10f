//! A token stream that knows how deep in curly brackets it stands, so
//! that a reader can be held to the scope that it was opened for.

use vstd::prelude::*;

use crate::frontend::tokens::{Tag, Token};

verus! {

/// Where a reader stands: the index of the next token and the number of
/// scopes that are open there.
pub struct Cursor {
    pub pos: int,
    pub depth: int,
}

/// The number of open scopes once a token of the sort `tag` has been read
/// at the depth `depth`.
pub open spec fn depth_after(tag: Tag, depth: int) -> int {
    if tag == Tag::OpenCurly {
        depth + 1
    } else if tag == Tag::CloseCurly {
        depth - 1
    } else {
        depth
    }
}

/// What a reader that is held to the scope of depth `base` reads next at
/// `cur`, and where it stands then. It reads nothing, and stays where it
/// is, once its scope is closed or the tokens have run out; and the curly
/// bracket that closes its scope it takes without handing it on.
pub open spec fn scope_next(tokens: Seq<Token>, cur: Cursor, base: int) -> (Option<Token>, Cursor) {
    if cur.depth < base || cur.pos < 0 || cur.pos >= tokens.len() {
        (None, cur)
    } else {
        let token = tokens[cur.pos];
        let depth = depth_after(token.kind(), cur.depth);
        if depth < base {
            (None, Cursor { pos: cur.pos + 1, depth })
        } else {
            (Some(token), Cursor { pos: cur.pos + 1, depth })
        }
    }
}

/// The tokens of a source with the place up to which they have been read.
pub struct ScopeIter {
    pub tokens: Vec<Token>,
    pub pos: usize,
    pub depth: usize,
}

impl ScopeIter {
    /// Where the stream stands.
    pub open spec fn cursor(&self) -> Cursor {
        Cursor { pos: self.pos as int, depth: self.depth as int }
    }

    /// The stream is within its tokens, and no deeper than it has read
    /// tokens.
    pub open spec fn wf(&self) -> bool {
        self.pos <= self.tokens@.len() && self.depth <= self.pos
    }

    /// A stream at the start of `tokens`, outside any scope.
    pub fn new(tokens: Vec<Token>) -> (stream: Self)
        ensures
            stream.wf(),
            stream.tokens == tokens,
            stream.cursor() == (Cursor { pos: 0, depth: 0 }),
    {
        ScopeIter { tokens, pos: 0, depth: 0 }
    }

    /// The next token, whatever the depth; the depth stays as it is.
    pub fn next_raw(&mut self) -> (token: Option<Token>)
        requires
            old(self).wf(),
        ensures
            final(self).wf(),
            final(self).tokens == old(self).tokens,
            final(self).depth == old(self).depth,
            old(self).pos < old(self).tokens@.len() ==> token == Some(
                old(self).tokens@[old(self).pos as int],
            ) && final(self).pos == old(self).pos + 1,
            old(self).pos >= old(self).tokens@.len() ==> token is None && final(self).pos == old(
                self,
            ).pos,
    {
        if self.pos < self.tokens.len() {
            let token = self.tokens[self.pos].clone();
            self.pos = self.pos + 1;
            Some(token)
        } else {
            None
        }
    }

    /// Opens the outermost scope: from here on the stream counts as one
    /// scope deep.
    pub fn enter(&mut self)
        requires
            old(self).wf(),
            old(self).pos >= 1,
        ensures
            final(self).wf(),
            final(self).tokens == old(self).tokens,
            final(self).pos == old(self).pos,
            final(self).depth == 1,
    {
        self.depth = 1;
    }

    /// The next token for a reader that is held to the scope of depth
    /// `base`.
    pub fn next(&mut self, base: usize) -> (token: Option<Token>)
        requires
            old(self).wf(),
            base >= 1,
        ensures
            final(self).wf(),
            final(self).tokens == old(self).tokens,
            token == scope_next(old(self).tokens@, old(self).cursor(), base as int).0,
            final(self).cursor() == scope_next(old(self).tokens@, old(self).cursor(), base as int).1,
    {
        if self.depth < base || self.pos >= self.tokens.len() {
            return None;
        }
        let tag = self.tokens[self.pos].0.tag();
        let at = self.pos;
        self.pos = self.pos + 1;
        match tag {
            Tag::OpenCurly => {
                self.depth = self.depth + 1;
                Some(self.tokens[at].clone())
            },
            Tag::CloseCurly => {
                self.depth = self.depth - 1;
                if self.depth < base {
                    None
                } else {
                    Some(self.tokens[at].clone())
                }
            },
            _ => Some(self.tokens[at].clone()),
        }
    }
}

} // verus!
