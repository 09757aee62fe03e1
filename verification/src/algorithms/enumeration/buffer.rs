//! The buffers that decide in which order an enumeration visits the
//! vertices that it has found: a queue for breadth first, a stack for
//! depth first.

use crate::graph::VertexId;
use std::collections::VecDeque;
use vstd::prelude::*;

verus! {

/// A buffer of vertices that are waiting for their visit.
pub trait Buffer<'a>: Sized {
    /// The vertices in the buffer, in the order in which they were pushed.
    spec fn items(&self) -> Seq<VertexId>;

    /// Whether `pop` takes the vertex that was pushed last; otherwise it
    /// takes the one that was pushed first.
    spec fn takes_newest() -> bool;

    /// The empty buffer.
    fn new() -> (buffer: Self)
        ensures
            buffer.items() == Seq::<VertexId>::empty(),
    ;

    /// The buffer that holds `vertex` alone.
    fn start(vertex: &'a VertexId) -> (buffer: Self)
        ensures
            buffer.items() == seq![*vertex],
    ;

    /// Puts `vertex` into the buffer.
    fn push(&mut self, vertex: &'a VertexId)
        ensures
            final(self).items() == old(self).items().push(*vertex),
    ;

    /// Takes the next vertex out of the buffer; `None` if it is empty.
    fn pop(&mut self) -> (vertex: Option<&'a VertexId>)
        ensures
            vertex == next_of(old(self).items(), Self::takes_newest()),
            final(self).items() == rest_of(old(self).items(), Self::takes_newest()),
    ;
}

/// The vertex that leaves a buffer with the given items next.
pub open spec fn next_of(items: Seq<VertexId>, newest: bool) -> Option<&'static VertexId> {
    if items.len() == 0 {
        None
    } else if newest {
        Some(&items.last())
    } else {
        Some(&items[0])
    }
}

/// What stays in a buffer with the given items after the next vertex left.
pub open spec fn rest_of(items: Seq<VertexId>, newest: bool) -> Seq<VertexId> {
    if items.len() == 0 {
        items
    } else if newest {
        items.drop_last()
    } else {
        items.drop_first()
    }
}

/// First in, first out.
pub struct Queue<'a>(VecDeque<&'a VertexId>);

impl<'a> Buffer<'a> for Queue<'a> {
    closed spec fn items(&self) -> Seq<VertexId> {
        Seq::new(self.0@.len(), |i: int| *self.0@[self.0@.len() - 1 - i])
    }

    open spec fn takes_newest() -> bool {
        false
    }

    fn new() -> (buffer: Self) {
        let buffer = Self(VecDeque::new());
        assert(buffer.items() =~= Seq::<VertexId>::empty());
        buffer
    }

    fn start(vertex: &'a VertexId) -> (buffer: Self) {
        let mut queue = VecDeque::new();
        queue.push_front(vertex);
        let buffer = Self(queue);
        assert(buffer.items() =~= seq![*vertex]);
        buffer
    }

    fn push(&mut self, vertex: &'a VertexId) {
        self.0.push_front(vertex);
        assert(self.items() =~= old(self).items().push(*vertex));
    }

    fn pop(&mut self) -> (vertex: Option<&'a VertexId>) {
        let vertex = self.0.pop_back();
        assert(self.items() =~= rest_of(old(self).items(), false));
        vertex
    }
}

/// Last in, first out.
pub struct Stack<'a>(Vec<&'a VertexId>);

impl<'a> Buffer<'a> for Stack<'a> {
    closed spec fn items(&self) -> Seq<VertexId> {
        Seq::new(self.0@.len(), |i: int| *self.0@[i])
    }

    open spec fn takes_newest() -> bool {
        true
    }

    fn new() -> (buffer: Self) {
        let buffer = Self(Vec::new());
        assert(buffer.items() =~= Seq::<VertexId>::empty());
        buffer
    }

    fn start(vertex: &'a VertexId) -> (buffer: Self) {
        let mut stack = Vec::new();
        stack.push(vertex);
        let buffer = Self(stack);
        assert(buffer.items() =~= seq![*vertex]);
        buffer
    }

    fn push(&mut self, vertex: &'a VertexId) {
        self.0.push(vertex);
        assert(self.items() =~= old(self).items().push(*vertex));
    }

    fn pop(&mut self) -> (vertex: Option<&'a VertexId>) {
        let vertex = self.0.pop();
        assert(self.items() =~= rest_of(old(self).items(), true));
        vertex
    }
}

} // verus!
