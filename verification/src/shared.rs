use std::collections::HashMap;
use vstd::prelude::*;
use crate::ast::{FuncId, Program};
use crate::ir::function::FunctionId;

verus! {

/// What all translators of one program have in common: which functions of
/// the surface program have been given an identity in the representation,
/// and which of them still wait to be translated.
///
/// The pass pops a waiting function, translates it, which may make further
/// functions known, and goes on until nothing waits.
///
/// The value itself is plain data. Where several translators run side by
/// side, each call is made while holding a lock around the whole value, so
/// that looking a function up and making it known happen as one step.
pub struct SharedContext {
    /// The identity of every known function, by the number of the surface
    /// function. These functions are being translated or are finished.
    pub functions: HashMap<u32, FunctionId>,
    /// The functions that wait to be translated. The last to come is the
    /// first to go; the order decides only which identity goes to which
    /// function.
    pub function_queue: Vec<(FuncId, FunctionId)>,
    /// The number of the next identity to give out.
    pub function_counter: usize,
    /// The entire surface program.
    pub program: Program,
}

/// The mathematical value of a [`SharedContext`], without the program.
pub struct SharedView {
    pub functions: Map<u32, FunctionId>,
    pub queue: Seq<(FuncId, FunctionId)>,
    pub counter: usize,
}

impl SharedView {
    /// The state before any function is known.
    pub open spec fn new() -> SharedView {
        SharedView { functions: Map::empty(), queue: Seq::empty(), counter: 0 }
    }

    /// Every identity given out is below the counter, no identity was given
    /// to two functions, every waiting function is known under the identity
    /// it waits with, and no function waits twice.
    pub open spec fn wf(self) -> bool {
        &&& forall|id: u32| self.functions.contains_key(id) ==> (#[trigger] self.functions[id]).0
            < self.counter
        &&& forall|a: u32, b: u32|
            self.functions.contains_key(a) && self.functions.contains_key(b) && a != b
                ==> #[trigger] self.functions[a] != #[trigger] self.functions[b]
        &&& forall|i: int|
            0 <= i < self.queue.len() ==> self.functions.contains_key(
                (#[trigger] self.queue[i]).0.0,
            ) && self.functions[self.queue[i].0.0] == self.queue[i].1
        &&& forall|i: int, j: int|
            0 <= i < j < self.queue.len() ==> (#[trigger] self.queue[i]).0 != (
            #[trigger] self.queue[j]).0
    }

    /// Whether the function already has an identity.
    pub open spec fn knows(self, id: FuncId) -> bool {
        self.functions.contains_key(id.0)
    }

    /// The identity of a function, and the state after asking for it: a
    /// known function keeps its identity and nothing changes; an unknown one
    /// gets the next identity, becomes known and waits to be translated.
    pub open spec fn get_or_queue(self, id: FuncId) -> (SharedView, FunctionId) {
        if self.knows(id) {
            (self, self.functions[id.0])
        } else {
            let next = FunctionId(self.counter);
            (
                SharedView {
                    functions: self.functions.insert(id.0, next),
                    queue: self.queue.push((id, next)),
                    counter: (self.counter + 1) as usize,
                },
                next,
            )
        }
    }

    /// The function that is handed out next, if one waits, and the state
    /// after handing it out.
    pub open spec fn pop(self) -> (SharedView, Option<(FuncId, FunctionId)>) {
        if self.queue.len() == 0 {
            (self, None)
        } else {
            (SharedView { queue: self.queue.drop_last(), ..self }, Some(self.queue.last()))
        }
    }

    /// The state after handing out `count` times.
    pub open spec fn pop_times(self, count: nat) -> SharedView
        decreases count,
    {
        if count == 0 {
            self
        } else {
            self.pop_times((count - 1) as nat).pop().0
        }
    }
}

impl View for SharedContext {
    type V = SharedView;

    open spec fn view(&self) -> SharedView {
        SharedView {
            functions: self.functions@,
            queue: self.function_queue@,
            counter: self.function_counter,
        }
    }
}

/// Asking twice for the same function gives the same identity both times,
/// and the second asking changes nothing: the function waits once, not
/// twice.
pub proof fn lemma_get_or_queue_is_idempotent(state: SharedView, id: FuncId)
    requires
        state.wf(),
        state.counter < usize::MAX,
    ensures
        state.get_or_queue(id).0.wf(),
        state.get_or_queue(id).0.knows(id),
        state.get_or_queue(id).0.get_or_queue(id).1 == state.get_or_queue(id).1,
        state.get_or_queue(id).0.get_or_queue(id).0 == state.get_or_queue(id).0,
        !state.knows(id) ==> state.get_or_queue(id).0.queue == state.queue.push(
            (id, state.get_or_queue(id).1),
        ),
        state.knows(id) ==> state.get_or_queue(id).0.queue == state.queue,
{
    let after = state.get_or_queue(id).0;
    if !state.knows(id) {
        assert forall|i: int| 0 <= i < after.queue.len() implies after.functions.contains_key(
            (#[trigger] after.queue[i]).0.0,
        ) && after.functions[after.queue[i].0.0] == after.queue[i].1 by {
            if i < state.queue.len() {
                assert(after.queue[i] == state.queue[i]);
            }
        }
        assert forall|i: int, j: int| 0 <= i < j < after.queue.len() implies (
        #[trigger] after.queue[i]).0 != (#[trigger] after.queue[j]).0 by {
            assert(after.queue[i] == state.queue[i]);
            if j < state.queue.len() {
                assert(after.queue[j] == state.queue[j]);
            }
        }
    }
}

/// Two different functions never get the same identity.
pub proof fn lemma_identities_are_unique(state: SharedView, first: FuncId, second: FuncId)
    requires
        state.wf(),
        state.counter < usize::MAX - 1,
        first != second,
    ensures
        state.get_or_queue(first).1 != state.get_or_queue(first).0.get_or_queue(second).1,
{
    lemma_get_or_queue_is_idempotent(state, first);
}

/// Handing out as often as functions wait hands out a function each time
/// and leaves nothing waiting; after that nothing is handed out. This holds
/// of every queue, whatever the order in which the functions came.
pub proof fn lemma_pop_drains(state: SharedView, count: nat)
    requires
        count <= state.queue.len(),
    ensures
        state.pop_times(count).queue == state.queue.take(state.queue.len() - count),
        state.pop_times(count).functions == state.functions,
        count < state.queue.len() ==> state.pop_times(count).pop().1 is Some,
        count == state.queue.len() ==> state.pop_times(count).queue.len() == 0,
        count == state.queue.len() ==> state.pop_times(count).pop().1 is None,
        count == state.queue.len() ==> state.pop_times(count).pop().0 == state.pop_times(count),
    decreases count,
{
    if count == 0 {
        assert(state.queue.take(state.queue.len() as int) =~= state.queue);
    } else {
        lemma_pop_drains(state, (count - 1) as nat);
        let before = state.pop_times((count - 1) as nat);
        assert(before.queue.drop_last() =~= state.queue.take(state.queue.len() - count));
    }
}

impl SharedContext {
    /// Creates the shared state for the given program: no function is known
    /// and none waits.
    pub fn new(program: Program) -> (shared: SharedContext)
        ensures
            shared@ == SharedView::new(),
            shared@.wf(),
            shared.program == program,
    {
        SharedContext {
            functions: HashMap::new(),
            function_queue: Vec::new(),
            function_counter: 0,
            program,
        }
    }

    /// Pops the next function from the queue, or returns `None` if none
    /// waits.
    pub fn pop_next_function_in_queue(&mut self) -> (next: Option<(FuncId, FunctionId)>)
        requires
            old(self)@.wf(),
        ensures
            final(self)@ == old(self)@.pop().0,
            next == old(self)@.pop().1,
            next is Some <==> old(self)@.queue.len() > 0,
            final(self)@.wf(),
            final(self).program == old(self).program,
    {
        let next = self.function_queue.pop();
        proof {
            assert forall|i: int| 0 <= i < self@.queue.len() implies self@.functions.contains_key(
                (#[trigger] self@.queue[i]).0.0,
            ) && self@.functions[self@.queue[i].0.0] == self@.queue[i].1 by {
                assert(self@.queue[i] == old(self)@.queue[i]);
            }
            assert forall|i: int, j: int| 0 <= i < j < self@.queue.len() implies (
            #[trigger] self@.queue[i]).0 != (#[trigger] self@.queue[j]).0 by {
                assert(self@.queue[i] == old(self)@.queue[i]);
                assert(self@.queue[j] == old(self)@.queue[j]);
            }
        }
        next
    }

    /// Returns the identity of the given function. If the function is not
    /// known yet, it is given a new identity and added to the queue of
    /// functions to translate.
    pub fn get_or_queue_function(&mut self, id: FuncId) -> (function: FunctionId)
        requires
            old(self)@.wf(),
            old(self)@.knows(id) || old(self)@.counter < usize::MAX,
        ensures
            final(self)@ == old(self)@.get_or_queue(id).0,
            function == old(self)@.get_or_queue(id).1,
            final(self)@.wf(),
            final(self)@.knows(id),
            final(self).program == old(self).program,
    {
        broadcast use vstd::std_specs::hash::group_hash_axioms;

        match self.functions.get(&id.0) {
            Some(existing) => {
                return *existing;
            },
            None => {},
        }
        let next_id = FunctionId(self.function_counter);
        self.function_counter = self.function_counter + 1;
        self.function_queue.push((id, next_id));
        self.functions.insert(id.0, next_id);
        proof {
            let after = self@;
            let state = old(self)@;
            assert(after.functions =~= state.functions.insert(id.0, next_id));
            assert forall|i: int| 0 <= i < after.queue.len() implies after.functions.contains_key(
                (#[trigger] after.queue[i]).0.0,
            ) && after.functions[after.queue[i].0.0] == after.queue[i].1 by {
                if i < state.queue.len() {
                    assert(after.queue[i] == state.queue[i]);
                }
            }
            assert forall|i: int, j: int| 0 <= i < j < after.queue.len() implies (
            #[trigger] after.queue[i]).0 != (#[trigger] after.queue[j]).0 by {
                assert(after.queue[i] == state.queue[i]);
                if j < state.queue.len() {
                    assert(after.queue[j] == state.queue[j]);
                }
            }
        }
        next_id
    }

    /// The number of functions that wait to be translated.
    pub fn pending(&self) -> (count: usize)
        ensures
            count == self@.queue.len(),
    {
        self.function_queue.len()
    }
}

} // verus!
