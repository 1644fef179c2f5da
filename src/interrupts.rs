//! The trap table: which handler, if any, each of the 256 trap vectors
//! reaches, and what the processor does when a trap is raised.

use vstd::prelude::*;

verus! {

/// Number of vectors in the table.
pub const TRAP_VECTORS: usize = 256;

/// The vector of the debug breakpoint trap (`int3`).
pub const BREAKPOINT_VECTOR: u8 = 3;

/// Length in bytes of the `int3` instruction.
pub const INT3_LEN: u64 = 1;

/// The handler routines the kernel ships.
#[derive(Clone, Copy, Debug, PartialEq, Eq, Structural)]
pub enum TrapHandler {
    /// Reports the trap context and resumes the interrupted code.
    Breakpoint,
}

/// The state that the processor saves when a trap is raised.
#[derive(Clone, Copy, Debug, PartialEq, Eq, Structural)]
pub struct TrapContext {
    pub instruction_pointer: u64,
    pub code_segment: u64,
    pub cpu_flags: u64,
    pub stack_pointer: u64,
    pub stack_segment: u64,
}

/// What follows a trap.
#[derive(Clone, Copy, Debug, PartialEq, Eq, Structural)]
pub enum TrapOutcome {
    /// A handler ran and returned; execution goes on with this state.
    Resume(TrapContext),
    /// No handler was installed for the vector: the machine halts.
    Fatal,
}

/// `ctx` advanced past the `int3` instruction, all else unchanged.
pub open spec fn after_int3(ctx: TrapContext) -> TrapContext {
    TrapContext {
        instruction_pointer: (ctx.instruction_pointer + INT3_LEN) as u64,
        code_segment: ctx.code_segment,
        cpu_flags: ctx.cpu_flags,
        stack_pointer: ctx.stack_pointer,
        stack_segment: ctx.stack_segment,
    }
}

/// The outcome of raising `vector` at the instruction whose state is `ctx`,
/// with `handlers` installed (`loaded`) or not.
pub open spec fn trap_outcome(
    handlers: Seq<Option<TrapHandler>>,
    loaded: bool,
    vector: u8,
    ctx: TrapContext,
) -> TrapOutcome {
    if loaded && handlers[vector as int] == Some(TrapHandler::Breakpoint) && vector
        == BREAKPOINT_VECTOR {
        TrapOutcome::Resume(after_int3(ctx))
    } else {
        TrapOutcome::Fatal
    }
}

/// The table holding only the breakpoint handler.
pub open spec fn breakpoint_only() -> Seq<Option<TrapHandler>> {
    Seq::new(
        256,
        |v: int|
            if v == BREAKPOINT_VECTOR {
                Some(TrapHandler::Breakpoint)
            } else {
                None
            },
    )
}

pub struct TrapTable {
    entries: Vec<Option<TrapHandler>>,
    loaded: bool,
}

impl TrapTable {
    /// The handler registered at each vector.
    pub closed spec fn handlers(&self) -> Seq<Option<TrapHandler>> {
        self.entries@
    }

    /// Whether the table is the processor's active trap table.
    pub closed spec fn is_loaded(&self) -> bool {
        self.loaded
    }

    pub closed spec fn wf(&self) -> bool {
        self.entries@.len() == 256
    }

    /// A table with every vector empty, not yet loaded.
    pub fn new() -> (t: TrapTable)
        ensures
            t.wf(),
            !t.is_loaded(),
            t.handlers() == Seq::new(256, |v: int| None::<TrapHandler>),
    {
        let mut entries: Vec<Option<TrapHandler>> = Vec::new();
        while entries.len() < TRAP_VECTORS
            invariant
                entries@.len() <= 256,
                forall|j: int| 0 <= j < entries@.len() ==> entries@[j] is None,
            decreases 256 - entries@.len(),
        {
            entries.push(None);
        }
        let t = TrapTable { entries, loaded: false };
        assert(t.handlers() =~= Seq::new(256, |v: int| None::<TrapHandler>));
        t
    }

    /// Installs `handler` at `vector`. The table must not be loaded yet.
    pub fn register(&mut self, vector: u8, handler: TrapHandler)
        requires
            old(self).wf(),
            !old(self).is_loaded(),
        ensures
            final(self).wf(),
            !final(self).is_loaded(),
            final(self).handlers() == old(self).handlers().update(vector as int, Some(handler)),
    {
        self.entries.set(vector as usize, Some(handler));
    }

    /// Makes the table the processor's active trap table; done once.
    pub fn load(&mut self)
        requires
            old(self).wf(),
            !old(self).is_loaded(),
        ensures
            final(self).wf(),
            final(self).is_loaded(),
            final(self).handlers() == old(self).handlers(),
    {
        self.loaded = true;
    }

    /// The handler at `vector`, if one is registered.
    pub fn handler(&self, vector: u8) -> (r: Option<TrapHandler>)
        requires
            self.wf(),
        ensures
            r == self.handlers()[vector as int],
    {
        self.entries[vector as usize]
    }

    pub fn is_active(&self) -> (r: bool)
        ensures
            r == self.is_loaded(),
    {
        self.loaded
    }

    /// What happens when `vector` is raised at the instruction whose state is
    /// `ctx`: a loaded breakpoint handler resumes right after the `int3`
    /// with every other register as it was; anything else is fatal.
    pub fn raise(&self, vector: u8, ctx: TrapContext) -> (r: TrapOutcome)
        requires
            self.wf(),
            ctx.instruction_pointer < u64::MAX,
        ensures
            r == trap_outcome(self.handlers(), self.is_loaded(), vector, ctx),
    {
        if !self.loaded || vector != BREAKPOINT_VECTOR {
            return TrapOutcome::Fatal;
        }
        let entry = self.entries[vector as usize];
        match entry {
            Some(TrapHandler::Breakpoint) => {
                let next = TrapContext {
                    instruction_pointer: ctx.instruction_pointer + INT3_LEN,
                    code_segment: ctx.code_segment,
                    cpu_flags: ctx.cpu_flags,
                    stack_pointer: ctx.stack_pointer,
                    stack_segment: ctx.stack_segment,
                };
                assert(entry == Some(TrapHandler::Breakpoint));
                TrapOutcome::Resume(next)
            },
            None => TrapOutcome::Fatal,
        }
    }
}

/// Builds the kernel's trap table, with the breakpoint handler installed,
/// and loads it.
pub fn init_idt() -> (t: TrapTable)
    ensures
        t.wf(),
        t.is_loaded(),
        t.handlers() == breakpoint_only(),
{
    let mut t = TrapTable::new();
    t.register(BREAKPOINT_VECTOR, TrapHandler::Breakpoint);
    t.load();
    assert(t.handlers() =~= breakpoint_only());
    t
}

/// Breakpoint traps resume: with the table `init_idt` builds, raising the
/// breakpoint vector returns to the instruction right after the `int3` and
/// leaves the other saved registers as they were, while every other vector
/// is fatal.
pub proof fn lemma_breakpoint_resumes(handlers: Seq<Option<TrapHandler>>, ctx: TrapContext, vector: u8)
    requires
        handlers == breakpoint_only(),
        ctx.instruction_pointer < u64::MAX,
    ensures
        trap_outcome(handlers, true, BREAKPOINT_VECTOR, ctx) == TrapOutcome::Resume(after_int3(ctx)),
        after_int3(ctx).instruction_pointer == ctx.instruction_pointer + 1,
        after_int3(ctx).stack_pointer == ctx.stack_pointer,
        after_int3(ctx).cpu_flags == ctx.cpu_flags,
        after_int3(ctx).code_segment == ctx.code_segment,
        after_int3(ctx).stack_segment == ctx.stack_segment,
        vector != BREAKPOINT_VECTOR ==> trap_outcome(handlers, true, vector, ctx) == TrapOutcome::Fatal,
        trap_outcome(handlers, false, vector, ctx) == TrapOutcome::Fatal,
{
}

} // verus!
