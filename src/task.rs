//! Saved kernel context of a thread and its scheduling state.
use vstd::prelude::*;

verus! {

/// Scheduling state of a thread.
#[derive(Copy, Clone, PartialEq, Eq, Structural)]
pub enum TaskStatus {
    Ready,
    Running,
    Blocking,
}

/// Registers saved when a thread is switched out: return address, stack pointer and the
/// twelve callee-saved registers.
pub struct TaskContext {
    ra: usize,
    sp: usize,
    s: [usize; 12],
}

impl TaskContext {
    pub closed spec fn spec_ra(&self) -> usize {
        self.ra
    }

    pub closed spec fn spec_sp(&self) -> usize {
        self.sp
    }

    pub closed spec fn spec_saved(&self) -> Seq<usize> {
        self.s@
    }

    /// A context with every register zero.
    pub fn zero_init() -> (r: Self)
        ensures
            r.spec_ra() == 0,
            r.spec_sp() == 0,
            r.spec_saved() == Seq::new(12, |i: int| 0usize),
    {
        let r = Self { ra: 0, sp: 0, s: [0usize; 12] };
        assert(r.spec_saved() =~= Seq::new(12, |i: int| 0usize));
        r
    }

    /// A context that resumes at `trap_return` on the kernel stack whose top is `kstack_ptr`.
    pub fn goto_trap_return(trap_return: usize, kstack_ptr: usize) -> (r: Self)
        ensures
            r.spec_ra() == trap_return,
            r.spec_sp() == kstack_ptr,
            r.spec_saved() == Seq::new(12, |i: int| 0usize),
    {
        let r = Self { ra: trap_return, sp: kstack_ptr, s: [0usize; 12] };
        assert(r.spec_saved() =~= Seq::new(12, |i: int| 0usize));
        r
    }

    /// The saved return address.
    pub fn ra(&self) -> (r: usize)
        ensures
            r == self.spec_ra(),
    {
        self.ra
    }

    /// The saved stack pointer.
    pub fn sp(&self) -> (r: usize)
        ensures
            r == self.spec_sp(),
    {
        self.sp
    }
}

} // verus!
