//! Cooperative scheduler: a FIFO queue of runnable processes, the running
//! process, and the process displaced by the last switch.

use vstd::prelude::*;

use std::collections::VecDeque;

use crate::page::{
    free_outcome, has_free_run, lemma_run_in_region, AllocError, PageAllocator,
};
use crate::process::{
    fresh_process, start_context, CpuContext, Process, ProcessState, KERNEL_STACK_PAGES,
    KERNEL_STACK_SIZE,
};

verus! {

/// Why the scheduler could not act.
#[derive(Debug, Clone, Copy, PartialEq, Eq, Structural)]
pub enum SchedulerError {
    /// `init` has not run: there is no running process to yield from.
    NotInitialized,
    /// There is no running process to end.
    NoCurrentProcess,
}

/// A register-context switch for the caller to carry out: save the
/// registers into the previous process's context and load those of the
/// running one.
#[derive(Debug, Clone, Copy, PartialEq, Eq, Structural)]
pub struct ContextSwitch {
    pub from: u32,
    pub to: u32,
}

/// What is known of a process for diagnostics.
#[derive(Debug, Clone, Copy, PartialEq, Eq, Structural)]
pub struct ProcessInfo {
    pub pid: u32,
    pub state: ProcessState,
    pub stack_pointer: usize,
}

impl ProcessInfo {
    pub fn from(process: &Process) -> (r: Self)
        ensures
            r.pid == process.pid,
            r.state == process.state,
            r.stack_pointer == process.context.sp,
    {
        ProcessInfo { pid: process.pid, state: process.state, stack_pointer: process.context.sp }
    }
}

/// The queue after the previously running process goes back to its end,
/// which it does only while it is runnable.
pub open spec fn requeue(queue: Seq<Process>, previous: Option<Process>) -> Seq<Process> {
    match previous {
        Some(p) => if p.state == ProcessState::Runnable {
            queue.push(p)
        } else {
            queue
        },
        None => queue,
    }
}

/// The descriptors after the stack of a previously running process that has
/// exited goes back to the allocator; a stack the allocator refuses stays,
/// and so does the idle stack that idle processes (pid 0) share.
pub open spec fn pages_after_release(alloc: &PageAllocator, previous: Option<Process>) -> Seq<u8> {
    match previous {
        Some(p) => if p.state == ProcessState::Exited && p.pid != 0 {
            match free_outcome(alloc.pages(), alloc.index_of(p.kernel_stack as int)) {
                Ok(after) => after,
                Err(_) => alloc.pages(),
            }
        } else {
            alloc.pages()
        },
        None => alloc.pages(),
    }
}

/// Owns the processes and decides which one runs next.
pub struct Scheduler {
    processes: VecDeque<Process>,
    next_proc_id: u32,
    current_running: Option<Process>,
    previously_running: Option<Process>,
    idle_entry: usize,
    idle_stack: usize,
}

impl Scheduler {
    /// The runnable processes, first to run first.
    pub closed spec fn queue(&self) -> Seq<Process> {
        self.processes@
    }

    /// The running process; none before `init`.
    pub closed spec fn current(&self) -> Option<Process> {
        self.current_running
    }

    /// The process the last switch displaced, kept until the next switch.
    pub closed spec fn previous(&self) -> Option<Process> {
        self.previously_running
    }

    /// The id the next scheduled process gets.
    pub closed spec fn next_pid(&self) -> u32 {
        self.next_proc_id
    }

    /// Where an idle process starts.
    pub closed spec fn idle_entry_point(&self) -> usize {
        self.idle_entry
    }

    /// The stack every idle process runs on.
    pub closed spec fn idle_stack_base(&self) -> usize {
        self.idle_stack
    }

    /// A fresh idle process.
    pub open spec fn idle_process(&self) -> Process {
        fresh_process(0, ProcessState::KernelReserved, self.idle_entry_point(), self.idle_stack_base())
    }

    /// The processes other than idle ones (pid 0) have distinct ids below
    /// the next id: the queued ones, the running one and the previous one.
    pub open spec fn pids_unique(&self) -> bool {
        &&& forall|i: int|
            0 <= i < self.queue().len() ==> 0 < (#[trigger] self.queue()[i]).pid < self.next_pid()
        &&& forall|i: int, j: int|
            0 <= i < j < self.queue().len() ==> (#[trigger] self.queue()[i]).pid != (
            #[trigger] self.queue()[j]).pid
        &&& self.current() matches Some(c) ==> {
            &&& c.pid < self.next_pid()
            &&& c.state == ProcessState::Runnable ==> c.pid != 0
            &&& forall|i: int| 0 <= i < self.queue().len() ==> (#[trigger] self.queue()[i]).pid != c.pid
        }
        &&& self.previous() matches Some(p) ==> {
            &&& p.pid < self.next_pid()
            &&& p.state == ProcessState::Runnable ==> p.pid != 0
            &&& forall|i: int| 0 <= i < self.queue().len() ==> (#[trigger] self.queue()[i]).pid != p.pid
            &&& p.pid != 0 && self.current() is Some ==> self.current()->Some_0.pid != p.pid
        }
    }

    /// Only runnable processes wait in the queue.
    pub open spec fn wf(&self) -> bool {
        &&& self.pids_unique()
        &&& self.idle_stack_base() + KERNEL_STACK_SIZE <= usize::MAX
        &&& self.idle_stack_base() % 16 == 0
        &&& self.next_pid() >= 1
        &&& forall|i: int|
            0 <= i < self.queue().len() ==> (#[trigger] self.queue()[i]).state
                == ProcessState::Runnable
    }

    /// `after` and `alloc_after` are what one yield from `current` makes of
    /// the scheduler parts `queue` and `previous` and of `alloc_before`, and
    /// `switch` is the switch it asks for.
    pub open spec fn yield_step(
        &self,
        queue: Seq<Process>,
        current: Process,
        previous: Option<Process>,
        after: &Scheduler,
        alloc_before: &PageAllocator,
        alloc_after: &PageAllocator,
        switch: Option<ContextSwitch>,
    ) -> bool {
        let q = requeue(queue, previous);
        &&& after.next_pid() == self.next_pid()
        &&& after.idle_entry_point() == self.idle_entry_point()
        &&& after.idle_stack_base() == self.idle_stack_base()
        &&& alloc_after.pages() == pages_after_release(alloc_before, previous)
        &&& alloc_after.heap_base() == alloc_before.heap_base()
        &&& alloc_after.alloc_base() == alloc_before.alloc_base()
        &&& alloc_after.bytes() == alloc_before.bytes()
        &&& if q.len() > 0 {
            &&& after.current() == Some(q[0])
            &&& after.queue() == q.drop_first()
            &&& after.previous() == Some(current)
            &&& switch == Some(ContextSwitch { from: current.pid, to: q[0].pid })
        } else if current.state == ProcessState::Runnable {
            &&& after.current() == Some(current)
            &&& after.queue() == q
            &&& after.previous() is None
            &&& switch is None
        } else {
            &&& after.current() == Some(self.idle_process())
            &&& after.queue() == q
            &&& after.previous() == Some(current)
            &&& switch == Some(ContextSwitch { from: current.pid, to: 0 })
        }
    }

    /// A scheduler with no processes; `init` must run before any yield.
    pub fn new() -> (r: Self)
        ensures
            r.wf(),
            r.queue().len() == 0,
            r.current() is None,
            r.previous() is None,
            r.next_pid() == 1,
    {
        let processes: VecDeque<Process> = VecDeque::new();
        Scheduler {
            processes,
            next_proc_id: 1,
            current_running: None,
            previously_running: None,
            idle_entry: 0,
            idle_stack: 0,
        }
    }

    /// Sets `proc` up to enter `entry_point` on its own stack, with the
    /// stack pointer one past the end of that stack.
    fn init_process(proc: &mut Process, entry_point: usize)
        requires
            old(proc).kernel_stack + KERNEL_STACK_SIZE <= usize::MAX,
        ensures
            final(proc).pid == old(proc).pid,
            final(proc).state == old(proc).state,
            final(proc).kernel_stack == old(proc).kernel_stack,
            final(proc).context == start_context(
                entry_point,
                (old(proc).kernel_stack + KERNEL_STACK_SIZE) as usize,
            ),
    {
        let sp = proc.kernel_stack + KERNEL_STACK_SIZE;
        proc.context = CpuContext::default();
        proc.context.sp = sp;
        proc.context.ra = entry_point;
    }

    /// A fresh idle process on the idle stack.
    fn create_idle_process(&self) -> (r: Process)
        requires
            self.idle_stack + KERNEL_STACK_SIZE <= usize::MAX,
        ensures
            r == self.idle_process(),
    {
        let mut idle_process = Process {
            pid: 0,
            state: ProcessState::KernelReserved,
            context: CpuContext::default(),
            kernel_stack: self.idle_stack,
        };
        Self::init_process(&mut idle_process, self.idle_entry);
        idle_process
    }

    /// Takes a stack for idle processes from `alloc` and makes a fresh idle
    /// process, which starts at `idle_entry`, the running one.
    pub fn init(&mut self, alloc: &mut PageAllocator, idle_entry: usize) -> (r: Result<
        (),
        AllocError,
    >)
        requires
            old(self).wf(),
            old(alloc).wf(),
        ensures
            final(self).wf(),
            final(alloc).wf(),
            r is Ok <==> has_free_run(old(alloc).pages(), KERNEL_STACK_PAGES as int),
            r is Ok ==> {
                &&& old(alloc).took_run(
                    final(alloc),
                    KERNEL_STACK_PAGES as int,
                    final(self).idle_stack_base() as int,
                )
                &&& final(alloc).bytes() == old(alloc).bytes()
                &&& final(self).idle_entry_point() == idle_entry
                &&& final(self).current() == Some(final(self).idle_process())
                &&& final(self).queue() == old(self).queue()
                &&& final(self).previous() == old(self).previous()
                &&& final(self).next_pid() == old(self).next_pid()
            },
            r is Err ==> *final(self) == *old(self) && *final(alloc) == *old(alloc),
    {
        let stack = match alloc.alloc_pages(KERNEL_STACK_PAGES) {
            Ok(addr) => addr,
            Err(e) => {
                return Err(e);
            },
        };
        proof {
            lemma_run_in_region(*old(alloc), *alloc, KERNEL_STACK_PAGES as int, stack as int);
            assert(stack % 16 == 0) by (nonlinear_arith)
                requires
                    stack % 4096 == 0,
            ;
        }
        self.idle_entry = idle_entry;
        self.idle_stack = stack;
        let idle = self.create_idle_process();
        self.current_running = Some(idle);
        Ok(())
    }

    /// Makes a runnable process that starts at `entry_point` on a fresh stack
    /// from `alloc` and puts it at the end of the queue.
    pub fn schedule_process(&mut self, alloc: &mut PageAllocator, entry_point: usize) -> (r:
        Result<ProcessInfo, AllocError>)
        requires
            old(self).wf(),
            old(alloc).wf(),
            old(self).next_pid() < u32::MAX,
        ensures
            final(self).wf(),
            final(alloc).wf(),
            r is Ok <==> has_free_run(old(alloc).pages(), KERNEL_STACK_PAGES as int),
            r matches Ok(info) ==> {
                let p = final(self).queue().last();
                &&& final(self).queue() == old(self).queue().push(p)
                &&& p == fresh_process(
                    old(self).next_pid(),
                    ProcessState::Runnable,
                    entry_point,
                    p.kernel_stack,
                )
                &&& old(alloc).took_run(final(alloc), KERNEL_STACK_PAGES as int, p.kernel_stack as int)
                &&& final(alloc).bytes() == old(alloc).bytes()
                &&& info == ProcessInfo {
                    pid: p.pid,
                    state: ProcessState::Runnable,
                    stack_pointer: p.context.sp,
                }
                &&& info.stack_pointer % 16 == 0
                &&& final(self).next_pid() == old(self).next_pid() + 1
                &&& final(self).current() == old(self).current()
                &&& final(self).previous() == old(self).previous()
                &&& final(self).idle_entry_point() == old(self).idle_entry_point()
                &&& final(self).idle_stack_base() == old(self).idle_stack_base()
            },
            r is Err ==> *final(self) == *old(self) && *final(alloc) == *old(alloc),
    {
        let stack = match alloc.alloc_pages(KERNEL_STACK_PAGES) {
            Ok(addr) => addr,
            Err(e) => {
                return Err(e);
            },
        };
        proof {
            lemma_run_in_region(*old(alloc), *alloc, KERNEL_STACK_PAGES as int, stack as int);
            assert((stack + KERNEL_STACK_SIZE) % 16 == 0) by (nonlinear_arith)
                requires
                    stack % 4096 == 0,
            ;
        }
        let mut new_proc = Process {
            pid: self.next_proc_id,
            state: ProcessState::Runnable,
            context: CpuContext::default(),
            kernel_stack: stack,
        };
        Self::init_process(&mut new_proc, entry_point);
        self.next_proc_id = self.next_proc_id + 1;
        self.processes.push_back(new_proc);
        assert(self.queue().last() == new_proc);
        Ok(ProcessInfo::from(&new_proc))
    }

    /// The point where a process gives up the processor. A previously running
    /// process that is still runnable goes back to the end of the queue and
    /// one that has exited gives its stack back; the running process becomes
    /// the previous one and the head of the queue runs next. With the queue
    /// empty, a running process that is still runnable simply goes on, and
    /// otherwise a fresh idle process runs. Returns the switch to carry out,
    /// none when the same process goes on.
    pub fn yield_control(&mut self, alloc: &mut PageAllocator) -> (r: Result<
        Option<ContextSwitch>,
        SchedulerError,
    >)
        requires
            old(self).wf(),
            old(alloc).wf(),
        ensures
            final(self).wf(),
            final(alloc).wf(),
            old(self).current() is None ==> r == Err::<Option<ContextSwitch>, SchedulerError>(
                SchedulerError::NotInitialized,
            ) && *final(self) == *old(self) && *final(alloc) == *old(alloc),
            old(self).current() is Some ==> r is Ok && old(self).yield_step(
                old(self).queue(),
                old(self).current()->Some_0,
                old(self).previous(),
                final(self),
                old(alloc),
                final(alloc),
                r->Ok_0,
            ),
    {
        let current = match self.current_running {
            None => {
                return Err(SchedulerError::NotInitialized);
            },
            Some(p) => p,
        };
        let ghost queue = self.queue();
        match self.previously_running {
            Some(prev) => {
                if prev.state == ProcessState::Runnable {
                    self.processes.push_back(prev);
                } else if prev.state == ProcessState::Exited && prev.pid != 0 {
                    let _ = alloc.dealloc(prev.kernel_stack);
                }
            },
            None => {},
        }
        self.previously_running = None;
        assert(self.queue() == requeue(queue, old(self).previous()));
        self.previously_running = Some(current);
        self.current_running = None;
        match self.processes.pop_front() {
            Some(next) => {
                self.current_running = Some(next);
                proof {
                    assert(self.queue() =~= requeue(queue, old(self).previous()).drop_first());
                }
                Ok(Some(ContextSwitch { from: current.pid, to: next.pid }))
            },
            None => {
                if current.state == ProcessState::Runnable {
                    self.previously_running = None;
                    self.current_running = Some(current);
                    Ok(None)
                } else {
                    let idle = self.create_idle_process();
                    self.current_running = Some(idle);
                    Ok(Some(ContextSwitch { from: current.pid, to: 0 }))
                }
            },
        }
    }

    /// Ends the running process: it is marked exited, never runs again, and
    /// the processor is yielded as `yield_control` does.
    pub fn exit_process(&mut self, alloc: &mut PageAllocator) -> (r: Result<
        Option<ContextSwitch>,
        SchedulerError,
    >)
        requires
            old(self).wf(),
            old(alloc).wf(),
        ensures
            final(self).wf(),
            final(alloc).wf(),
            old(self).current() is None ==> r == Err::<Option<ContextSwitch>, SchedulerError>(
                SchedulerError::NoCurrentProcess,
            ) && *final(self) == *old(self) && *final(alloc) == *old(alloc),
            old(self).current() is Some ==> r is Ok && old(self).yield_step(
                old(self).queue(),
                Process { state: ProcessState::Exited, ..old(self).current()->Some_0 },
                old(self).previous(),
                final(self),
                old(alloc),
                final(alloc),
                r->Ok_0,
            ),
    {
        let mut current = match self.current_running {
            None => {
                return Err(SchedulerError::NoCurrentProcess);
            },
            Some(p) => p,
        };
        current.state = ProcessState::Exited;
        self.current_running = Some(current);
        self.yield_control(alloc)
    }

    /// The saved registers of the running process, which a switch loads.
    pub fn current_context(&self) -> (r: Option<&CpuContext>)
        ensures
            r == match self.current() {
                Some(p) => Some(&p.context),
                None => None::<&CpuContext>,
            },
    {
        match &self.current_running {
            Some(p) => Some(&p.context),
            None => None,
        }
    }

    /// The registers of the previously running process, which a switch
    /// saves into.
    pub fn previous_context_mut(&mut self) -> (r: Option<&mut CpuContext>)
        ensures
            old(self).previous() is None ==> r is None && *final(self) == *old(self),
            old(self).previous() matches Some(p) ==> {
                &&& r matches Some(c) && *c == p.context
                &&& final(self).previous() == Some(
                    Process { context: *final(r->Some_0), ..p },
                )
                &&& final(self).current() == old(self).current()
                &&& final(self).queue() == old(self).queue()
                &&& final(self).next_pid() == old(self).next_pid()
                &&& final(self).idle_entry_point() == old(self).idle_entry_point()
                &&& final(self).idle_stack_base() == old(self).idle_stack_base()
            },
    {
        match &mut self.previously_running {
            Some(p) => Some(&mut p.context),
            None => None,
        }
    }

    /// The running process, if any.
    pub fn current_process(&self) -> (r: Option<ProcessInfo>)
        ensures
            r == match self.current() {
                Some(p) => Some(
                    ProcessInfo { pid: p.pid, state: p.state, stack_pointer: p.context.sp },
                ),
                None => None::<ProcessInfo>,
            },
    {
        match &self.current_running {
            Some(p) => Some(ProcessInfo::from(p)),
            None => None,
        }
    }

    /// The id the next scheduled process gets.
    pub fn next_process_id(&self) -> (r: u32)
        ensures
            r == self.next_pid(),
    {
        self.next_proc_id
    }

    /// Number of processes waiting in the queue.
    pub fn queued(&self) -> (r: usize)
        ensures
            r == self.queue().len(),
    {
        self.processes.len()
    }
}

impl Default for Scheduler {
    fn default() -> (r: Self)
        ensures
            r.wf(),
            r.queue().len() == 0,
            r.current() is None,
            r.previous() is None,
            r.next_pid() == 1,
    {
        Self::new()
    }
}

/// Two runnable processes take turns: with nothing else queued, a yield from
/// `a` while `b` is the previously running process runs `b` next and leaves
/// `a` as the previous one, so the next yield from `b` runs `a` again; no
/// page changes hands.
pub proof fn lemma_two_processes_alternate(
    s: Scheduler,
    a: Process,
    b: Process,
    after: Scheduler,
    alloc_before: PageAllocator,
    alloc_after: PageAllocator,
    switch: Option<ContextSwitch>,
)
    requires
        a.state == ProcessState::Runnable,
        b.state == ProcessState::Runnable,
        s.yield_step(Seq::empty(), a, Some(b), &after, &alloc_before, &alloc_after, switch),
    ensures
        after.current() == Some(b),
        after.previous() == Some(a),
        after.queue() == Seq::<Process>::empty(),
        switch == Some(ContextSwitch { from: a.pid, to: b.pid }),
        alloc_after.pages() == alloc_before.pages(),
{
    let q = requeue(Seq::empty(), Some(b));
    assert(q =~= seq![b]);
    assert(q.drop_first() =~= Seq::<Process>::empty());
}

/// A process that has exited never runs again: after any yield the running
/// process is a runnable one or a fresh idle process, and only runnable
/// processes stay queued.
pub proof fn lemma_exited_never_runs(
    s: Scheduler,
    queue: Seq<Process>,
    current: Process,
    previous: Option<Process>,
    after: Scheduler,
    alloc_before: PageAllocator,
    alloc_after: PageAllocator,
    switch: Option<ContextSwitch>,
)
    requires
        forall|i: int| 0 <= i < queue.len() ==> (#[trigger] queue[i]).state == ProcessState::Runnable,
        s.yield_step(queue, current, previous, &after, &alloc_before, &alloc_after, switch),
    ensures
        after.current() is Some,
        after.current()->Some_0.state == ProcessState::Runnable || after.current() == Some(
            s.idle_process(),
        ),
        forall|i: int|
            0 <= i < after.queue().len() ==> (#[trigger] after.queue()[i]).state
                == ProcessState::Runnable,
{
    let q = requeue(queue, previous);
    assert forall|i: int| 0 <= i < q.len() implies (#[trigger] q[i]).state
        == ProcessState::Runnable by {
        if i < queue.len() {
            assert(q[i] == queue[i]);
        }
    }
    if q.len() > 0 {
        assert(after.queue() == q.drop_first());
        assert forall|i: int| 0 <= i < after.queue().len() implies (#[trigger] after.queue()[i]).state
            == ProcessState::Runnable by {
            assert(after.queue()[i] == q[i + 1]);
        }
    }
}

/// Process `x` is gone from the scheduler: no queued or running process has
/// its id, and the previous process has it only as an exited one.
pub open spec fn gone(s: &Scheduler, x: u32) -> bool {
    &&& x != 0
    &&& x < s.next_pid()
    &&& forall|i: int| 0 <= i < s.queue().len() ==> (#[trigger] s.queue()[i]).pid != x
    &&& s.current() matches Some(c) ==> c.pid != x
    &&& s.previous() matches Some(p) ==> p.pid == x ==> p.state == ProcessState::Exited
}

/// A process that exits is gone after the yield that ends it.
pub proof fn lemma_exit_makes_gone(
    s: Scheduler,
    after: Scheduler,
    alloc_before: PageAllocator,
    alloc_after: PageAllocator,
    switch: Option<ContextSwitch>,
)
    requires
        s.wf(),
        s.current() is Some,
        s.current()->Some_0.pid != 0,
        s.yield_step(
            s.queue(),
            Process { state: ProcessState::Exited, ..s.current()->Some_0 },
            s.previous(),
            &after,
            &alloc_before,
            &alloc_after,
            switch,
        ),
    ensures
        gone(&after, s.current()->Some_0.pid),
{
    let x = s.current()->Some_0.pid;
    let q = requeue(s.queue(), s.previous());
    assert forall|i: int| 0 <= i < q.len() implies (#[trigger] q[i]).pid != x by {
        if i < s.queue().len() {
            assert(q[i] == s.queue()[i]);
        }
    }
    if q.len() > 0 {
        assert forall|i: int| 0 <= i < after.queue().len() implies (#[trigger] after.queue()[i]).pid
            != x by {
            assert(after.queue()[i] == q[i + 1]);
        }
    }
}

/// A gone process stays gone through a yield or an exit (`current` is the
/// running process, marked exited for an exit); with
/// `lemma_gone_after_schedule`, no later call brings its id back, so an
/// exited process never runs or waits again.
pub proof fn lemma_gone_stays_gone(
    s: Scheduler,
    current: Process,
    after: Scheduler,
    alloc_before: PageAllocator,
    alloc_after: PageAllocator,
    switch: Option<ContextSwitch>,
    x: u32,
)
    requires
        s.wf(),
        gone(&s, x),
        s.current() matches Some(c) && c.pid == current.pid,
        s.yield_step(s.queue(), current, s.previous(), &after, &alloc_before, &alloc_after, switch),
    ensures
        gone(&after, x),
{
    let q = requeue(s.queue(), s.previous());
    assert forall|i: int| 0 <= i < q.len() implies (#[trigger] q[i]).pid != x by {
        if i < s.queue().len() {
            assert(q[i] == s.queue()[i]);
        }
    }
    if q.len() > 0 {
        assert forall|i: int| 0 <= i < after.queue().len() implies (#[trigger] after.queue()[i]).pid
            != x by {
            assert(after.queue()[i] == q[i + 1]);
        }
    }
}

/// Scheduling a new process keeps a gone process gone: the new one gets a
/// fresh id.
pub proof fn lemma_gone_after_schedule(s: Scheduler, after: Scheduler, p: Process, x: u32)
    requires
        gone(&s, x),
        after.queue() == s.queue().push(p),
        p.pid == s.next_pid(),
        after.next_pid() == s.next_pid() + 1,
        after.current() == s.current(),
        after.previous() == s.previous(),
    ensures
        gone(&after, x),
{
    assert forall|i: int| 0 <= i < after.queue().len() implies (#[trigger] after.queue()[i]).pid
        != x by {
        if i < s.queue().len() {
            assert(after.queue()[i] == s.queue()[i]);
        }
    }
}

/// With nothing runnable left and the running process exited, a yield
/// switches to a fresh idle process instead of failing.
pub proof fn lemma_idle_fallback(
    s: Scheduler,
    queue: Seq<Process>,
    current: Process,
    previous: Option<Process>,
    after: Scheduler,
    alloc_before: PageAllocator,
    alloc_after: PageAllocator,
    switch: Option<ContextSwitch>,
)
    requires
        requeue(queue, previous).len() == 0,
        current.state == ProcessState::Exited,
        s.yield_step(queue, current, previous, &after, &alloc_before, &alloc_after, switch),
    ensures
        after.current() == Some(s.idle_process()),
        s.idle_process().state == ProcessState::KernelReserved,
        s.idle_process().pid == 0,
        switch == Some(ContextSwitch { from: current.pid, to: 0 }),
{
}

} // verus!
