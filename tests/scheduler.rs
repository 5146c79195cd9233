use oxiv::page::{AllocError, PageAllocator, PAGE_SIZE};
use oxiv::process::{CpuContext, ProcessState, KERNEL_STACK_SIZE};
use oxiv::scheduler::{ContextSwitch, Scheduler, SchedulerError};

const HEAP_START: usize = 0x8020_0000;
const IDLE_ENTRY: usize = 0x8000_0100;
const ENTRY_A: usize = 0x8000_1000;
const ENTRY_B: usize = 0x8000_2000;

fn allocator(pages: usize) -> PageAllocator {
    let mut alloc = PageAllocator::new();
    alloc.init(HEAP_START, HEAP_START + pages * PAGE_SIZE);
    alloc
}

#[test]
fn default_context_is_zero() {
    let c = CpuContext::default();
    assert_eq!(c.ra, 0);
    assert_eq!(c.sp, 0);
    assert_eq!(c.s0, 0);
    assert_eq!(c.s11, 0);
}

#[test]
fn yield_before_init_is_refused() {
    let mut alloc = allocator(16);
    let mut sched = Scheduler::new();
    assert_eq!(sched.yield_control(&mut alloc), Err(SchedulerError::NotInitialized));
    assert_eq!(sched.exit_process(&mut alloc), Err(SchedulerError::NoCurrentProcess));
    assert!(sched.current_process().is_none());
}

#[test]
fn init_runs_idle_process() {
    let mut alloc = allocator(16);
    let mut sched = Scheduler::new();
    assert_eq!(sched.init(&mut alloc, IDLE_ENTRY), Ok(()));
    let idle = sched.current_process().unwrap();
    assert_eq!(idle.pid, 0);
    assert_eq!(idle.state, ProcessState::KernelReserved);
    assert_eq!(idle.stack_pointer, alloc.alloc_start() + KERNEL_STACK_SIZE);
    assert_eq!(sched.queued(), 0);
}

#[test]
fn init_without_pages_fails() {
    let mut alloc = allocator(1);
    let mut sched = Scheduler::new();
    assert_eq!(sched.init(&mut alloc, IDLE_ENTRY), Err(AllocError::Exhausted));
    assert!(sched.current_process().is_none());
}

#[test]
fn schedule_process_reports_fresh_process() {
    let mut alloc = allocator(16);
    let mut sched = Scheduler::new();
    sched.init(&mut alloc, IDLE_ENTRY).unwrap();
    let a = sched.schedule_process(&mut alloc, ENTRY_A).unwrap();
    assert_eq!(a.pid, 1);
    assert_eq!(a.state, ProcessState::Runnable);
    assert_eq!(a.stack_pointer, alloc.alloc_start() + 2 * PAGE_SIZE + KERNEL_STACK_SIZE);
    assert_eq!(a.stack_pointer % 16, 0);
    let b = sched.schedule_process(&mut alloc, ENTRY_B).unwrap();
    assert_eq!(b.pid, 2);
    assert_eq!(b.stack_pointer, a.stack_pointer + KERNEL_STACK_SIZE);
    assert_eq!(sched.queued(), 2);
}

#[test]
fn schedule_process_without_pages_fails() {
    let mut alloc = allocator(3);
    let mut sched = Scheduler::new();
    sched.init(&mut alloc, IDLE_ENTRY).unwrap();
    assert!(sched.schedule_process(&mut alloc, ENTRY_A).is_err());
    assert_eq!(sched.queued(), 0);
    let mut alloc = allocator(4);
    sched.init(&mut alloc, IDLE_ENTRY).unwrap();
    assert_eq!(sched.schedule_process(&mut alloc, ENTRY_A).unwrap().pid, 1);
}

#[test]
fn lone_runnable_process_resumes_itself() {
    let mut alloc = allocator(16);
    let mut sched = Scheduler::new();
    sched.init(&mut alloc, IDLE_ENTRY).unwrap();
    sched.schedule_process(&mut alloc, ENTRY_A).unwrap();
    assert_eq!(sched.yield_control(&mut alloc), Ok(Some(ContextSwitch { from: 0, to: 1 })));
    assert_eq!(sched.yield_control(&mut alloc), Ok(None));
    assert_eq!(sched.current_process().unwrap().pid, 1);
    assert_eq!(sched.yield_control(&mut alloc), Ok(None));
}

#[test]
fn idle_yield_with_nothing_queued_runs_fresh_idle() {
    let mut alloc = allocator(16);
    let mut sched = Scheduler::new();
    sched.init(&mut alloc, IDLE_ENTRY).unwrap();
    assert_eq!(sched.yield_control(&mut alloc), Ok(Some(ContextSwitch { from: 0, to: 0 })));
    let idle = sched.current_process().unwrap();
    assert_eq!(idle.state, ProcessState::KernelReserved);
}

#[test]
fn exit_of_last_process_falls_back_to_idle() {
    let mut alloc = allocator(16);
    let mut sched = Scheduler::new();
    sched.init(&mut alloc, IDLE_ENTRY).unwrap();
    sched.schedule_process(&mut alloc, ENTRY_A).unwrap();
    sched.yield_control(&mut alloc).unwrap();
    assert_eq!(sched.exit_process(&mut alloc), Ok(Some(ContextSwitch { from: 1, to: 0 })));
    let idle = sched.current_process().unwrap();
    assert_eq!(idle.pid, 0);
    assert_eq!(idle.state, ProcessState::KernelReserved);
    assert_eq!(sched.queued(), 0);
}

#[test]
fn exited_stack_returns_to_allocator() {
    let mut alloc = allocator(4);
    let mut sched = Scheduler::new();
    sched.init(&mut alloc, IDLE_ENTRY).unwrap();
    let a = sched.schedule_process(&mut alloc, ENTRY_A).unwrap();
    assert_eq!(alloc.alloc_pages(1), Err(AllocError::Exhausted));
    sched.yield_control(&mut alloc).unwrap();
    sched.exit_process(&mut alloc).unwrap();
    sched.yield_control(&mut alloc).unwrap();
    assert_eq!(alloc.alloc_pages(2), Ok(a.stack_pointer - KERNEL_STACK_SIZE));
}

#[test]
fn two_processes_alternate_until_exit() {
    let mut alloc = allocator(16);
    let mut sched = Scheduler::new();
    sched.init(&mut alloc, IDLE_ENTRY).unwrap();
    sched.schedule_process(&mut alloc, ENTRY_A).unwrap();
    sched.schedule_process(&mut alloc, ENTRY_B).unwrap();
    let mut order = vec![sched.current_process().unwrap().pid];
    let first = sched.yield_control(&mut alloc).unwrap().unwrap();
    order.push(first.to);
    for _ in 0..6 {
        let s = sched.yield_control(&mut alloc).unwrap().unwrap();
        order.push(s.to);
    }
    let s = sched.exit_process(&mut alloc).unwrap().unwrap();
    order.push(s.to);
    let s = sched.exit_process(&mut alloc).unwrap().unwrap();
    order.push(s.to);
    assert_eq!(order, vec![0, 1, 2, 1, 2, 1, 2, 1, 2, 0]);
    let s = sched.yield_control(&mut alloc).unwrap().unwrap();
    assert_eq!(s.to, 0);
}

#[test]
fn end_to_end_two_processes_three_yields_each() {
    let mut alloc = PageAllocator::new();
    alloc.init(HEAP_START, HEAP_START + 16 * PAGE_SIZE);
    assert_eq!(alloc.total_pages(), 16);
    let mut sched = Scheduler::new();
    sched.init(&mut alloc, IDLE_ENTRY).unwrap();
    sched.schedule_process(&mut alloc, ENTRY_A).unwrap();
    sched.schedule_process(&mut alloc, ENTRY_B).unwrap();
    assert_eq!(sched.yield_control(&mut alloc), Ok(Some(ContextSwitch { from: 0, to: 1 })));
    let mut yields = [0usize; 3];
    let mut switches = 0usize;
    loop {
        let running = sched.current_process().unwrap();
        if running.pid == 0 {
            break;
        }
        let pid = running.pid as usize;
        let result = if yields[pid] < 3 {
            yields[pid] += 1;
            sched.yield_control(&mut alloc)
        } else {
            sched.exit_process(&mut alloc)
        };
        if result.unwrap().is_some() {
            switches += 1;
        }
    }
    assert_eq!(switches, 8);
    let idle = sched.current_process().unwrap();
    assert_eq!(idle.pid, 0);
    assert_eq!(idle.state, ProcessState::KernelReserved);
    assert_eq!(sched.queued(), 0);
}

#[test]
fn default_scheduler_is_uninitialised() {
    let sched = Scheduler::default();
    assert!(sched.current_process().is_none());
    assert_eq!(sched.queued(), 0);
    assert!(sched.current_context().is_none());
}

#[test]
fn contexts_for_the_switch() {
    let mut alloc = allocator(16);
    let mut sched = Scheduler::new();
    sched.init(&mut alloc, IDLE_ENTRY).unwrap();
    let a = sched.schedule_process(&mut alloc, ENTRY_A).unwrap();
    assert!(sched.previous_context_mut().is_none());
    sched.yield_control(&mut alloc).unwrap();
    let next = *sched.current_context().unwrap();
    assert_eq!(next.ra, ENTRY_A);
    assert_eq!(next.sp, a.stack_pointer);
    let prev = sched.previous_context_mut().unwrap();
    assert_eq!(prev.ra, IDLE_ENTRY);
    prev.s0 = 0x55;
    assert_eq!(sched.previous_context_mut().unwrap().s0, 0x55);
}

#[test]
fn process_ids_start_at_one() {
    let mut alloc = allocator(16);
    let mut sched = Scheduler::new();
    assert_eq!(sched.next_process_id(), 1);
    sched.init(&mut alloc, IDLE_ENTRY).unwrap();
    sched.schedule_process(&mut alloc, ENTRY_A).unwrap();
    assert_eq!(sched.next_process_id(), 2);
}

#[test]
fn exiting_idle_keeps_the_idle_stack() {
    let mut alloc = allocator(2);
    let mut sched = Scheduler::new();
    sched.init(&mut alloc, IDLE_ENTRY).unwrap();
    assert_eq!(sched.exit_process(&mut alloc), Ok(Some(ContextSwitch { from: 0, to: 0 })));
    assert_eq!(sched.yield_control(&mut alloc), Ok(Some(ContextSwitch { from: 0, to: 0 })));
    assert_eq!(alloc.alloc_pages(1), Err(AllocError::Exhausted));
}
