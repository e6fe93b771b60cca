//! The ready queue of the scheduler, holding thread ids.
use vstd::prelude::*;
use std::collections::VecDeque;
use std::collections::BTreeMap;
use crate::task::ProcessControlBlock;

verus! {

/// Threads ready to run, in arrival order, and exited threads kept until the next fetch.
pub struct TaskManager {
    ready_queue: VecDeque<usize>,
    stopped_tasks: Vec<usize>,
}

/// The index of the first occurrence of `t` in `s`.
pub open spec fn first_index(s: Seq<usize>, t: usize) -> int {
    choose|i: int| 0 <= i < s.len() && s[i] == t && forall|j: int| 0 <= j < i ==> s[j] != t
}

impl TaskManager {
    /// The ready threads, the next to run first.
    pub closed spec fn ready(&self) -> Seq<usize> {
        self.ready_queue@
    }

    /// The exited threads kept alive until the next fetch.
    pub closed spec fn stopped(&self) -> Seq<usize> {
        self.stopped_tasks@
    }

    /// An empty manager.
    pub fn new() -> (r: TaskManager)
        ensures
            r.ready() == Seq::<usize>::empty(),
            r.stopped() == Seq::<usize>::empty(),
    {
        TaskManager { ready_queue: VecDeque::new(), stopped_tasks: Vec::new() }
    }

    /// Queue `task` as the last ready thread.
    pub fn add(&mut self, task: usize)
        ensures
            final(self).ready() == old(self).ready().push(task),
            final(self).stopped() == old(self).stopped(),
    {
        self.ready_queue.push_back(task);
    }

    /// Drop the exited threads and take the first ready thread.
    pub fn fetch(&mut self) -> (r: Option<usize>)
        ensures
            final(self).stopped() == Seq::<usize>::empty(),
            old(self).ready().len() > 0 ==> r == Some(old(self).ready()[0]) && final(self).ready()
                == old(self).ready().drop_first(),
            old(self).ready().len() == 0 ==> r.is_none() && final(self).ready() == old(self).ready(),
    {
        self.stopped_tasks.clear();
        self.ready_queue.pop_front()
    }

    /// Keep an exited thread until the next fetch.
    pub fn add_stop(&mut self, task: usize)
        ensures
            final(self).stopped() == old(self).stopped().push(task),
            final(self).ready() == old(self).ready(),
    {
        self.stopped_tasks.push(task);
    }

    /// Take `task` out of the ready queue, if it is there.
    pub fn remove(&mut self, task: usize)
        ensures
            final(self).stopped() == old(self).stopped(),
            old(self).ready().contains(task) ==> final(self).ready() == old(self).ready().remove(
                first_index(old(self).ready(), task),
            ),
            !old(self).ready().contains(task) ==> final(self).ready() == old(self).ready(),
    {
        let mut i: usize = 0;
        let n = self.ready_queue.len();
        while i < n
            invariant
                0 <= i <= n,
                n == self.ready_queue@.len(),
                self.ready_queue@ == old(self).ready_queue@,
                self.stopped_tasks@ == old(self).stopped_tasks@,
                forall|j: int| 0 <= j < i ==> self.ready_queue@[j] != task,
            decreases n - i,
        {
            if self.ready_queue[i] == task {
                proof {
                    let s = old(self).ready();
                    let k = first_index(s, task);
                    assert(0 <= i < s.len() && s[i as int] == task && forall|j: int| 0 <= j < i ==> s[j] != task);
                    let kk = choose|kk: int| 0 <= kk < s.len() && s[kk] == task && forall|j: int| 0 <= j < kk ==> s[j] != task;
                    if kk < i {
                        assert(s[kk] != task);
                    }
                    if kk > i {
                        assert(s[i as int] != task);
                    }
                }
                self.ready_queue.remove(i);
                return;
            }
            i = i + 1;
        }
        proof {
            assert forall|j: int| 0 <= j < n implies self.ready_queue@[j] != task by {}
            if old(self).ready().contains(task) {
                let j = choose|j: int| 0 <= j < old(self).ready().len() && old(self).ready()[j] == task;
            }
        }
    }
}

/// The processes that can be found by their pid.
pub struct ProcessTable {
    /// The processes, by pid.
    pub procs: BTreeMap<usize, ProcessControlBlock>,
}

impl ProcessTable {
    /// The processes, by pid.
    pub open spec fn view(&self) -> Map<usize, ProcessControlBlock> {
        self.procs@
    }

    /// An empty table.
    pub fn new() -> (r: ProcessTable)
        ensures
            r@ == Map::<usize, ProcessControlBlock>::empty(),
    {
        ProcessTable { procs: BTreeMap::new() }
    }
}

/// The process with pid `pid`, if the table holds one.
pub fn pid2process(table: &ProcessTable, pid: usize) -> (r: Option<&ProcessControlBlock>)
    ensures
        match r {
            Some(p) => table@.contains_key(pid) && *p == table@[pid],
            None => !table@.contains_key(pid),
        },
{
    table.procs.get(&pid)
}

/// Make `process` findable by pid `pid`.
pub fn insert_into_pid2process(table: &mut ProcessTable, pid: usize, process: ProcessControlBlock)
    ensures
        final(table)@ == old(table)@.insert(pid, process),
{
    table.procs.insert(pid, process);
}

/// Take the process with pid `pid` out of the table: it, if the table held one.
pub fn remove_from_pid2process(table: &mut ProcessTable, pid: usize) -> (r: Option<ProcessControlBlock>)
    ensures
        final(table)@ == old(table)@.remove(pid),
        match r {
            Some(p) => old(table)@.contains_key(pid) && p == old(table)@[pid],
            None => !old(table)@.contains_key(pid),
        },
{
    table.procs.remove(&pid)
}

/// Taking threads from the ready queue returns them in the order they were added.
pub proof fn lemma_fifo(q: Seq<usize>, a: usize, b: usize)
    ensures
        q.push(a).push(b).drop_first().drop_first() =~= if q.len() >= 2 {
            q.drop_first().drop_first().push(a).push(b)
        } else if q.len() == 1 {
            seq![b]
        } else {
            Seq::<usize>::empty()
        },
        q.len() == 0 ==> q.push(a).push(b)[0] == a && q.push(a).push(b).drop_first()[0] == b,
{
}

} // verus!
