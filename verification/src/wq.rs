//! Queues of tasks that wait for one thing.
use vstd::prelude::*;
use vstd::set_lib::{lemma_int_range, set_int_range};

use crate::books::same_uses;
use crate::kernel::{lemma_with_tasks, same_space, slot_sound, Kernel};
use crate::sched::{asleep, fall_asleep, lemma_moved, unlock};
use crate::task::{Lock, State, Task};

verus! {

/// Tasks that wait, each once.
pub struct Wq {
    pub tasks: [Option<usize>; 8],
    pub count: usize,
}

impl Wq {
    /// The tasks that wait, in the order in which they came.
    pub open spec fn waiting(self) -> Seq<usize> {
        Seq::new(self.count as nat, |i: int| self.tasks@[i]->0)
    }

    /// Whether the entries are tasks, none of them twice.
    pub open spec fn sound(self) -> bool {
        &&& self.count <= 8
        &&& forall|i: int|
            0 <= i < self.count ==> (#[trigger] self.tasks@[i]) is Some && self.tasks@[i]->0 < 8
        &&& self.waiting().no_duplicates()
    }

    /// Whether this is the queue `old` once `task` has come: the next slot holds it, and
    /// all others are as they were. Nothing changes where it waits already or is none.
    pub open spec fn has_added(self, old: Wq, task: Option<usize>) -> bool {
        if task is None || old.waiting().contains(task->0) {
            self == old
        } else {
            &&& self.tasks@ == old.tasks@.update(old.count as int, task)
            &&& self.count == old.count + 1
        }
    }

    pub fn new() -> (q: Wq)
        ensures
            q.sound(),
            q.waiting() == Seq::<usize>::empty(),
            q.count == 0,
            q.tasks@ == Seq::new(8, |i: int| None::<usize>),
    {
        Wq { tasks: [None; 8], count: 0 }
    }

    /// A task that does not wait yet finds room.
    proof fn lemma_room(self, task: usize)
        requires
            self.sound(),
            task < 8,
            !self.waiting().contains(task),
        ensures
            self.count < 8,
    {
        let w = self.waiting().map_values(|t: usize| t as int);
        let all = set_int_range(0, 8);
        lemma_int_range(0, 8);
        assert(w.no_duplicates()) by {
            assert forall|i: int, j: int|
                0 <= i < w.len() && 0 <= j < w.len() && i != j implies w[i] != w[j] by {
                assert(self.waiting()[i] != self.waiting()[j]);
            }
        }
        w.unique_seq_to_set();
        assert forall|x: int| w.to_set().contains(x) implies #[trigger] all.remove(
            task as int,
        ).contains(x) by {
            let i = choose|i: int| 0 <= i < w.len() && w[i] == x;
            assert(self.tasks@[i] is Some && self.tasks@[i]->0 < 8);
            assert(self.waiting()[i] == x);
        }
        vstd::set_lib::lemma_len_subset(w.to_set(), all.remove(task as int));
    }

    /// Adds a task, unless it waits already or there is none.
    pub fn add(&mut self, task: Option<usize>)
        requires
            old(self).sound(),
            task matches Some(t) ==> t < 8,
        ensures
            final(self).sound(),
            final(self).waiting() == match task {
                Some(t) => with_waiter(old(self).waiting(), t),
                None => old(self).waiting(),
            },
            final(self).has_added(*old(self), task),
    {
        let t: usize = match task {
            Some(t) => t,
            None => return ,
        };
        let mut i: usize = 0;
        while i < self.count
            invariant
                i <= self.count,
                task == Some(t),
                self.sound(),
                *self == *old(self),
                forall|j: int| 0 <= j < i ==> #[trigger] self.waiting()[j] != t,
            decreases self.count - i,
        {
            assert(self.tasks@[i as int] is Some);
            if self.tasks[i].unwrap() == t {
                assert(old(self).waiting()[i as int] == t);
                return ;
            }
            i += 1;
        }
        proof {
            assert(!self.waiting().contains(t));
            self.lemma_room(t);
        }
        let n: usize = self.count;
        self.tasks[n] = Some(t);
        self.count = n + 1;
        assert(self.waiting() =~= old(self).waiting().push(t));
        assert forall|i: int, j: int|
            0 <= i < self.waiting().len() && 0 <= j < self.waiting().len() && i
                != j implies self.waiting()[i] != self.waiting()[j] by {
            let w = old(self).waiting();
            assert(i < n ==> w[i] != t);
            assert(j < n ==> w[j] != t);
        }
    }

    /// Adds the current task and puts it to sleep. The caller holds another lock,
    /// which is free while the task sleeps.
    pub fn sleep(&mut self, k: &mut Kernel)
        requires
            old(self).sound(),
            old(k).sound(),
            old(k).unlocked(),
            old(k).cpu.int_disables == 1,
            old(k).cpu.task_idx is Some,
            old(k).cur().state is Running,
        ensures
            final(self).sound(),
            final(self).waiting() == with_waiter(old(self).waiting(), old(k).at() as usize),
            final(self).has_added(*old(self), old(k).cpu.task_idx),
            final(k).leaving(),
            *final(k) == (Kernel { tasks: final(k).tasks, ..*old(k) }),
            final(k).tasks@ == old(k).tasks@.update(old(k).at(), asleep(old(k).cur(), None)),
    {
        self.add(k.cpu.task_idx);
        fall_asleep(k, None, true);
    }

    /// The second half of `sleep`: the caller has its lock back.
    pub fn slept(k: &mut Kernel)
        requires
            old(k).entering(),
        ensures
            final(k).sound(),
            final(k).unlocked(),
            *final(k) == (Kernel { tasks: final(k).tasks, ..*old(k) }),
            final(k).tasks@ == old(k).tasks@.update(
                old(k).at(),
                Task { lock: Lock { held: false }, ..old(k).cur() },
            ),
    {
        let i: usize = k.cpu.task_idx.unwrap();
        let _ = k.cpu.disable_intr(0);
        unlock(k, i);
        proof {
            crate::task::law_interrupts_stay_off(0);
            let t = Task { lock: Lock { held: false }, ..old(k).cur() };
            lemma_moved(*k, *old(k), i as int, t);
        }
    }

    /// Makes everything that waits and sleeps ready, and empties the queue.
    pub fn wake_all(&mut self, k: &mut Kernel)
        requires
            old(self).sound(),
            old(k).sound(),
            old(k).unlocked(),
        ensures
            final(self).sound(),
            final(self).waiting() == Seq::<usize>::empty(),
            final(self).count == 0,
            final(self).tasks == old(self).tasks,
            final(k).sound(),
            final(k).unlocked(),
            *final(k) == (Kernel { tasks: final(k).tasks, ..*old(k) }),
            final(k).tasks@ == Seq::new(
                8,
                |j: int| roused(old(k).tasks@[j], old(self).waiting().contains(j as usize)),
            ),
    {
        let mut i: usize = 0;
        let ghost ts = k.tasks@;
        let ghost w = self.waiting();
        while i < self.count
            invariant
                i <= self.count,
                self.sound(),
                *self == *old(self),
                w == self.waiting(),
                ts.len() == 8,
                k.tasks@.len() == 8,
                *k == (Kernel { tasks: k.tasks, ..*old(k) }),
                forall|j: int|
                    0 <= j < 8 ==> #[trigger] k.tasks@[j] == roused(
                        ts[j],
                        w.take(i as int).contains(j as usize),
                    ),
            decreases self.count - i,
        {
            let ghost before = k.tasks@;
            assert(self.tasks@[i as int] is Some);
            let t: usize = self.tasks[i].unwrap();
            if k.tasks[t].state == State::Sleeping {
                k.tasks[t].state = State::Ready;
            }
            proof {
                assert forall|j: int| 0 <= j < 8 implies #[trigger] k.tasks@[j] == roused(
                    ts[j],
                    w.take(i + 1).contains(j as usize),
                ) by {
                    let u = w.take(i + 1);
                    let v = w.take(i as int);
                    assert(before[j] == roused(ts[j], v.contains(j as usize)));
                    assert(u =~= v.push(t));
                    if v.contains(j as usize) {
                        let x = choose|x: int| 0 <= x < v.len() && v[x] == j as usize;
                        assert(u[x] == j as usize);
                    }
                    if u.contains(j as usize) && t != j {
                        let x = choose|x: int| 0 <= x < u.len() && u[x] == j as usize;
                        assert(v[x] == j as usize);
                    }
                    if t == j {
                        assert(u[i as int] == j as usize);
                    }
                }
            }
            i += 1;
        }
        self.count = 0;
        proof {
            assert(w.take(w.len() as int) =~= w);
            assert(k.tasks@ =~= Seq::new(
                8,
                |j: int| roused(old(k).tasks@[j], w.contains(j as usize)),
            ));
            assert forall|i: int| 0 <= i < 8 implies same_uses(
                old(k).tasks@[i],
                #[trigger] k.tasks@[i],
            ) && same_space(old(k).tasks@[i], k.tasks@[i]) && slot_sound(k.tasks@[i], i)
                && !k.tasks@[i].lock.held by {
                assert(slot_sound(ts[i], i));
                assert(!ts[i].lock.held);
            }
            lemma_with_tasks(*k, *old(k));
        }
    }
}

/// The tasks that wait once `t` waits too.
pub open spec fn with_waiter(w: Seq<usize>, t: usize) -> Seq<usize> {
    if w.contains(t) {
        w
    } else {
        w.push(t)
    }
}

/// A task that is made ready, if it sleeps and is meant.
pub open spec fn roused(t: Task, meant: bool) -> Task {
    if meant && t.state is Sleeping {
        Task { state: State::Ready, ..t }
    } else {
        t
    }
}

/// A task that has gone to sleep in a queue is ready once the queue wakes all that wait
/// in it, whoever waits there besides.
pub proof fn law_queue_wakes_sleeper(w: Seq<usize>, i: usize, t: Task)
    ensures
        roused(asleep(t, None), with_waiter(w, i).contains(i)).state is Ready,
{
    assert(!w.contains(i) ==> w.push(i).last() == i);
}

} // verus!
