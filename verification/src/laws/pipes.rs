//! How bytes go through a pipe, and which tasks sleep and wake on the way.
use vstd::prelude::*;

use crate::io::{read_file, read_woken, sys_read, sys_write, write_file, write_woken, Io};
use crate::kernel::Kernel;
use crate::laws::{lemma_me, me, reg};
use crate::pipe::{law_read_takes_front, law_write_appends, Pipe, PipeIo, PipeStep, PipeView};
use crate::pipe::{stored, wrap64};
use crate::task::{State, Task};

verus! {

/// How many bytes a pipe holds.
pub open spec fn held(p: Pipe) -> int {
    if p.wpos >= p.rpos {
        p.wpos - p.rpos
    } else {
        p.wpos - p.rpos + 0x1_0000_0000_0000_0000
    }
}

/// The `i`-th byte that a pipe holds, the oldest one first.
pub open spec fn byte(p: Pipe, i: int) -> u8 {
    p.buf@[(p.rpos + i) % 4096]
}

/// Whether a pipe holds what it says it does.
pub open spec fn is_steady(p: Pipe) -> bool {
    &&& held(p) <= 4096
    &&& p.empty == (held(p) == 0)
    &&& !p.full
}

proof fn lemma_steady(p: Pipe)
    requires
        is_steady(p),
    ensures
        p@.sound(),
        p@.pending() == held(p),
        p@.contents().len() == held(p),
        forall|i: int| 0 <= i < held(p) ==> #[trigger] p@.contents()[i] == byte(p, i),
{
}

proof fn lemma_sound(p: Pipe)
    requires
        p@.sound(),
    ensures
        is_steady(p),
        held(p) == p@.pending(),
        p@.contents().len() == held(p),
        forall|i: int| 0 <= i < held(p) ==> #[trigger] p@.contents()[i] == byte(p, i),
{
}

/// A new pipe holds nothing, and can be read by one and written by none.
pub proof fn law_new_pipe_holds_nothing(p: Pipe, nonblock: bool)
    requires
        call_ensures(Pipe::new, (nonblock,), p),
    ensures
        held(p) == 0,
        is_steady(p),
        p.readers == 1,
        p.writers == 0,
        p.nonblock == nonblock,
{
}

/// A write that fits into a pipe which is read puts its bytes behind those that are
/// there, in their order, and is finished; whoever waits for bytes is woken.
pub proof fn law_written_bytes_stand_last(p: &mut Pipe, buf: &[u8], io: PipeIo)
    requires
        is_steady(*old(p)),
        old(p).readers > 0,
        0 < held(*old(p)) + buf@.len() <= 4096,
        call_ensures(Pipe::write, (p, buf), io),
    ensures
        io.wake,
        io.step == PipeStep::Done(buf@.len() as usize),
        is_steady(*final(p)),
        held(*final(p)) == held(*old(p)) + buf@.len(),
        forall|i: int|
            0 <= i < held(*old(p)) ==> #[trigger] byte(*final(p), i) == byte(*old(p), i),
        forall|i: int|
            0 <= i < buf@.len() ==> byte(*final(p), held(*old(p)) + i) == #[trigger] buf@[i],
        final(p).readers == old(p).readers,
        final(p).writers == old(p).writers,
        final(p).nonblock == old(p).nonblock,
{
    lemma_steady(*old(p));
    law_write_appends(old(p)@, buf@);
    lemma_sound(*final(p));
    let (c, d) = (final(p)@.contents(), old(p)@.contents());
    assert forall|i: int| 0 <= i < held(*old(p)) implies #[trigger] byte(*final(p), i) == byte(
        *old(p),
        i,
    ) by {
        assert(c[i] == d[i]);
    }
    assert forall|i: int| 0 <= i < buf@.len() implies byte(*final(p), held(*old(p)) + i)
        == #[trigger] buf@[i] by {
        assert(c[held(*old(p)) + i] == buf@[i]);
    }
    old(p)@.lemma_write_keeps_ends(buf@);
    lemma_write_counts(old(p)@, buf@);
}

/// A read takes the oldest bytes of a pipe, in their order, and leaves the others. Where
/// it has all that it wants, or nobody writes, it is finished; else it waits.
pub proof fn law_read_bytes_stood_first(p: &mut Pipe, out: &mut Vec<u8>, want: usize, io: PipeIo)
    requires
        is_steady(*old(p)),
        old(out)@.len() <= want,
        call_ensures(Pipe::read, (p, out, want), io),
    ensures
        ({
            let got = old(out)@.len() as int;
            let n = if want - got <= held(*old(p)) {
                want - got
            } else {
                held(*old(p))
            };
            &&& final(out)@.len() == got + n
            &&& forall|i: int| 0 <= i < got ==> #[trigger] final(out)@[i] == old(out)@[i]
            &&& forall|i: int| 0 <= i < n ==> final(out)@[got + i] == #[trigger] byte(*old(p), i)
            &&& held(*final(p)) == held(*old(p)) - n
            &&& forall|i: int|
                0 <= i < held(*final(p)) ==> #[trigger] byte(*final(p), i) == byte(
                    *old(p),
                    n + i,
                )
            &&& io.step == if old(p).writers == 0 || got + n == want {
                PipeStep::Done((got + n) as usize)
            } else {
                PipeStep::Sleep((got + n) as usize)
            }
            &&& io.wake == (old(p).writers > 0 && (n > 0 || got == want))
        }),
        is_steady(*final(p)),
        final(p).readers == old(p).readers,
        final(p).writers == old(p).writers,
        final(p).nonblock == old(p).nonblock,
{
    lemma_steady(*old(p));
    law_read_takes_front(old(p)@, old(out)@, want as int);
    lemma_sound(*final(p));
    let got = old(out)@.len() as int;
    let n = if want - got <= held(*old(p)) {
        want - got
    } else {
        held(*old(p))
    };
    let (c, d) = (final(p)@.contents(), old(p)@.contents());
    assert forall|i: int| 0 <= i < n implies final(out)@[got + i] == #[trigger] byte(
        *old(p),
        i,
    ) by {
        assert(d.take(n)[i] == d[i]);
    }
    assert forall|i: int| 0 <= i < held(*final(p)) implies #[trigger] byte(*final(p), i) == byte(
        *old(p),
        n + i,
    ) by {
        assert(c[i] == d[n + i]);
    }
    old(p)@.lemma_read_keeps_ends(old(out)@, want as int);
    lemma_read_counts(old(p)@, old(out)@, want as int);
}

proof fn lemma_write_counts(p: PipeView, data: Seq<u8>)
    requires
        data.len() <= usize::MAX,
    ensures
        ({
            let r = p.write_run(data);
            let n = match r.io.step {
                PipeStep::Done(n) => n,
                PipeStep::Sleep(n) => n,
            };
            &&& n <= data.len()
            &&& data.len() > 0 && r.io.step is Done ==> n > 0
            &&& r.io.step is Done && p.put_len(data.len() as int) == data.len() ==> n == data.len()
            &&& r.io.step is Done && p.readers == 0 ==> n == data.len()
            &&& r.io.step is Sleep ==> p.readers > 0 && r.pipe.full && n < data.len()
            &&& r.io.wake == (p.readers > 0 && (r.io.step is Done || n > 0))
            &&& p.readers == 0 ==> r.pipe == p
            &&& p.readers > 0 && r.io.step is Done ==> (r.pipe.wpos - (p.wpos + data.len()))
                % 0x1_0000_0000_0000_0000 == 0
            &&& p.readers > 0 && r.io.step is Sleep ==> (r.pipe.wpos - (p.wpos + n))
                % 0x1_0000_0000_0000_0000 == 0
            &&& r.pipe.rpos == p.rpos
            &&& r.pipe.nonblock == p.nonblock
        }),
    decreases data.len(),
{
    reveal(wrap64);
    let n = p.put_len(data.len() as int);
    let q = p.put(data);
    if p.readers != 0 && n != data.len() && !q.full && n > 0 {
        lemma_write_counts(q, data.skip(n));
    }
}

proof fn lemma_read_counts(p: PipeView, got: Seq<u8>, want: int)
    requires
        got.len() <= want <= usize::MAX,
    ensures
        ({
            let r = p.read_run(got, want);
            let n = match r.io.step {
                PipeStep::Done(n) => n,
                PipeStep::Sleep(n) => n,
            };
            &&& n == r.bytes.len()
            &&& got.len() <= n <= want
            &&& r.io.step is Done ==> n == want || p.writers == 0
            &&& r.io.step is Sleep ==> p.writers > 0 && r.pipe.empty && n < want
            &&& r.io.wake == (p.writers > 0 && (r.io.step is Done || n > got.len()))
            &&& (r.pipe.rpos - (p.rpos + n - got.len())) % 0x1_0000_0000_0000_0000 == 0
            &&& r.pipe.wpos == p.wpos
            &&& r.pipe.nonblock == p.nonblock
        }),
    decreases want - got.len(),
{
    reveal(wrap64);
    let n = p.take_len(want - got.len());
    let q = p.take(want - got.len());
    let all = got + p.taken(want - got.len());
    if p.writers != 0 && n != want - got.len() && !q.empty && n > 0 {
        lemma_read_counts(q, all, want);
    }
}

/// However much there is to write: a finished write has put all of its bytes into the
/// pipe, and one that waits has put in as many as it says and left the pipe marked as
/// full. It wakes the other side where it has finished or put bytes in.
pub proof fn law_write_counts_its_bytes(p: &mut Pipe, buf: &[u8], io: PipeIo)
    requires
        old(p).readers > 0,
        buf@.len() <= usize::MAX,
        call_ensures(Pipe::write, (p, buf), io),
    ensures
        match io.step {
            PipeStep::Done(n) => {
                &&& final(p).wpos == (old(p).wpos + buf@.len()) % 0x1_0000_0000_0000_0000
                &&& n <= buf@.len()
                &&& io.wake
            },
            PipeStep::Sleep(n) => {
                &&& final(p).wpos == (old(p).wpos + n) % 0x1_0000_0000_0000_0000
                &&& n < buf@.len()
                &&& final(p).full
                &&& io.wake == (n > 0)
            },
        },
        final(p).rpos == old(p).rpos,
        final(p).readers == old(p).readers,
        final(p).writers == old(p).writers,
        final(p).nonblock == old(p).nonblock,
{
    lemma_write_counts(old(p)@, buf@);
    old(p)@.lemma_write_keeps_ends(buf@);
}

/// A write to a pipe that nobody reads is finished at once, and its bytes are gone.
pub proof fn law_unread_write_is_lost(p: &mut Pipe, buf: &[u8], io: PipeIo)
    requires
        old(p).readers == 0,
        buf@.len() <= usize::MAX,
        call_ensures(Pipe::write, (p, buf), io),
    ensures
        io.step == PipeStep::Done(buf@.len() as usize),
        !io.wake,
        final(p)@ == old(p)@,
{
    lemma_write_counts(old(p)@, buf@);
}

/// However much is wanted: a read hands out as many bytes as it says, and one that waits
/// has left the pipe empty. It wakes the other side where it has finished or taken bytes.
pub proof fn law_read_counts_its_bytes(p: &mut Pipe, out: &mut Vec<u8>, want: usize, io: PipeIo)
    requires
        old(out)@.len() <= want,
        call_ensures(Pipe::read, (p, out, want), io),
    ensures
        ({
            let taken = final(out)@.len() - old(out)@.len();
            &&& match io.step {
                PipeStep::Done(n) => {
                    &&& n == final(out)@.len()
                    &&& n == want || old(p).writers == 0
                    &&& io.wake == (old(p).writers > 0)
                },
                PipeStep::Sleep(n) => {
                    &&& n == final(out)@.len()
                    &&& n < want && old(p).writers > 0
                    &&& final(p).empty
                    &&& io.wake == (taken > 0)
                },
            }
            &&& final(p).rpos == (old(p).rpos + taken) % 0x1_0000_0000_0000_0000
        }),
        final(p).wpos == old(p).wpos,
        final(p).readers == old(p).readers,
        final(p).writers == old(p).writers,
        final(p).nonblock == old(p).nonblock,
{
    lemma_read_counts(old(p)@, old(out)@, want as int);
    old(p)@.lemma_read_keeps_ends(old(out)@, want as int);
}

/// A read that is woken because the last writer is gone is finished with what it has.
/// Else it goes on as a read does.
pub proof fn law_woken_read_goes_on(
    p: &mut Pipe,
    out: &mut Vec<u8>,
    q: &mut Pipe,
    out2: &mut Vec<u8>,
    want: usize,
    io: PipeIo,
    io2: PipeIo,
)
    requires
        old(out)@.len() <= want,
        old(out2)@ == old(out)@,
        old(q)@ == old(p)@,
        call_ensures(Pipe::read_woken, (p, out, want), io),
        call_ensures(Pipe::read, (q, out2, want), io2),
    ensures
        old(p).writers == 0 ==> {
            &&& io.step == PipeStep::Done(old(out)@.len() as usize)
            &&& final(out)@ == old(out)@
            &&& final(p)@ == old(p)@
        },
        old(p).writers > 0 ==> {
            &&& io == io2
            &&& final(out)@ == final(out2)@
            &&& final(p)@ == final(q)@
        },
{
}

/// A part of a write goes into the slots of the ring from the write position on, as far
/// as there is room.
pub proof fn law_write_fills_the_ring(p: &mut Pipe, buf: &[u8], n: usize)
    requires
        call_ensures(Pipe::write_inner, (p, buf), n),
    ensures
        ({
            let room = if old(p).full {
                0
            } else {
                4096 - (old(p).wpos - old(p).rpos) % 4096
            };
            &&& n == if buf@.len() <= room {
                buf@.len() as int
            } else {
                room
            }
            &&& final(p).wpos == (old(p).wpos + n) % 0x1_0000_0000_0000_0000
            &&& forall|i: int|
                0 <= i < n ==> final(p).buf@[(old(p).wpos + i) % 4096] == #[trigger] buf@[i]
            &&& forall|s: int|
                0 <= s < 4096 && (s - old(p).wpos) % 4096 >= n ==> #[trigger] final(p).buf@[s]
                    == old(p).buf@[s]
            &&& final(p).full == (old(p).full || final(p).wpos == old(p).rpos)
            &&& final(p).empty == (old(p).empty && n == 0)
            &&& final(p).rpos == old(p).rpos
            &&& final(p).readers == old(p).readers
            &&& final(p).writers == old(p).writers
        }),
{
    reveal(wrap64);
    reveal(stored);
    assert forall|i: int| 0 <= i < n implies final(p).buf@[(old(p).wpos + i) % 4096]
        == #[trigger] buf@[i] by {
        let s = (old(p).wpos + i) % 4096;
        assert((s - old(p).wpos) % 4096 == i);
        assert(buf@.take(n as int)[i] == buf@[i]);
    }
}

/// A part of a read comes from the slots of the ring from the read position on, as far
/// as there are bytes.
pub proof fn law_read_empties_the_ring(p: &mut Pipe, out: &mut Vec<u8>, len: usize, n: usize)
    requires
        call_ensures(Pipe::read_inner, (p, out, len), n),
    ensures
        ({
            let there = if old(p).empty {
                0
            } else {
                4096 - (old(p).rpos - old(p).wpos) % 4096
            };
            let got = old(out)@.len() as int;
            &&& n == if len <= there {
                len as int
            } else {
                there
            }
            &&& final(p).rpos == (old(p).rpos + n) % 0x1_0000_0000_0000_0000
            &&& final(out)@.len() == got + n
            &&& forall|i: int| 0 <= i < got ==> #[trigger] final(out)@[i] == old(out)@[i]
            &&& forall|i: int|
                0 <= i < n ==> final(out)@[got + i] == #[trigger] byte(*old(p), i)
            &&& final(p).buf@ == old(p).buf@
            &&& final(p).empty == (old(p).empty || final(p).rpos == old(p).wpos)
            &&& final(p).full == (old(p).full && n == 0)
            &&& final(p).wpos == old(p).wpos
            &&& final(p).readers == old(p).readers
            &&& final(p).writers == old(p).writers
        }),
{
    reveal(wrap64);
    let got = old(out)@.len() as int;
    assert forall|i: int| 0 <= i < n implies final(out)@[got + i] == #[trigger] byte(
        *old(p),
        i,
    ) by {
        assert(old(p)@.taken(len as int)[i] == byte(*old(p), i));
    }
}

/// A pipe counts the uses of each of its ends.
pub proof fn law_pipe_counts_its_ends(p: &mut Pipe, q: &mut Pipe, reader: bool, r: Result<(), ()>)
    requires
        reader ==> old(p).readers > 0,
        !reader ==> old(p).writers > 0,
        call_ensures(Pipe::close, (p, reader), r),
        old(q)@ == final(p)@,
        call_ensures(Pipe::dup, (q, reader, !reader), ()),
    ensures
        r is Ok,
        final(p).readers == old(p).readers - (if reader {
            1int
        } else {
            0
        }),
        final(p).writers == old(p).writers - (if reader {
            0int
        } else {
            1
        }),
        final(p)@.buf == old(p)@.buf,
        final(p).rpos == old(p).rpos,
        final(p).wpos == old(p).wpos,
        final(p).empty == old(p).empty,
        final(p).full == old(p).full,
        final(q)@ == old(p)@,
{
}

/// The states of the tasks after a transfer: a task that sleeps on the other end is
/// ready where that end is woken, the task that the processor runs sleeps on its own end
/// where it waits, and nothing else has changed.
pub open spec fn tasks_after(
    ts: Seq<Task>,
    was: Seq<Task>,
    at: int,
    own: Option<int>,
    other: Option<int>,
) -> bool {
    &&& ts.len() == was.len()
    &&& forall|i: int|
        0 <= i < was.len() && i != at ==> (#[trigger] ts[i]) == (Task {
            state: if was[i].state is Sleeping && other is Some && was[i].chan == Some(
                other->0 as u64,
            ) {
                State::Ready
            } else {
                was[i].state
            },
            ..was[i]
        })
    &&& own is None ==> ts[at].state is Running && ts[at] == was[at]
    &&& own is Some ==> {
        &&& ts[at].state is Sleeping
        &&& ts[at].chan == Some(own->0 as u64)
        &&& ts[at].lock.held
        &&& ts[at] == (Task {
            state: ts[at].state,
            chan: ts[at].chan,
            lock: ts[at].lock,
            ..was[at]
        })
    }
}

/// Whether the task that the processor runs has this file behind the descriptor that its
/// first register names, and a buffer.
pub open spec fn asks_for(k: Kernel, f: usize) -> bool {
    &&& reg(k, 0) < 8
    &&& reg(k, 1) != 0
    &&& me(k).files@[reg(k, 0) as int] is Some
    &&& me(k).files@[reg(k, 0) as int]->0.file == f
    &&& f < 128
}

/// The pipe in a slot for files.
pub open spec fn pipe_at(k: Kernel, f: usize) -> Pipe {
    *k.fs.files@[f as int].kind->Pipe_0
}

/// A call that reads a pipe sleeps on the pipe's reading end where it waits, and wakes
/// whoever sleeps on the writing end where it has finished or taken bytes.
pub proof fn law_read_sleeps_and_wakes(k: &mut Kernel, out: &mut Vec<u8>, f: usize, r: Io)
    requires
        old(k).calling(),
        asks_for(*old(k), f),
        old(k).fs.files@[f as int].kind is Pipe,
        reg(*old(k), 2) <= usize::MAX,
        old(out)@.len() == 0,
        call_ensures(sys_read, (k, out), r),
    ensures
        r is Switch || (r is Done && r->Done_0 is Ok),
        ({
            let live = pipe_at(*old(k), f).writers > 0;
            let at = old(k).cpu.task_idx->0 as int;
            match r {
                Io::Done(Ok(n)) => {
                    &&& n == final(out)@.len()
                    &&& live ==> n == reg(*old(k), 2)
                    &&& final(k).cpu == old(k).cpu
                    &&& tasks_after(
                        final(k).tasks@,
                        old(k).tasks@,
                        at,
                        None,
                        if live {
                            Some(9 + 2 * f)
                        } else {
                            None
                        },
                    )
                },
                Io::Switch(n) => {
                    &&& live
                    &&& n == final(out)@.len() < reg(*old(k), 2)
                    &&& tasks_after(
                        final(k).tasks@,
                        old(k).tasks@,
                        at,
                        Some(8 + 2 * f),
                        if n > 0 {
                            Some(9 + 2 * f)
                        } else {
                            None
                        },
                    )
                },
                _ => true,
            }
        }),
{
    lemma_me(*old(k));
    lemma_read_counts(pipe_at(*old(k), f)@, Seq::empty(), reg(*old(k), 2) as int);
}

/// A call that writes a pipe sleeps on the pipe's writing end where it waits, and wakes
/// whoever sleeps on the reading end where it has finished or put bytes in.
pub proof fn law_write_sleeps_and_wakes(k: &mut Kernel, buf: &[u8], f: usize, r: Io)
    requires
        old(k).calling(),
        asks_for(*old(k), f),
        old(k).fs.files@[f as int].kind is Pipe,
        buf@.len() == reg(*old(k), 2),
        buf@.len() <= usize::MAX,
        call_ensures(sys_write, (k, buf), r),
    ensures
        r is Switch || (r is Done && r->Done_0 is Ok),
        ({
            let live = pipe_at(*old(k), f).readers > 0;
            let at = old(k).cpu.task_idx->0 as int;
            match r {
                Io::Done(Ok(n)) => {
                    &&& n <= buf@.len()
                    &&& !live ==> n == buf@.len()
                    &&& final(k).cpu == old(k).cpu
                    &&& tasks_after(
                        final(k).tasks@,
                        old(k).tasks@,
                        at,
                        None,
                        if live {
                            Some(8 + 2 * f)
                        } else {
                            None
                        },
                    )
                },
                Io::Switch(n) => {
                    &&& live
                    &&& n < buf@.len()
                    &&& tasks_after(
                        final(k).tasks@,
                        old(k).tasks@,
                        at,
                        Some(9 + 2 * f),
                        if n > 0 {
                            Some(8 + 2 * f)
                        } else {
                            None
                        },
                    )
                },
                _ => true,
            }
        }),
{
    lemma_me(*old(k));
    lemma_write_counts(pipe_at(*old(k), f)@, buf@);
}

/// A task that sleeps because it reads a pipe in which there are too few bytes is ready
/// again when another task has written to the pipe.
pub proof fn law_write_wakes_reader(
    k: &mut Kernel,
    out: &mut Vec<u8>,
    got: usize,
    l: &mut Kernel,
    buf: &[u8],
    r: Io,
    f: usize,
)
    requires
        old(k).calling(),
        asks_for(*old(k), f),
        old(k).fs.files@[f as int].kind is Pipe,
        reg(*old(k), 2) <= usize::MAX,
        old(out)@.len() == 0,
        call_ensures(sys_read, (k, out), Io::Switch(got)),
        old(l).calling(),
        asks_for(*old(l), f),
        old(l).fs.files@[f as int].kind is Pipe,
        pipe_at(*old(l), f).readers > 0,
        buf@.len() == reg(*old(l), 2),
        buf@.len() <= usize::MAX,
        old(l).cpu.task_idx != old(k).cpu.task_idx,
        ({
            let i = old(k).cpu.task_idx->0 as int;
            &&& old(l).tasks@[i].state == final(k).tasks@[i].state
            &&& old(l).tasks@[i].chan == final(k).tasks@[i].chan
        }),
        call_ensures(sys_write, (l, buf), r),
    ensures
        ({
            let i = old(k).cpu.task_idx->0 as int;
            &&& final(k).tasks@[i].state is Sleeping
            &&& r is Done || r->Switch_0 > 0 ==> final(l).tasks@[i].state is Ready
        }),
{
    lemma_me(*old(k));
    lemma_me(*old(l));
    law_read_sleeps_and_wakes(k, out, f, Io::Switch(got));
    law_write_sleeps_and_wakes(l, buf, f, r);
}

/// A task that sleeps because it writes to a pipe that is full is ready again when
/// another task has read from the pipe.
pub proof fn law_read_wakes_writer(
    k: &mut Kernel,
    buf: &[u8],
    put: usize,
    l: &mut Kernel,
    out: &mut Vec<u8>,
    r: Io,
    f: usize,
)
    requires
        old(k).calling(),
        asks_for(*old(k), f),
        old(k).fs.files@[f as int].kind is Pipe,
        buf@.len() == reg(*old(k), 2),
        buf@.len() <= usize::MAX,
        call_ensures(sys_write, (k, buf), Io::Switch(put)),
        old(l).calling(),
        asks_for(*old(l), f),
        old(l).fs.files@[f as int].kind is Pipe,
        pipe_at(*old(l), f).writers > 0,
        reg(*old(l), 2) <= usize::MAX,
        old(out)@.len() == 0,
        old(l).cpu.task_idx != old(k).cpu.task_idx,
        ({
            let i = old(k).cpu.task_idx->0 as int;
            &&& old(l).tasks@[i].state == final(k).tasks@[i].state
            &&& old(l).tasks@[i].chan == final(k).tasks@[i].chan
        }),
        call_ensures(sys_read, (l, out), r),
    ensures
        ({
            let i = old(k).cpu.task_idx->0 as int;
            &&& final(k).tasks@[i].state is Sleeping
            &&& r is Done || r->Switch_0 > 0 ==> final(l).tasks@[i].state is Ready
        }),
{
    lemma_me(*old(k));
    lemma_me(*old(l));
    law_write_sleeps_and_wakes(k, buf, f, Io::Switch(put));
    law_read_sleeps_and_wakes(l, out, f, r);
}

/// What one task writes to an empty pipe another task reads from it.
pub proof fn law_read_gets_what_was_written(
    k: &mut Kernel,
    buf: &[u8],
    w: Io,
    l: &mut Kernel,
    out: &mut Vec<u8>,
    r: Io,
    f: usize,
)
    requires
        old(k).calling(),
        asks_for(*old(k), f),
        old(k).fs.files@[f as int].kind is Pipe,
        pipe_at(*old(k), f).readers > 0,
        is_steady(pipe_at(*old(k), f)),
        held(pipe_at(*old(k), f)) == 0,
        0 < buf@.len() <= 4096,
        buf@.len() == reg(*old(k), 2),
        call_ensures(sys_write, (k, buf), w),
        old(l).calling(),
        asks_for(*old(l), f),
        old(l).fs.files@[f as int].kind is Pipe,
        pipe_at(*old(l), f) == pipe_at(*final(k), f),
        pipe_at(*old(l), f).writers > 0,
        old(out)@.len() == 0,
        reg(*old(l), 2) <= usize::MAX,
        call_ensures(sys_read, (l, out), r),
    ensures
        w == Io::Done(Ok::<usize, ()>(buf@.len() as usize)),
        reg(*old(l), 2) <= buf@.len() ==> {
            &&& r == Io::Done(Ok::<usize, ()>(reg(*old(l), 2) as usize))
            &&& final(out)@ == buf@.take(reg(*old(l), 2) as int)
        },
        reg(*old(l), 2) > buf@.len() ==> {
            &&& r == Io::Switch(buf@.len() as usize)
            &&& final(out)@ == buf@
        },
{
    lemma_me(*old(k));
    lemma_me(*old(l));
    let p = pipe_at(*old(k), f);
    let q = pipe_at(*old(l), f);
    lemma_steady(p);
    law_write_appends(p@, buf@);
    assert(p@.contents() + buf@ =~= buf@);
    law_read_takes_front(q@, Seq::empty(), reg(*old(l), 2) as int);
    assert(q@.contents() == buf@);
    let n = reg(*old(l), 2) as int;
    if n <= buf@.len() {
        assert(Seq::<u8>::empty() + buf@.take(n) =~= buf@.take(n));
    } else {
        assert(Seq::<u8>::empty() + buf@.take(buf@.len() as int) =~= buf@);
    }
}

/// A read that has been woken and goes on sleeps and wakes as a read does.
pub proof fn law_woken_read_sleeps_and_wakes(
    k: &mut Kernel,
    f: usize,
    out: &mut Vec<u8>,
    want: usize,
    r: Io,
)
    requires
        old(k).entering(),
        f < 128,
        old(k).fs.files@[f as int].kind is Pipe,
        old(out)@.len() <= want,
        call_ensures(read_woken, (k, f, out, want), r),
    ensures
        r is Switch || (r is Done && r->Done_0 is Ok),
        ({
            let live = pipe_at(*old(k), f).writers > 0;
            let at = old(k).cpu.task_idx->0 as int;
            let was = old(k).tasks@.update(
                at,
                Task { chan: None, lock: crate::task::Lock { held: false }, ..me(*old(k)) },
            );
            match r {
                Io::Done(Ok(n)) => {
                    &&& n == final(out)@.len()
                    &&& if live {
                        n == want
                    } else {
                        final(out)@ == old(out)@
                    }
                    &&& tasks_after(
                        final(k).tasks@,
                        was,
                        at,
                        None,
                        if live {
                            Some(9 + 2 * f)
                        } else {
                            None
                        },
                    )
                },
                Io::Switch(n) => {
                    &&& live
                    &&& n == final(out)@.len() < want
                    &&& tasks_after(
                        final(k).tasks@,
                        was,
                        at,
                        Some(8 + 2 * f),
                        if n > old(out)@.len() {
                            Some(9 + 2 * f)
                        } else {
                            None
                        },
                    )
                },
                _ => true,
            }
        }),
{
    lemma_read_counts(pipe_at(*old(k), f)@, old(out)@, want as int);
}

/// A write that has been woken and goes on sleeps and wakes as a write does.
pub proof fn law_woken_write_sleeps_and_wakes(k: &mut Kernel, f: usize, rest: &[u8], r: Io)
    requires
        old(k).entering(),
        f < 128,
        old(k).fs.files@[f as int].kind is Pipe,
        rest@.len() <= usize::MAX,
        call_ensures(write_woken, (k, f, rest), r),
    ensures
        r is Switch || (r is Done && r->Done_0 is Ok),
        ({
            let live = pipe_at(*old(k), f).readers > 0;
            let at = old(k).cpu.task_idx->0 as int;
            let was = old(k).tasks@.update(
                at,
                Task { chan: None, lock: crate::task::Lock { held: false }, ..me(*old(k)) },
            );
            match r {
                Io::Done(Ok(n)) => {
                    &&& n <= rest@.len()
                    &&& !live ==> n == rest@.len()
                    &&& tasks_after(
                        final(k).tasks@,
                        was,
                        at,
                        None,
                        if live {
                            Some(8 + 2 * f)
                        } else {
                            None
                        },
                    )
                },
                Io::Switch(n) => {
                    &&& live
                    &&& n < rest@.len()
                    &&& tasks_after(
                        final(k).tasks@,
                        was,
                        at,
                        Some(9 + 2 * f),
                        if n > 0 {
                            Some(8 + 2 * f)
                        } else {
                            None
                        },
                    )
                },
                _ => true,
            }
        }),
{
    lemma_write_counts(pipe_at(*old(k), f)@, rest@);
}

/// Reading a file by its slot is what a call that names it by a descriptor does.
pub proof fn law_file_is_read_as_by_call(
    k: &mut Kernel,
    out: &mut Vec<u8>,
    l: &mut Kernel,
    out2: &mut Vec<u8>,
    f: usize,
    r: Io,
    r2: Io,
)
    requires
        *old(k) == *old(l),
        old(k).calling(),
        asks_for(*old(k), f),
        old(out)@.len() == 0,
        old(out2)@.len() == 0,
        reg(*old(k), 2) <= usize::MAX,
        old(k).fs.files@[f as int].rc > 0,
        call_ensures(sys_read, (k, out), r),
        call_ensures(read_file, (l, f, out2, reg(*old(k), 2) as usize), r2),
    ensures
        r == r2,
        final(out)@ == final(out2)@,
        final(k).tasks@ == final(l).tasks@,
        final(k).cpu == final(l).cpu,
        old(k).fs.files@[f as int].kind is Pipe ==> only_pipe(
            *final(l),
            *old(l),
            f,
            pipe_at(*final(k), f),
        ),
{
    lemma_me(*old(k));
    assert(old(out)@ =~= Seq::empty());
    assert(old(out2)@ =~= Seq::empty());
}

/// Writing a file by its slot is what a call that names it by a descriptor does.
pub proof fn law_file_is_written_as_by_call(
    k: &mut Kernel,
    l: &mut Kernel,
    buf: &[u8],
    f: usize,
    r: Io,
    r2: Io,
)
    requires
        *old(k) == *old(l),
        old(k).calling(),
        asks_for(*old(k), f),
        old(k).fs.files@[f as int].rc > 0,
        call_ensures(sys_write, (k, buf), r),
        call_ensures(write_file, (l, f, buf), r2),
    ensures
        r == r2,
        final(k).tasks@ == final(l).tasks@,
        final(k).cpu == final(l).cpu,
        old(k).fs.files@[f as int].kind is Pipe ==> only_pipe(
            *final(l),
            *old(l),
            f,
            pipe_at(*final(k), f),
        ),
{
    lemma_me(*old(k));
}

/// Whether no file has changed but a pipe, and that is this one now.
pub open spec fn only_pipe(k: Kernel, old: Kernel, f: usize, p: Pipe) -> bool {
    let (file, was) = (k.fs.files@[f as int], old.fs.files@[f as int]);
    &&& file.kind is Pipe
    &&& pipe_at(k, f)@ == p@
    &&& file.rc == was.rc
    &&& file.offt == was.offt
    &&& file.path == was.path
    &&& k.fs.files@.len() == old.fs.files@.len()
    &&& forall|g: int|
        0 <= g < old.fs.files@.len() && g != f ==> #[trigger] k.fs.files@[g] == old.fs.files@[g]
}

/// A call that reads a pipe, and one that goes on after it slept, do to the pipe what
/// reading it does, and to no other file anything.
pub proof fn law_call_reads_the_pipe(
    k: &mut Kernel,
    out: &mut Vec<u8>,
    r: Io,
    p: &mut Pipe,
    out2: &mut Vec<u8>,
    io: PipeIo,
    f: usize,
)
    requires
        old(k).calling(),
        asks_for(*old(k), f),
        old(k).fs.files@[f as int].kind is Pipe,
        old(out)@.len() == 0,
        old(out2)@.len() == 0,
        *old(p) == pipe_at(*old(k), f),
        reg(*old(k), 2) <= usize::MAX,
        call_ensures(sys_read, (k, out), r),
        call_ensures(Pipe::read, (p, out2, reg(*old(k), 2) as usize), io),
    ensures
        only_pipe(*final(k), *old(k), f, *final(p)),
        final(out)@ == final(out2)@,
        io.step matches PipeStep::Done(n) ==> r == Io::Done(Ok::<usize, ()>(n)),
        io.step matches PipeStep::Sleep(n) ==> r == Io::Switch(n),
{
    lemma_me(*old(k));
    assert(old(out2)@ =~= Seq::empty());
}

/// A call that writes a pipe does to the pipe what writing it does, and to no other file
/// anything.
pub proof fn law_call_writes_the_pipe(
    k: &mut Kernel,
    buf: &[u8],
    r: Io,
    p: &mut Pipe,
    io: PipeIo,
    f: usize,
)
    requires
        old(k).calling(),
        asks_for(*old(k), f),
        old(k).fs.files@[f as int].kind is Pipe,
        *old(p) == pipe_at(*old(k), f),
        call_ensures(sys_write, (k, buf), r),
        call_ensures(Pipe::write, (p, buf), io),
    ensures
        only_pipe(*final(k), *old(k), f, *final(p)),
        io.step matches PipeStep::Done(n) ==> r == Io::Done(Ok::<usize, ()>(n)),
        io.step matches PipeStep::Sleep(n) ==> r == Io::Switch(n),
{
    lemma_me(*old(k));
}

/// A transfer that goes on after it slept does to the pipe what going on with it there
/// does, and to no other file anything.
pub proof fn law_woken_call_goes_on_with_the_pipe(
    k: &mut Kernel,
    f: usize,
    out: &mut Vec<u8>,
    want: usize,
    r: Io,
    p: &mut Pipe,
    out2: &mut Vec<u8>,
    io: PipeIo,
    l: &mut Kernel,
    rest: &[u8],
    w: Io,
    q: &mut Pipe,
    io2: PipeIo,
)
    requires
        old(k).entering(),
        *old(l) == *old(k),
        f < 128,
        old(k).fs.files@[f as int].kind is Pipe,
        old(out2)@ == old(out)@,
        *old(p) == pipe_at(*old(k), f),
        *old(q) == pipe_at(*old(k), f),
        call_ensures(read_woken, (k, f, out, want), r),
        call_ensures(Pipe::read_woken, (p, out2, want), io),
        call_ensures(write_woken, (l, f, rest), w),
        call_ensures(Pipe::write, (q, rest), io2),
    ensures
        only_pipe(*final(k), *old(k), f, *final(p)),
        final(out)@ == final(out2)@,
        io.step matches PipeStep::Done(n) ==> r == Io::Done(Ok::<usize, ()>(n)),
        io.step matches PipeStep::Sleep(n) ==> r == Io::Switch(n),
        only_pipe(*final(l), *old(k), f, *final(q)),
        io2.step matches PipeStep::Done(n) ==> w == Io::Done(Ok::<usize, ()>(n)),
        io2.step matches PipeStep::Sleep(n) ==> w == Io::Switch(n),
{
}

} // verus!
