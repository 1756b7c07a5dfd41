//! The byte pipe: a ring of `PIPE_SIZE` bytes between read and write ends.
use vstd::prelude::*;
use vstd::slice::slice_subrange;

verus! {

/// Bytes in a pipe's ring.
pub const PIPE_SIZE: usize = 4096;

/// A pipe. `rpos` and `wpos` count the bytes read and written since the pipe was
/// made, modulo 2^64; the ring slot of a position is its remainder modulo
/// `PIPE_SIZE`.
pub struct Pipe {
    pub readers: usize,
    pub writers: usize,
    pub rpos: u64,
    pub wpos: u64,
    pub empty: bool,
    pub full: bool,
    pub nonblock: bool,
    pub buf: [u8; 4096],
}

/// Where a transfer stands: finished with a result, or waiting for the other end
/// after so many bytes of the caller's buffer were moved.
#[derive(Clone, Copy, Debug, PartialEq, Eq, Structural)]
pub enum PipeStep {
    Done(usize),
    Sleep(usize),
}

/// What a transfer asks for: whether the tasks sleeping at the other end are to be
/// woken, and how to go on.
#[derive(Clone, Copy, Debug, PartialEq, Eq, Structural)]
pub struct PipeIo {
    pub wake: bool,
    pub step: PipeStep,
}

/// The mathematical value of a pipe.
#[verifier::ext_equal]
pub struct PipeView {
    pub readers: nat,
    pub writers: nat,
    pub rpos: int,
    pub wpos: int,
    pub empty: bool,
    pub full: bool,
    pub nonblock: bool,
    pub buf: Seq<u8>,
}

/// `x` modulo 2^64.
#[verifier::opaque]
pub open spec fn wrap64(x: int) -> int {
    x % 0x1_0000_0000_0000_0000
}

/// The ring after `data` has been stored from position `pos` on.
#[verifier::opaque]
pub open spec fn stored(ring: Seq<u8>, pos: int, data: Seq<u8>) -> Seq<u8> {
    Seq::new(
        ring.len(),
        |s: int|
            if (s - pos) % 4096 < data.len() {
                data[(s - pos) % 4096]
            } else {
                ring[s]
            },
    )
}

/// The `n` bytes of the ring from position `pos` on.
pub open spec fn fetched(ring: Seq<u8>, pos: int, n: int) -> Seq<u8> {
    Seq::new(n as nat, |i: int| ring[(pos + i) % 4096])
}

/// How far slot `s` lies behind the slot of position `pos`.
proof fn lemma_behind(s: int, pos: int)
    requires
        0 <= s < 4096,
        0 <= pos,
    ensures
        (s - pos) % 4096 == if s >= pos % 4096 {
            s - pos % 4096
        } else {
            s - pos % 4096 + 4096
        },
{
}

/// The slot `i` places after the slot of position `pos`.
proof fn lemma_ahead(pos: int, i: int)
    requires
        0 <= i < 4096,
        0 <= pos,
    ensures
        (pos + i) % 4096 == if pos % 4096 + i < 4096 {
            pos % 4096 + i
        } else {
            pos % 4096 + i - 4096
        },
{
}

/// Machine addition wraps.
proof fn lemma_wrapping(x: u64, n: u64)
    ensures
        x.wrapping_add(n) == wrap64(x + n),
{
    reveal(wrap64);
}

/// Reading up to the ring's end and going on at its start is reading in order.
proof fn lemma_two_reads(ring: Seq<u8>, pos: int, n1: int, n2: int)
    requires
        ring.len() == 4096,
        0 <= pos,
        0 <= n1 <= 4096 - pos % 4096,
        0 <= n2 <= pos % 4096,
        n2 > 0 ==> n1 == 4096 - pos % 4096,
    ensures
        fetched(ring, pos, n1 + n2) == ring.subrange(pos % 4096, pos % 4096 + n1)
            + ring.subrange(0, n2),
{
    let two = ring.subrange(pos % 4096, pos % 4096 + n1) + ring.subrange(0, n2);
    let one = fetched(ring, pos, n1 + n2);
    assert forall|i: int| 0 <= i < one.len() implies #[trigger] one[i] == two[i] by {
        lemma_ahead(pos, i);
    }
    assert(one =~= two);
}

/// The distance between two positions, through their slots.
proof fn lemma_distance(a: int, b: int)
    requires
        0 <= a,
        0 <= b,
    ensures
        (a - b) % 4096 == if a % 4096 >= b % 4096 {
            a % 4096 - b % 4096
        } else {
            a % 4096 - b % 4096 + 4096
        },
{
}

/// Storing up to the ring's end and going on at its start is storing in order.
proof fn lemma_two_parts(ring: Seq<u8>, new: Seq<u8>, pos: int, data: Seq<u8>, n1: int, n2: int)
    requires
        ring.len() == 4096,
        new.len() == 4096,
        0 <= pos,
        0 <= n1 <= 4096 - pos % 4096,
        0 <= n2 <= pos % 4096,
        n2 > 0 ==> n1 == 4096 - pos % 4096,
        n1 + n2 <= data.len(),
        forall|s: int|
            0 <= s < 4096 ==> #[trigger] new[s] == if s < n2 {
                data[n1 + s]
            } else if pos % 4096 <= s < pos % 4096 + n1 {
                data[s - pos % 4096]
            } else {
                ring[s]
            },
    ensures
        new == stored(ring, pos, data.take(n1 + n2)),
{
    reveal(stored);
    assert forall|s: int| 0 <= s < 4096 implies #[trigger] new[s] == stored(
        ring,
        pos,
        data.take(n1 + n2),
    )[s] by {
        lemma_behind(s, pos);
    }
    assert(new =~= stored(ring, pos, data.take(n1 + n2)));
}

/// The result of a whole write or read call on a pipe.
#[verifier::ext_equal]
pub struct Run {
    pub pipe: PipeView,
    pub io: PipeIo,
    pub bytes: Seq<u8>,
}

pub open spec fn later(step: PipeStep, n: int) -> PipeStep {
    match step {
        PipeStep::Done(v) => PipeStep::Done(v),
        PipeStep::Sleep(k) => PipeStep::Sleep((k + n) as usize),
    }
}

impl PipeView {
    /// Bytes that a write stores before it looks at the pipe again.
    pub open spec fn space(self) -> int {
        if self.full {
            0
        } else {
            4096 - (self.wpos - self.rpos) % 4096
        }
    }

    /// Bytes that a read fetches before it looks at the pipe again.
    pub open spec fn avail(self) -> int {
        if self.empty {
            0
        } else {
            4096 - (self.rpos - self.wpos) % 4096
        }
    }

    pub open spec fn put_len(self, len: int) -> int {
        if len <= self.space() {
            len
        } else {
            self.space()
        }
    }

    pub open spec fn take_len(self, len: int) -> int {
        if len <= self.avail() {
            len
        } else {
            self.avail()
        }
    }

    /// The pipe after one round of writing `data`: the first `put_len` bytes are in.
    pub open spec fn put(self, data: Seq<u8>) -> PipeView {
        let n = self.put_len(data.len() as int);
        let wpos = wrap64(self.wpos + n);
        PipeView {
            buf: stored(self.buf, self.wpos, data.take(n)),
            wpos,
            full: self.full || wpos == self.rpos,
            empty: self.empty && n == 0,
            ..self
        }
    }

    /// The pipe after one round of reading up to `len` bytes.
    pub open spec fn take(self, len: int) -> PipeView {
        let n = self.take_len(len);
        let rpos = wrap64(self.rpos + n);
        PipeView {
            rpos,
            empty: self.empty || rpos == self.wpos,
            full: self.full && n == 0,
            ..self
        }
    }

    /// The bytes that one round of reading up to `len` bytes hands out.
    pub open spec fn taken(self, len: int) -> Seq<u8> {
        fetched(self.buf, self.rpos, self.take_len(len))
    }

    /// Writing `data`: rounds follow each other until nothing is left, the last
    /// read end is gone, or the pipe is full. The value of a finished write is the
    /// length of what stood before its last round.
    pub open spec fn write_run(self, data: Seq<u8>) -> Run
        decreases data.len(),
    {
        let n = self.put_len(data.len() as int);
        let p = self.put(data);
        if self.readers == 0 {
            Run {
                pipe: self,
                io: PipeIo { wake: false, step: PipeStep::Done(data.len() as usize) },
                bytes: Seq::empty(),
            }
        } else if n == data.len() {
            Run {
                pipe: p,
                io: PipeIo { wake: true, step: PipeStep::Done(data.len() as usize) },
                bytes: Seq::empty(),
            }
        } else if p.full || n <= 0 {
            Run {
                pipe: p,
                io: PipeIo { wake: n > 0, step: PipeStep::Sleep(n as usize) },
                bytes: Seq::empty(),
            }
        } else {
            let r = p.write_run(data.skip(n));
            Run { pipe: r.pipe, io: PipeIo { wake: true, step: later(r.io.step, n) }, bytes: r.bytes }
        }
    }

    /// Reading `want` bytes of which `got` are there already: rounds follow each
    /// other until all are there, the last write end is gone, or the pipe is empty.
    pub open spec fn read_run(self, got: Seq<u8>, want: int) -> Run
        decreases want - got.len(),
    {
        let n = self.take_len(want - got.len());
        let p = self.take(want - got.len());
        let all = got + self.taken(want - got.len());
        if self.writers == 0 {
            Run {
                pipe: p,
                io: PipeIo { wake: false, step: PipeStep::Done(all.len() as usize) },
                bytes: all,
            }
        } else if n == want - got.len() {
            Run {
                pipe: p,
                io: PipeIo { wake: true, step: PipeStep::Done(all.len() as usize) },
                bytes: all,
            }
        } else if p.empty || n <= 0 {
            Run {
                pipe: p,
                io: PipeIo { wake: n > 0, step: PipeStep::Sleep(all.len() as usize) },
                bytes: all,
            }
        } else {
            let r = p.read_run(all, want);
            Run { pipe: r.pipe, io: PipeIo { wake: true, step: r.io.step }, bytes: r.bytes }
        }
    }
}

impl PipeView {
    /// Reading on after a sleep.
    pub open spec fn read_on(self, got: Seq<u8>, want: int) -> Run {
        if self.writers == 0 {
            Run {
                pipe: self,
                io: PipeIo { wake: false, step: PipeStep::Done(got.len() as usize) },
                bytes: got,
            }
        } else {
            self.read_run(got, want)
        }
    }

    /// The pipe with one end more.
    pub open spec fn more(self, reader: bool) -> PipeView {
        if reader {
            PipeView { readers: self.readers + 1, ..self }
        } else {
            PipeView { writers: self.writers + 1, ..self }
        }
    }

    /// The pipe with one end less.
    pub open spec fn less(self, reader: bool) -> PipeView {
        if reader {
            PipeView { readers: (self.readers - 1) as nat, ..self }
        } else {
            PipeView { writers: (self.writers - 1) as nat, ..self }
        }
    }

    /// Writing adds and removes no ends.
    pub proof fn lemma_write_keeps_ends(self, data: Seq<u8>)
        ensures
            self.write_run(data).pipe.readers == self.readers,
            self.write_run(data).pipe.writers == self.writers,
        decreases data.len(),
    {
        let n = self.put_len(data.len() as int);
        let p = self.put(data);
        if self.readers != 0 && n != data.len() && !p.full && n > 0 {
            p.lemma_write_keeps_ends(data.skip(n));
        }
    }

    /// Reading adds and removes no ends.
    pub proof fn lemma_read_keeps_ends(self, got: Seq<u8>, want: int)
        ensures
            self.read_run(got, want).pipe.readers == self.readers,
            self.read_run(got, want).pipe.writers == self.writers,
        decreases want - got.len(),
    {
        let n = self.take_len(want - got.len());
        let p = self.take(want - got.len());
        if self.writers != 0 && n != want - got.len() && !p.empty && n > 0 {
            p.lemma_read_keeps_ends(got + self.taken(want - got.len()), want);
        }
    }

    /// A write that sleeps has moved no more than there was.
    pub proof fn lemma_write_step(self, data: Seq<u8>)
        requires
            data.len() <= usize::MAX,
        ensures
            self.write_run(data).io.step matches PipeStep::Sleep(k) ==> k <= data.len(),
        decreases data.len(),
    {
        let n = self.put_len(data.len() as int);
        let p = self.put(data);
        if self.readers != 0 && n != data.len() && !p.full && n > 0 {
            p.lemma_write_step(data.skip(n));
        }
    }
}

impl View for Pipe {
    type V = PipeView;

    open spec fn view(&self) -> PipeView {
        PipeView {
            readers: self.readers as nat,
            writers: self.writers as nat,
            rpos: self.rpos as int,
            wpos: self.wpos as int,
            empty: self.empty,
            full: self.full,
            nonblock: self.nonblock,
            buf: self.buf@,
        }
    }
}

/// The start of a range of ring slots and how many of `len` bytes fit in it.
fn part(range: Option<(usize, usize)>, len: usize) -> (r: (usize, usize))
    requires
        range matches Some((lo, hi)) ==> lo <= hi,
    ensures
        r == match range {
            Some((lo, hi)) => (
                lo,
                if len < hi - lo {
                    len
                } else {
                    (hi - lo) as usize
                },
            ),
            None => (0usize, 0usize),
        },
{
    match range {
        Some((lo, hi)) => (
            lo,
            if len < hi - lo {
                len
            } else {
                hi - lo
            },
        ),
        None => (0, 0),
    }
}

impl Pipe {
    /// An empty pipe with one read end and no write end.
    pub fn new(nonblock: bool) -> (p: Pipe)
        ensures
            p@ == (PipeView {
                readers: 1,
                writers: 0,
                rpos: 0,
                wpos: 0,
                empty: true,
                full: false,
                nonblock,
                buf: Seq::new(4096, |i: int| 0u8),
            }),
    {
        Pipe {
            readers: 1,
            writers: 0,
            rpos: 0,
            wpos: 0,
            empty: true,
            full: false,
            nonblock,
            buf: [0u8; 4096],
        }
    }

    /// The ring slot of the next byte to be written.
    pub fn get_w_pos(&self) -> (s: usize)
        ensures
            s == self@.wpos % 4096,
            s < 4096,
    {
        (self.wpos % 4096) as usize
    }

    /// The ring slot of the next byte to be read.
    pub fn get_r_pos(&self) -> (s: usize)
        ensures
            s == self@.rpos % 4096,
            s < 4096,
    {
        (self.rpos % 4096) as usize
    }

    /// The ring slots that may be written, as ranges in writing order.
    pub fn get_write_space(&self) -> (r: (Option<(usize, usize)>, Option<(usize, usize)>))
        ensures
            r == ({
                let rm = (self@.rpos % 4096) as usize;
                let wm = (self@.wpos % 4096) as usize;
                if self@.full {
                    (None::<(usize, usize)>, None::<(usize, usize)>)
                } else if wm >= rm {
                    (Some((wm, 4096usize)), Some((0usize, rm)))
                } else {
                    (Some((wm, rm)), None)
                }
            }),
    {
        if self.full {
            return (None, None);
        }
        let rpos: usize = self.get_r_pos();
        let wpos: usize = self.get_w_pos();
        if wpos >= rpos {
            (Some((wpos, PIPE_SIZE)), Some((0, rpos)))
        } else {
            (Some((wpos, rpos)), None)
        }
    }

    /// The ring slots that may be read, as ranges in reading order.
    pub fn get_read_space(&self) -> (r: (Option<(usize, usize)>, Option<(usize, usize)>))
        ensures
            r == ({
                let rm = (self@.rpos % 4096) as usize;
                let wm = (self@.wpos % 4096) as usize;
                if self@.empty {
                    (None::<(usize, usize)>, None::<(usize, usize)>)
                } else if rm >= wm {
                    (Some((rm, 4096usize)), Some((0usize, wm)))
                } else {
                    (Some((rm, wm)), None)
                }
            }),
    {
        if self.empty {
            return (None, None);
        }
        let rpos: usize = self.get_r_pos();
        let wpos: usize = self.get_w_pos();
        if rpos >= wpos {
            (Some((rpos, PIPE_SIZE)), Some((0, wpos)))
        } else {
            (Some((rpos, wpos)), None)
        }
    }

    /// Copies `n` bytes of `src` from index `from` on to the ring from slot `at` on.
    fn store(&mut self, at: usize, src: &[u8], from: usize, n: usize)
        requires
            at + n <= 4096,
            from + n <= src.len(),
        ensures
            *final(self) == (Pipe { buf: final(self).buf, ..*old(self) }),
            forall|s: int|
                0 <= s < 4096 ==> #[trigger] final(self).buf@[s] == if at <= s < at + n {
                    src@[from + s - at]
                } else {
                    old(self).buf@[s]
                },
    {
        let mut i: usize = 0;
        while i < n
            invariant
                i <= n,
                at + n <= 4096,
                from + n <= src.len(),
                *self == (Pipe { buf: self.buf, ..*old(self) }),
                forall|s: int|
                    0 <= s < 4096 ==> #[trigger] self.buf@[s] == if at <= s < at + i {
                        src@[from + s - at]
                    } else {
                        old(self).buf@[s]
                    },
            decreases n - i,
        {
            self.buf[at + i] = src[from + i];
            i += 1;
        }
    }

    /// Appends to `out` the `n` ring bytes from slot `at` on.
    fn fetch(&self, at: usize, n: usize, out: &mut Vec<u8>)
        requires
            at + n <= 4096,
        ensures
            final(out)@ == old(out)@ + self.buf@.subrange(at as int, at + n),
    {
        let mut i: usize = 0;
        while i < n
            invariant
                i <= n,
                at + n <= 4096,
                out@ == old(out)@ + self.buf@.subrange(at as int, at + i),
            decreases n - i,
        {
            out.push(self.buf[at + i]);
            assert(self.buf@.subrange(at as int, at + i + 1) == self.buf@.subrange(
                at as int,
                at + i,
            ).push(self.buf@[at + i]));
            i += 1;
        }
    }

    /// One round of writing `buf`; returns how many of its bytes went in.
    pub fn write_inner(&mut self, buf: &[u8]) -> (n: usize)
        ensures
            n == old(self)@.put_len(buf@.len() as int),
            final(self)@ == old(self)@.put(buf@),
    {
        let (a, b) = self.get_write_space();
        let (alo, n1) = part(a, buf.len());
        let (blo, n2) = part(b, buf.len() - n1);
        let written: usize = n1 + n2;
        proof {
            lemma_distance(self@.wpos, self@.rpos);
            lemma_wrapping(self.wpos, written as u64);
        }
        self.store(alo, buf, 0, n1);
        self.store(blo, buf, n1, n2);
        proof {
            lemma_two_parts(old(self)@.buf, self@.buf, self@.wpos, buf@, n1 as int, n2 as int);
        }
        self.wpos = self.wpos.wrapping_add(written as u64);
        if self.wpos == self.rpos {
            self.full = true;
        }
        if written > 0 {
            self.empty = false;
        }
        written
    }

    /// One round of reading up to `len` bytes, which are appended to `out`; returns
    /// how many there were.
    pub fn read_inner(&mut self, out: &mut Vec<u8>, len: usize) -> (n: usize)
        ensures
            n == old(self)@.take_len(len as int),
            final(self)@ == old(self)@.take(len as int),
            final(out)@ == old(out)@ + old(self)@.taken(len as int),
    {
        let (a, b) = self.get_read_space();
        let (alo, n1) = part(a, len);
        let (blo, n2) = part(b, len - n1);
        let rd: usize = n1 + n2;
        proof {
            lemma_distance(self@.rpos, self@.wpos);
            lemma_wrapping(self.rpos, rd as u64);
            lemma_two_reads(self@.buf, self@.rpos, n1 as int, n2 as int);
        }
        self.fetch(alo, n1, out);
        self.fetch(blo, n2, out);
        assert(out@ =~= old(out)@ + old(self)@.taken(len as int));
        self.rpos = self.rpos.wrapping_add(rd as u64);
        if self.wpos == self.rpos {
            self.empty = true;
        }
        if rd > 0 {
            self.full = false;
        }
        rd
    }

    /// Writes `buf`. The call is finished (`Done`), or it has to sleep until there
    /// is room and then be made again for the bytes behind the first `Sleep(n)`.
    pub fn write(&mut self, buf: &[u8]) -> (io: PipeIo)
        ensures
            final(self)@ == old(self)@.write_run(buf@).pipe,
            io == old(self)@.write_run(buf@).io,
    {
        let len: usize = buf.len();
        let mut from: usize = 0;
        let mut wake: bool = false;
        proof {
            assert(buf@.skip(0) =~= buf@);
            self@.lemma_write_step(buf@);
        }
        loop
            invariant
                from <= len == buf@.len(),
                from > 0 ==> wake,
                from == 0 ==> !wake,
                old(self)@.write_run(buf@).pipe == self@.write_run(buf@.skip(from as int)).pipe,
                old(self)@.write_run(buf@).io.wake == (wake || self@.write_run(
                    buf@.skip(from as int),
                ).io.wake),
                old(self)@.write_run(buf@).io.step == later(
                    self@.write_run(buf@.skip(from as int)).io.step,
                    from as int,
                ),
            decreases len - from,
        {
            let ghost rest = buf@.skip(from as int);
            if self.readers == 0 {
                return PipeIo { wake, step: PipeStep::Done(len - from) };
            }
            let n: usize = self.write_inner(slice_subrange(buf, from, len));
            if n == len - from {
                return PipeIo { wake: true, step: PipeStep::Done(len - from) };
            }
            from += n;
            if n > 0 {
                wake = true;
            }
            if self.full {
                return PipeIo { wake, step: PipeStep::Sleep(from) };
            }
            proof {
                assert(rest.skip(n as int) =~= buf@.skip(from as int));
                self@.lemma_write_step(buf@.skip(from as int));
            }
        }
    }

    /// Reads until `out` holds `want` bytes. The call is finished (`Done`), or it has
    /// to sleep until there are bytes and then go on with `read_woken`.
    pub fn read(&mut self, out: &mut Vec<u8>, want: usize) -> (io: PipeIo)
        requires
            old(out)@.len() <= want,
        ensures
            final(self)@ == old(self)@.read_run(old(out)@, want as int).pipe,
            io == old(self)@.read_run(old(out)@, want as int).io,
            final(out)@ == old(self)@.read_run(old(out)@, want as int).bytes,
    {
        let mut wake: bool = false;
        loop
            invariant
                out@.len() <= want,
                old(self)@.read_run(old(out)@, want as int).pipe == self@.read_run(
                    out@,
                    want as int,
                ).pipe,
                old(self)@.read_run(old(out)@, want as int).bytes == self@.read_run(
                    out@,
                    want as int,
                ).bytes,
                old(self)@.read_run(old(out)@, want as int).io.step == self@.read_run(
                    out@,
                    want as int,
                ).io.step,
                old(self)@.read_run(old(out)@, want as int).io.wake == (wake || self@.read_run(
                    out@,
                    want as int,
                ).io.wake),
                wake ==> self@.writers != 0,
            decreases want - out@.len(),
        {
            let left: usize = want - out.len();
            let n: usize = self.read_inner(out, left);
            if self.writers == 0 {
                return PipeIo { wake, step: PipeStep::Done(out.len()) };
            }
            if n == left {
                return PipeIo { wake: true, step: PipeStep::Done(out.len()) };
            }
            if n > 0 {
                wake = true;
            }
            if self.empty {
                return PipeIo { wake, step: PipeStep::Sleep(out.len()) };
            }
        }
    }

    /// Goes on with a read that slept: where the last write end has gone meanwhile,
    /// the read ends with what it has.
    pub fn read_woken(&mut self, out: &mut Vec<u8>, want: usize) -> (io: PipeIo)
        requires
            old(out)@.len() <= want,
        ensures
            final(self)@ == old(self)@.read_on(old(out)@, want as int).pipe,
            io == old(self)@.read_on(old(out)@, want as int).io,
            final(out)@ == old(self)@.read_on(old(out)@, want as int).bytes,
    {
        if self.writers == 0 {
            return PipeIo { wake: false, step: PipeStep::Done(out.len()) };
        }
        self.read(out, want)
    }

    /// Gives up one end. The sleepers at both ends are to be woken.
    pub fn close(&mut self, reader: bool) -> (r: Result<(), ()>)
        requires
            reader ==> old(self).readers > 0,
            !reader ==> old(self).writers > 0,
        ensures
            r == Ok::<(), ()>(()),
            final(self)@ == old(self)@.less(reader),
    {
        if reader {
            self.readers -= 1;
        } else {
            self.writers -= 1;
        }
        Ok(())
    }

    /// Takes one more end: a read end (`r`) or a write end (`w`).
    pub fn dup(&mut self, r: bool, w: bool)
        requires
            r != w,
            r ==> old(self).readers < usize::MAX,
            w ==> old(self).writers < usize::MAX,
        ensures
            final(self)@ == old(self)@.more(r),
    {
        if r {
            self.readers += 1;
        }
        if w {
            self.writers += 1;
        }
    }
}

impl PipeView {
    /// Bytes written and not yet read.
    pub open spec fn pending(self) -> int {
        (self.wpos - self.rpos) % 0x1_0000_0000_0000_0000
    }

    /// What the pipe holds, oldest byte first.
    pub open spec fn contents(self) -> Seq<u8> {
        fetched(self.buf, self.rpos, self.pending())
    }

    /// A pipe whose ring has not been overrun and whose flags say so.
    pub open spec fn sound(self) -> bool {
        &&& self.buf.len() == 4096
        &&& 0 <= self.rpos < 0x1_0000_0000_0000_0000
        &&& 0 <= self.wpos < 0x1_0000_0000_0000_0000
        &&& self.pending() <= 4096
        &&& self.empty == (self.pending() == 0)
        &&& !self.full
    }
}

/// Where `b` lies `d` places after `a` modulo 2^64, it does so modulo the ring's size.
proof fn lemma_ring_distance(a: int, b: int, d: int)
    requires
        d == (b - a) % 0x1_0000_0000_0000_0000,
        0 <= d <= 4096,
    ensures
        d < 4096 ==> (b - a) % 4096 == d,
        d == 4096 ==> (b - a) % 4096 == 0,
        d > 0 ==> (a - b) % 4096 == 4096 - (if d == 4096 {
            4096
        } else {
            d
        }),
        d == 0 ==> (a - b) % 4096 == 0,
{
}

/// A new pipe is sound and holds nothing.
pub proof fn law_new_pipe_is_sound(p: Pipe, nonblock: bool)
    requires
        p@ == (PipeView {
            readers: 1,
            writers: 0,
            rpos: 0,
            wpos: 0,
            empty: true,
            full: false,
            nonblock,
            buf: Seq::new(4096, |i: int| 0u8),
        }),
    ensures
        p@.sound(),
        p@.contents() == Seq::<u8>::empty(),
{
}

/// Writing `n` bytes puts the write position `n` further from the read position.
proof fn lemma_moved_away(rpos: int, wpos: int, n: int)
    requires
        0 <= n,
        (wpos - rpos) % 0x1_0000_0000_0000_0000 + n < 0x1_0000_0000_0000_0000,
    ensures
        (wrap64(wpos + n) - rpos) % 0x1_0000_0000_0000_0000 == (wpos - rpos)
            % 0x1_0000_0000_0000_0000 + n,
        0 <= wrap64(wpos + n) < 0x1_0000_0000_0000_0000,
{
    reveal(wrap64);
}

/// A write that fits behind what the pipe holds is finished at once, its value is
/// its length, and its bytes stand behind those that were there.
#[verifier::spinoff_prover]
pub proof fn law_write_appends(p: PipeView, data: Seq<u8>)
    requires
        p.sound(),
        p.readers > 0,
        data.len() <= 4096 - p.pending(),
        0 < data.len() + p.pending(),
    ensures
        p.write_run(data).pipe.sound(),
        p.write_run(data).pipe.contents() == p.contents() + data,
        p.write_run(data).io == (PipeIo { wake: true, step: PipeStep::Done(data.len() as usize) }),
{
    let n = data.len() as int;
    let q = p.put(data);
    lemma_ring_distance(p.rpos, p.wpos, p.pending());
    assert(data.take(n) =~= data);
    assert(p.put_len(n) == n);
    assert(q.wpos == wrap64(p.wpos + n));
    lemma_moved_away(p.rpos, p.wpos, n);
    assert(q.pending() == p.pending() + n);
    assert(q.wpos != q.rpos);
    assert(q.buf.len() == 4096) by {
        reveal(stored);
    }
    let all = p.contents() + data;
    assert forall|i: int| 0 <= i < q.pending() implies #[trigger] q.contents()[i] == all[i] by {
        lemma_stored_then_fetched(p.buf, p.rpos, p.wpos, p.pending(), data, i);
    }
    assert(q.contents() =~= all);
}

/// Slots counted from either position agree.
proof fn lemma_same_slot(rpos: int, wpos: int, d: int, i: int)
    requires
        d == (wpos - rpos) % 0x1_0000_0000_0000_0000,
        0 <= d <= 4096,
    ensures
        ((rpos + i) % 4096 - wpos) % 4096 == (i - d) % 4096,
{
}

/// Behind `d` bytes from `rpos` on stand the bytes that were stored from `wpos` on.
proof fn lemma_stored_then_fetched(
    ring: Seq<u8>,
    rpos: int,
    wpos: int,
    d: int,
    data: Seq<u8>,
    i: int,
)
    requires
        ring.len() == 4096,
        d == (wpos - rpos) % 0x1_0000_0000_0000_0000,
        0 <= d,
        d + data.len() <= 4096,
        0 <= i < d + data.len(),
    ensures
        stored(ring, wpos, data)[(rpos + i) % 4096] == if i < d {
            ring[(rpos + i) % 4096]
        } else {
            data[i - d]
        },
{
    reveal(stored);
    lemma_same_slot(rpos, wpos, d, i);
    assert((i - d) % 4096 == if i < d {
        i - d + 4096
    } else {
        i - d
    });
}

/// Moving on by `n` of the bytes that are there leaves the others.
proof fn lemma_moved_on(rpos: int, wpos: int, n: int)
    requires
        0 <= n <= (wpos - rpos) % 0x1_0000_0000_0000_0000,
    ensures
        (wpos - wrap64(rpos + n)) % 0x1_0000_0000_0000_0000 == (wpos - rpos)
            % 0x1_0000_0000_0000_0000 - n,
        0 <= wrap64(rpos + n) < 0x1_0000_0000_0000_0000,
        forall|i: int| #[trigger] ((wrap64(rpos + n) + i) % 4096) == (rpos + n + i) % 4096,
{
    reveal(wrap64);
}

/// A read hands out what the pipe holds from the front, as much as is asked for and
/// there, and leaves the rest. It is finished where all that was asked for was
/// there, or no write end is left.
#[verifier::spinoff_prover]
pub proof fn law_read_takes_front(p: PipeView, got: Seq<u8>, want: int)
    requires
        p.sound(),
        got.len() <= want <= usize::MAX,
    ensures
        ({
            let n = if want - got.len() <= p.pending() {
                want - got.len()
            } else {
                p.pending()
            };
            let r = p.read_run(got, want);
            &&& r.bytes == got + p.contents().take(n)
            &&& r.pipe.sound()
            &&& r.pipe.contents() == p.contents().skip(n)
            &&& r.io.step == if p.writers == 0 || n == want - got.len() {
                PipeStep::Done((got.len() + n) as usize)
            } else {
                PipeStep::Sleep((got.len() + n) as usize)
            }
        }),
{
    let len = want - got.len();
    let n = p.take_len(len);
    let q = p.take(len);
    lemma_ring_distance(p.rpos, p.wpos, p.pending());
    assert(n == if len <= p.pending() {
        len
    } else {
        p.pending()
    });
    assert(q.rpos == wrap64(p.rpos + n));
    lemma_moved_on(p.rpos, p.wpos, n);
    assert(q.pending() == p.pending() - n);
    assert(q.sound());
    assert(p.taken(len) =~= p.contents().take(n));
    assert forall|i: int| 0 <= i < q.pending() implies #[trigger] q.contents()[i]
        == p.contents().skip(n)[i] by {
        assert((q.rpos + i) % 4096 == (p.rpos + n + i) % 4096);
    }
    assert(q.contents() =~= p.contents().skip(n));
}

/// What is written into a sound pipe that holds nothing is read back unchanged, at
/// once and whole.
pub proof fn law_read_gives_back_write(p: PipeView, data: Seq<u8>)
    requires
        p.sound(),
        p.contents().len() == 0,
        p.readers > 0,
        data.len() <= 4096,
    ensures
        ({
            let r = p.write_run(data).pipe.read_run(Seq::empty(), data.len() as int);
            &&& r.bytes == data
            &&& r.io.step == PipeStep::Done(data.len() as usize)
            &&& r.pipe.contents().len() == 0
        }),
{
    if data.len() > 0 {
        law_write_appends(p, data);
        law_read_takes_front(p.write_run(data).pipe, Seq::empty(), data.len() as int);
    } else {
        reveal(wrap64);
        reveal(stored);
    }
    assert(p.contents() + data =~= data);
    assert(data.take(data.len() as int) =~= data);
    assert(Seq::<u8>::empty() + data =~= data);
}

/// A read that sleeps ends when the last write end goes, with what it has.
pub proof fn law_last_writer_ends_read(p: PipeView, got: Seq<u8>, want: int)
    requires
        p.writers == 1,
    ensures
        p.less(false).read_on(got, want).io.step == PipeStep::Done(got.len() as usize),
        p.less(false).read_on(got, want).bytes == got,
{
}

/// A write that sleeps ends when the last read end goes.
pub proof fn law_last_reader_ends_write(p: PipeView, rest: Seq<u8>)
    requires
        p.readers == 1,
    ensures
        p.less(true).write_run(rest).io.step == PipeStep::Done(rest.len() as usize),
        p.less(true).write_run(rest).pipe == p.less(true),
{
}

} // verus!
