//! Who uses which open file: the count in a file against the descriptors that refer
//! to it.
use vstd::prelude::*;

use crate::file::{File, FileKind};
use crate::task::{Task, FD};

verus! {

/// Which uses of a file are meant: all of them, or those of one end.
pub enum End {
    Any,
    Read,
    Write,
}

/// How often a descriptor uses the file `f`.
pub open spec fn held(fd: Option<FD>, f: int, e: End) -> int {
    match fd {
        Some(d) => if d.file == f && (e is Any || (e is Read && d.read) || (e is Write
            && d.write)) {
            1
        } else {
            0
        },
        None => 0,
    }
}

/// How often the descriptors from `from` on use the file `f`.
pub open spec fn fds(files: Seq<Option<FD>>, from: int, f: int, e: End) -> int
    decreases files.len() - from,
{
    if from >= files.len() {
        0
    } else {
        held(files[from], f, e) + fds(files, from + 1, f, e)
    }
}

/// How often a task that loads a program uses the file `f` for it.
pub open spec fn loads(loading: Option<usize>, f: int, e: End) -> int {
    if e is Any && loading is Some && loading->0 == f {
        1
    } else {
        0
    }
}

/// How often a task uses the file `f`: by its descriptors, and by the program that it
/// loads.
pub open spec fn task_uses(t: Task, f: int, e: End) -> int {
    fds(t.files@, t.closed as int, f, e) + loads(t.loading, f, e)
}

/// How often these tasks use the file `f`.
pub open spec fn uses(ts: Seq<Task>, f: int, e: End) -> int
    decreases ts.len(),
{
    if ts.len() == 0 {
        0
    } else {
        uses(ts.drop_last(), f, e) + task_uses(ts.last(), f, e)
    }
}

/// Whether the count in a file fits its uses. A file of the server counts one less
/// while the server closes it, and one more where the server failed to close it.
pub open spec fn counted(file: File, all: int, readers: int, writers: int) -> bool {
    match file.kind {
        FileKind::Unused => file.rc == 0 && all == 0,
        FileKind::Used => file.rc == 0 && all == 0,
        FileKind::P9(_) => {
            ||| file.rc == all
            ||| file.rc == 0 && all == 1
            ||| file.rc == 1 && all == 0
        },
        FileKind::Cons(_) => file.rc == all,
        FileKind::Pipe(p) => file.rc == all && p@.readers == readers && p@.writers == writers,
    }
}

/// Whether every count is right.
pub open spec fn balanced(ts: Seq<Task>, files: Seq<File>) -> bool {
    forall|f: int|
        0 <= f < files.len() ==> counted(
            #[trigger] files[f],
            uses(ts, f, End::Any),
            uses(ts, f, End::Read),
            uses(ts, f, End::Write),
        )
}

/// Whether a descriptor refers to a file, and to one end of it where it is a pipe.
pub open spec fn fd_sound(fd: Option<FD>, files: Seq<File>) -> bool {
    fd matches Some(d) ==> d.file < files.len() && (files[d.file as int].kind is Pipe ==> d.read
        != d.write)
}

/// Whether all that the task refers to is there.
pub open spec fn task_sound(t: Task, files: Seq<File>) -> bool {
    &&& t.closed <= 8
    &&& forall|i: int| t.closed <= i < 8 ==> fd_sound(#[trigger] t.files@[i], files)
    &&& t.loading matches Some(f) ==> f < files.len() && files[f as int].kind is P9
}

/// The books of the kernel: every count is right, and every descriptor is sound.
pub open spec fn books(ts: Seq<Task>, files: Seq<File>) -> bool {
    &&& balanced(ts, files)
    &&& forall|t: int| 0 <= t < ts.len() ==> task_sound(#[trigger] ts[t], files)
}

pub proof fn lemma_fds_bound(files: Seq<Option<FD>>, from: int, f: int, e: End)
    requires
        0 <= from <= files.len(),
    ensures
        0 <= fds(files, from, f, e) <= files.len() - from,
        fds(files, from, f, e) <= fds(files, from, f, End::Any),
    decreases files.len() - from,
{
    if from < files.len() {
        lemma_fds_bound(files, from + 1, f, e);
    }
}

/// Another descriptor changes the uses by its own.
pub proof fn lemma_fds_update(
    files: Seq<Option<FD>>,
    from: int,
    i: int,
    fd: Option<FD>,
    f: int,
    e: End,
)
    requires
        0 <= from <= i < files.len(),
    ensures
        fds(files.update(i, fd), from, f, e) == fds(files, from, f, e) - held(files[i], f, e)
            + held(fd, f, e),
    decreases files.len() - from,
{
    if from < i {
        lemma_fds_update(files, from + 1, i, fd, f, e);
    } else {
        lemma_fds_behind(files, i, fd, i + 1, f, e);
    }
}

/// Descriptors behind are not touched.
pub proof fn lemma_fds_behind(
    files: Seq<Option<FD>>,
    i: int,
    fd: Option<FD>,
    from: int,
    f: int,
    e: End,
)
    requires
        0 <= i < from <= files.len(),
    ensures
        fds(files.update(i, fd), from, f, e) == fds(files, from, f, e),
    decreases files.len() - from,
{
    if from < files.len() {
        lemma_fds_behind(files, i, fd, from + 1, f, e);
    }
}

/// A descriptor's use is among those of its table.
pub proof fn lemma_fds_has(files: Seq<Option<FD>>, from: int, i: int, f: int, e: End)
    requires
        0 <= from <= i < files.len(),
    ensures
        fds(files, from, f, e) >= held(files[i], f, e),
    decreases i - from,
{
    lemma_fds_bound(files, from + 1, f, e);
    if from < i {
        lemma_fds_has(files, from + 1, i, f, e);
    }
}

pub proof fn lemma_uses_bound(ts: Seq<Task>, f: int, e: End)
    requires
        forall|t: int| 0 <= t < ts.len() ==> (#[trigger] ts[t]).closed <= 8,
    ensures
        0 <= uses(ts, f, e) <= 9 * ts.len(),
        uses(ts, f, e) <= uses(ts, f, End::Any),
    decreases ts.len(),
{
    if ts.len() > 0 {
        let t = ts.last();
        assert(t.closed <= 8);
        lemma_fds_bound(t.files@, t.closed as int, f, e);
        lemma_fds_bound(t.files@, t.closed as int, f, End::Any);
        let init = ts.drop_last();
        assert forall|i: int| 0 <= i < init.len() implies (#[trigger] init[i]).closed <= 8 by {
            assert(init[i] == ts[i]);
        }
        lemma_uses_bound(init, f, e);
    }
}

/// Another task changes the uses by its own.
pub proof fn lemma_uses_update(ts: Seq<Task>, i: int, t: Task, f: int, e: End)
    requires
        0 <= i < ts.len(),
    ensures
        uses(ts.update(i, t), f, e) == uses(ts, f, e) - task_uses(ts[i], f, e) + task_uses(t, f, e),
    decreases ts.len(),
{
    let next = ts.update(i, t);
    if i < ts.len() - 1 {
        assert(next.drop_last() =~= ts.drop_last().update(i, t));
        lemma_uses_update(ts.drop_last(), i, t, f, e);
    } else {
        assert(next.drop_last() =~= ts.drop_last());
    }
}

/// A task's uses are among all.
pub proof fn lemma_uses_has(ts: Seq<Task>, i: int, f: int, e: End)
    requires
        0 <= i < ts.len(),
        forall|t: int| 0 <= t < ts.len() ==> (#[trigger] ts[t]).closed <= 8,
    ensures
        uses(ts, f, e) >= task_uses(ts[i], f, e) >= 0,
    decreases ts.len(),
{
    let init = ts.drop_last();
    assert forall|k: int| 0 <= k < init.len() implies (#[trigger] init[k]).closed <= 8 by {
        assert(init[k] == ts[k]);
    }
    lemma_uses_bound(init, f, e);
    assert(ts.last().closed <= 8);
    lemma_fds_bound(ts.last().files@, ts.last().closed as int, f, e);
    if i < ts.len() - 1 {
        lemma_uses_has(init, i, f, e);
    }
}

/// Whether two tasks use the same files.
pub open spec fn same_uses(t: Task, u: Task) -> bool {
    t.files@ == u.files@ && t.closed == u.closed && t.loading == u.loading
}

/// Where no task uses other files than before, all uses are as before.
pub proof fn lemma_same_uses(ts: Seq<Task>, us: Seq<Task>, f: int, e: End)
    requires
        ts.len() == us.len(),
        forall|t: int| 0 <= t < ts.len() ==> same_uses(#[trigger] ts[t], us[t]),
    ensures
        uses(ts, f, e) == uses(us, f, e),
    decreases ts.len(),
{
    if ts.len() > 0 {
        let i = ts.drop_last();
        let j = us.drop_last();
        assert forall|t: int| 0 <= t < i.len() implies same_uses(#[trigger] i[t], j[t]) by {
            assert(i[t] == ts[t]);
        }
        lemma_same_uses(i, j, f, e);
        assert(same_uses(ts[ts.len() - 1], us[us.len() - 1]));
    }
}

/// Whatever else happens to the tasks, the books stay right.
pub proof fn lemma_same_books(ts: Seq<Task>, us: Seq<Task>, files: Seq<File>)
    requires
        books(ts, files),
        ts.len() == us.len(),
        forall|t: int| 0 <= t < ts.len() ==> same_uses(#[trigger] ts[t], us[t]),
    ensures
        books(us, files),
{
    assert forall|f: int| 0 <= f < files.len() implies counted(
        #[trigger] files[f],
        uses(us, f, End::Any),
        uses(us, f, End::Read),
        uses(us, f, End::Write),
    ) by {
        lemma_same_uses(ts, us, f, End::Any);
        lemma_same_uses(ts, us, f, End::Read);
        lemma_same_uses(ts, us, f, End::Write);
    }
    assert forall|t: int| 0 <= t < us.len() implies task_sound(#[trigger] us[t], files) by {
        assert(task_sound(ts[t], files));
    }
}

/// One task and one file change, and they fit together: the books stay right.
pub proof fn lemma_books(ts: Seq<Task>, files: Seq<File>, i: int, t: Task, f: int, file: File)
    requires
        books(ts, files),
        0 <= i < ts.len(),
        0 <= f < files.len(),
        forall|g: int, e: End|
            0 <= g < files.len() && g != f ==> #[trigger] task_uses(t, g, e) == task_uses(
                ts[i],
                g,
                e,
            ),
        counted(
            file,
            uses(ts, f, End::Any) - task_uses(ts[i], f, End::Any) + task_uses(t, f, End::Any),
            uses(ts, f, End::Read) - task_uses(ts[i], f, End::Read) + task_uses(t, f, End::Read),
            uses(ts, f, End::Write) - task_uses(ts[i], f, End::Write) + task_uses(
                t,
                f,
                End::Write,
            ),
        ),
        task_sound(t, files.update(f, file)),
        file.kind is Pipe ==> files[f].kind is Pipe || uses(ts, f, End::Any) == task_uses(
            ts[i],
            f,
            End::Any,
        ),
        files[f].kind is P9 && !(file.kind is P9) ==> uses(ts, f, End::Any) == task_uses(
            ts[i],
            f,
            End::Any,
        ),
    ensures
        books(ts.update(i, t), files.update(f, file)),
{
    let us = ts.update(i, t);
    let gs = files.update(f, file);
    assert(forall|k: int| 0 <= k < ts.len() ==> (#[trigger] ts[k]).closed <= 8) by {
        assert forall|k: int| 0 <= k < ts.len() implies (#[trigger] ts[k]).closed <= 8 by {
            assert(task_sound(ts[k], files));
        }
    }
    assert forall|g: int| 0 <= g < gs.len() implies counted(
        #[trigger] gs[g],
        uses(us, g, End::Any),
        uses(us, g, End::Read),
        uses(us, g, End::Write),
    ) by {
        lemma_uses_update(ts, i, t, g, End::Any);
        lemma_uses_update(ts, i, t, g, End::Read);
        lemma_uses_update(ts, i, t, g, End::Write);
        if g != f {
            assert(counted(
                files[g],
                uses(ts, g, End::Any),
                uses(ts, g, End::Read),
                uses(ts, g, End::Write),
            ));
        }
    }
    assert forall|k: int| 0 <= k < us.len() implies task_sound(#[trigger] us[k], gs) by {
        if k != i {
            assert(task_sound(ts[k], files));
            if uses(ts, f, End::Any) == task_uses(ts[i], f, End::Any) {
                lemma_alone(ts, i, k, f);
            }
            assert forall|j: int| us[k].closed <= j < 8 implies fd_sound(
                #[trigger] us[k].files@[j],
                gs,
            ) by {
                assert(fd_sound(ts[k].files@[j], files));
                if held(ts[k].files@[j], f, End::Any) == 1 {
                    lemma_fds_has(ts[k].files@, ts[k].closed as int, j, f, End::Any);
                }
            }
            lemma_fds_bound(ts[k].files@, ts[k].closed as int, f, End::Any);
        }
    }
}

/// Where one task has all uses of a file, no other has any.
proof fn lemma_alone(ts: Seq<Task>, i: int, k: int, f: int)
    requires
        0 <= i < ts.len(),
        0 <= k < ts.len(),
        i != k,
        forall|t: int| 0 <= t < ts.len() ==> (#[trigger] ts[t]).closed <= 8,
        uses(ts, f, End::Any) == task_uses(ts[i], f, End::Any),
    ensures
        task_uses(ts[k], f, End::Any) == 0,
    decreases ts.len(),
{
    let init = ts.drop_last();
    let n = ts.len() - 1;
    assert forall|j: int| 0 <= j < init.len() implies (#[trigger] init[j]).closed <= 8 by {
        assert(init[j] == ts[j]);
    }
    lemma_uses_bound(init, f, End::Any);
    assert(ts.last().closed <= 8);
    lemma_fds_bound(ts.last().files@, ts.last().closed as int, f, End::Any);
    if i == n {
        lemma_uses_has(init, k, f, End::Any);
    } else {
        lemma_uses_has(init, i, f, End::Any);
        if k < n {
            lemma_alone(init, i, k, f);
        }
    }
}

/// A descriptor's file is open and counts it.
pub proof fn lemma_fd_used(ts: Seq<Task>, files: Seq<File>, i: int, j: int)
    requires
        books(ts, files),
        0 <= i < ts.len() <= 8,
        ts[i].closed <= j < 8,
        ts[i].files@[j] is Some,
    ensures
        ({
            let d = ts[i].files@[j]->0;
            let file = files[d.file as int];
            &&& d.file < files.len()
            &&& file.is_open()
            &&& 1 <= uses(ts, d.file as int, End::Any) <= 72
            &&& file.rc <= 72
            &&& file.kind is Pipe ==> {
                &&& d.read != d.write
                &&& file.rc >= 1
                &&& file.kind->Pipe_0@.readers <= 72
                &&& file.kind->Pipe_0@.writers <= 72
                &&& d.read ==> file.kind->Pipe_0@.readers >= 1
                &&& d.write ==> file.kind->Pipe_0@.writers >= 1
            }
        }),
{
    let t = ts[i];
    let d = t.files@[j]->0;
    let f = d.file as int;
    assert(task_sound(t, files));
    assert(fd_sound(t.files@[j], files));
    assert forall|k: int| 0 <= k < ts.len() implies (#[trigger] ts[k]).closed <= 8 by {
        assert(task_sound(ts[k], files));
    }
    lemma_some_use(ts, i, j, f, End::Any);
    lemma_some_use(ts, i, j, f, End::Read);
    lemma_some_use(ts, i, j, f, End::Write);
    assert(counted(
        files[f],
        uses(ts, f, End::Any),
        uses(ts, f, End::Read),
        uses(ts, f, End::Write),
    ));
}

proof fn lemma_some_use(ts: Seq<Task>, i: int, j: int, f: int, e: End)
    requires
        0 <= i < ts.len() <= 8,
        ts[i].closed <= j < 8,
        forall|t: int| 0 <= t < ts.len() ==> (#[trigger] ts[t]).closed <= 8,
    ensures
        held(ts[i].files@[j], f, e) <= uses(ts, f, e) <= 72,
        task_uses(ts[i], f, e) >= held(ts[i].files@[j], f, e),
{
    lemma_fds_has(ts[i].files@, ts[i].closed as int, j, f, e);
    lemma_uses_has(ts, i, f, e);
    lemma_uses_bound(ts, f, e);
}

/// Whether the uses of a task are those of `old` less one descriptor.
pub open spec fn lets_go(t: Task, old: Task, fd: FD) -> bool {
    forall|g: int, e: End| #[trigger]
        task_uses(t, g, e) == task_uses(old, g, e) - held(Some(fd), g, e)
}

/// Whether the uses of a task are those of `old` and one descriptor more.
pub open spec fn takes(t: Task, old: Task, fd: FD) -> bool {
    forall|g: int, e: End| #[trigger]
        task_uses(t, g, e) == task_uses(old, g, e) + held(Some(fd), g, e)
}

/// Removing a descriptor lets its file go.
pub proof fn lemma_removed(t: Task, old: Task, j: int)
    requires
        old.closed <= j < 8,
        old.files@[j] is Some,
        t.files@ == old.files@.update(j, None),
        t.closed == old.closed,
        t.loading == old.loading,
    ensures
        lets_go(t, old, old.files@[j]->0),
{
    assert forall|g: int, e: End| #[trigger]
        task_uses(t, g, e) == task_uses(old, g, e) - held(Some(old.files@[j]->0), g, e) by {
        lemma_fds_update(old.files@, old.closed as int, j, None, g, e);
    }
}

/// A new descriptor takes its file.
pub proof fn lemma_added(t: Task, old: Task, j: int, fd: FD)
    requires
        old.closed <= j < 8,
        old.files@[j] is None,
        t.files@ == old.files@.update(j, Some(fd)),
        t.closed == old.closed,
        t.loading == old.loading,
    ensures
        takes(t, old, fd),
{
    assert forall|g: int, e: End| #[trigger]
        task_uses(t, g, e) == task_uses(old, g, e) + held(Some(fd), g, e) by {
        lemma_fds_update(old.files@, old.closed as int, j, Some(fd), g, e);
    }
}

/// A task lets a file go, and the file counts one less: the books stay right.
pub proof fn lemma_let_go(ts: Seq<Task>, files: Seq<File>, i: int, t: Task, fd: FD, file: File)
    requires
        books(ts, files),
        0 <= i < ts.len() <= 8,
        fd_sound(Some(fd), files),
        lets_go(t, ts[i], fd),
        task_uses(t, fd.file as int, End::Any) >= 0,
        task_uses(t, fd.file as int, End::Read) >= 0,
        task_uses(t, fd.file as int, End::Write) >= 0,
        task_sound(t, files),
        file.is_let_go(files[fd.file as int], fd.read),
    ensures
        books(ts.update(i, t), files.update(fd.file as int, file)),
{
    let f = fd.file as int;
    assert forall|k: int| 0 <= k < ts.len() implies (#[trigger] ts[k]).closed <= 8 by {
        assert(task_sound(ts[k], files));
    }
    lemma_uses_has(ts, i, f, End::Any);
    lemma_uses_has(ts, i, f, End::Read);
    lemma_uses_has(ts, i, f, End::Write);
    assert(counted(
        files[f],
        uses(ts, f, End::Any),
        uses(ts, f, End::Read),
        uses(ts, f, End::Write),
    ));
    lemma_kinds_kept(t, files, f, file);
    lemma_books(ts, files, i, t, f, file);
}

/// Only the kinds of the files matter to whether a task is sound.
proof fn lemma_kinds_kept(t: Task, files: Seq<File>, f: int, file: File)
    requires
        task_sound(t, files),
        0 <= f < files.len(),
        file.kind is Pipe ==> files[f].kind is Pipe,
        files[f].kind is P9 ==> file.kind is P9,
    ensures
        task_sound(t, files.update(f, file)),
{
    let gs = files.update(f, file);
    assert forall|j: int| t.closed <= j < 8 implies fd_sound(#[trigger] t.files@[j], gs) by {
        assert(fd_sound(t.files@[j], files));
    }
}

/// A task takes a file, and the file counts one more: the books stay right.
pub proof fn lemma_take(ts: Seq<Task>, files: Seq<File>, i: int, t: Task, fd: FD, file: File)
    requires
        books(ts, files),
        0 <= i < ts.len() <= 8,
        fd_sound(Some(fd), files),
        files[fd.file as int].is_open(),
        files[fd.file as int].rc > 0,
        files[fd.file as int].kind is P9 ==> uses(ts, fd.file as int, End::Any) > 0,
        takes(t, ts[i], fd),
        task_sound(t, files),
        file.is_duped(files[fd.file as int], fd.read),
    ensures
        books(ts.update(i, t), files.update(fd.file as int, file)),
{
    let f = fd.file as int;
    assert forall|k: int| 0 <= k < ts.len() implies (#[trigger] ts[k]).closed <= 8 by {
        assert(task_sound(ts[k], files));
    }
    lemma_uses_bound(ts, f, End::Any);
    lemma_uses_bound(ts, f, End::Read);
    lemma_uses_bound(ts, f, End::Write);
    assert(counted(
        files[f],
        uses(ts, f, End::Any),
        uses(ts, f, End::Read),
        uses(ts, f, End::Write),
    ));
    lemma_kinds_kept(t, files, f, file);
    lemma_books(ts, files, i, t, f, file);
}

/// Whether nothing that the books speak of is different.
pub open spec fn same_count(file: File, old: File) -> bool {
    &&& file.rc == old.rc
    &&& match old.kind {
        FileKind::Pipe(p) => file.kind is Pipe && file.kind->Pipe_0@.readers == p@.readers
            && file.kind->Pipe_0@.writers == p@.writers,
        _ => file.kind == old.kind,
    }
}

/// What goes on inside a file does not touch the books.
pub proof fn lemma_file_kept(ts: Seq<Task>, files: Seq<File>, f: int, file: File)
    requires
        books(ts, files),
        0 <= f < files.len(),
        same_count(file, files[f]),
    ensures
        books(ts, files.update(f, file)),
{
    let gs = files.update(f, file);
    assert forall|g: int| 0 <= g < gs.len() implies counted(
        #[trigger] gs[g],
        uses(ts, g, End::Any),
        uses(ts, g, End::Read),
        uses(ts, g, End::Write),
    ) by {
        assert(counted(
            files[g],
            uses(ts, g, End::Any),
            uses(ts, g, End::Read),
            uses(ts, g, End::Write),
        ));
    }
    assert forall|k: int| 0 <= k < ts.len() implies task_sound(#[trigger] ts[k], gs) by {
        assert(task_sound(ts[k], files));
        lemma_kinds_kept(ts[k], files, f, file);
    }
}

} // verus!
