//! How a program is read and started: what its header has to say, where its segments
//! lie, and what it finds in its registers and on its stack.
use vstd::prelude::*;
use vstd::utf8::{encode_utf8, valid_utf8};

use crate::books::task_sound;
use crate::elf::{Elf, Elf64Hdr, Elf64Phdr, PhIter, PT_LOAD};
use crate::execv::{execv_inner, execve, execve_ret, finishes, gives_up, goes_on, has_header};
use crate::execv::{header_read, is_advanced, is_outcome, is_runnable, segment_read};
use crate::execv::{Act, Exec, Stage};
use crate::file::{File, FileKind};
use crate::fs::{P9Ask, P9Request};
use crate::kernel::{space_full, Kernel};
use crate::laws::memory::{lemma_pages_added, pages_added};
use crate::laws::turns::{bytes_of, lemma_all_blocks_len, lemma_block_is_freed};
use crate::laws::{lemma_me, me, others_kept, within};
use crate::le::le_value;
use crate::load::{is_cleared, is_dropped, is_entered, is_sealed, segment_region};
use crate::load::{Entered, Failed};
use crate::region::{all_blocks, lemma_blocks, Block};
use crate::space::{lemma_shareable, shared_regions};
use crate::stack::{kept, stack_fits, stack_image, stack_start, stack_words, strings};
use crate::stack::{law_argument_stands_at_its_address, law_environment_stands_at_its_address};
use crate::stack::{law_stack_is_whole, law_stack_word_reads_back, text, text_start};
use crate::stack::{fitting, law_spoiled_stack_is_whole, lemma_fitting, spoiled_image, words};
use crate::stack::{user_stack, zeros, UserStack};
use crate::task::{user_stack_region, Task};
use crate::vm::Perm;

verus! {

/// The number in two bytes, the low one first.
pub open spec fn num2(s: Seq<u8>, i: int) -> int {
    s[i] + 256 * s[i + 1]
}

/// The number in four bytes, the lowest one first.
pub open spec fn num4(s: Seq<u8>, i: int) -> int {
    num2(s, i) + 0x1_0000 * num2(s, i + 2)
}

/// The number in eight bytes, the lowest one first.
#[verifier::opaque]
pub open spec fn num8(s: Seq<u8>, i: int) -> int {
    num4(s, i) + 0x1_0000_0000 * num4(s, i + 4)
}

proof fn lemma_next_byte(s: Seq<u8>, i: int, j: int)
    requires
        0 <= i < j <= s.len(),
    ensures
        le_value(s.subrange(i, j)) == s[i] + 256 * le_value(s.subrange(i + 1, j)),
{
    assert(s.subrange(i, j).skip(1) =~= s.subrange(i + 1, j));
}

pub(crate) proof fn lemma_num2(s: Seq<u8>, i: int)
    requires
        0 <= i <= s.len() - 2,
    ensures
        le_value(s.subrange(i, i + 2)) == num2(s, i),
{
    lemma_next_byte(s, i, i + 2);
    lemma_next_byte(s, i + 1, i + 2);
    assert(le_value(s.subrange(i + 2, i + 2)) == 0);
}

pub(crate) proof fn lemma_num4(s: Seq<u8>, i: int)
    requires
        0 <= i <= s.len() - 4,
    ensures
        le_value(s.subrange(i, i + 4)) == num4(s, i),
{
    lemma_next_byte(s, i, i + 4);
    lemma_next_byte(s, i + 1, i + 4);
    lemma_num2(s, i + 2);
}

pub(crate) proof fn lemma_num8(s: Seq<u8>, i: int)
    requires
        0 <= i <= s.len() - 8,
    ensures
        le_value(s.subrange(i, i + 8)) == num8(s, i),
{
    reveal(num8);
    lemma_next_byte(s, i, i + 8);
    lemma_next_byte(s, i + 1, i + 8);
    lemma_next_byte(s, i + 2, i + 8);
    lemma_next_byte(s, i + 3, i + 8);
    lemma_num4(s, i + 4);
}

/// The bytes that the strings of `v` take from `from` up to `to`, each with a zero byte.
pub open spec fn bytes_in(v: Seq<Vec<u8>>, from: int, to: int) -> int
    decreases to - from,
{
    if to <= from {
        0
    } else {
        bytes_in(v, from, to - 1) + v[to - 1]@.len() + 1
    }
}

/// Whether the strings of `v` from `from` on are those behind the last empty one.
pub open spec fn kept_from(v: Seq<Vec<u8>>, from: int) -> bool {
    &&& 0 <= from <= v.len()
    &&& from > 0 ==> v[from - 1]@.len() == 0
    &&& forall|i: int| from <= i < v.len() ==> (#[trigger] v[i])@.len() > 0
}

/// Every list has a place from which on its strings are kept.
pub proof fn law_some_strings_are_kept(v: Seq<Vec<u8>>) -> (from: int)
    ensures
        kept_from(v, from),
    decreases v.len(),
{
    if v.len() == 0 || v.last()@.len() == 0 {
        v.len() as int
    } else {
        let from = law_some_strings_are_kept(v.drop_last());
        assert forall|i: int| from <= i < v.len() implies (#[trigger] v[i])@.len() > 0 by {
            if i < v.len() - 1 {
                assert(v.drop_last()[i] == v[i]);
            }
        }
        from
    }
}

/// Where on a stack of 8192 bytes the stack pointer is to stand: below the strings
/// `argv` from `a` on and `envp` from `b` on and 16 more bytes, on a multiple of eight,
/// with room for a word for each string, the number of the arguments, two ends of lists
/// and four words more.
pub open spec fn pointer_at(argv: Seq<Vec<u8>>, envp: Seq<Vec<u8>>, a: int, b: int) -> int {
    let at = 8192 - 16 - bytes_in(argv, a, argv.len() as int) - bytes_in(
        envp,
        b,
        envp.len() as int,
    );
    at - at % 8 - 8 * (7 + (argv.len() - a) + (envp.len() - b))
}

/// Whether the string `s` stands at the address that the word at `at` holds, on a stack
/// that lies at `base`, with a zero byte behind it.
pub open spec fn points_to(stack: Seq<u8>, base: int, at: int, s: Seq<u8>) -> bool {
    let p = num8(stack, at) - base;
    &&& 0 <= p < p + s.len() < stack.len()
    &&& forall|i: int| 0 <= i < s.len() ==> stack[p + i] == #[trigger] s[i]
    &&& stack[p + s.len()] == 0
}

/// Whether a stack at `base`, whose stack pointer stands `at` bytes above it, holds what
/// a program finds when it starts: the number of its arguments, a pointer to each of
/// them, a zero, a pointer to each string of its environment, a zero, the key for random
/// bytes and their address, and an end.
pub open spec fn is_first_stack(
    stack: Seq<u8>,
    base: int,
    at: int,
    argv: Seq<Vec<u8>>,
    envp: Seq<Vec<u8>>,
    a: int,
    b: int,
) -> bool {
    let (n, m) = (argv.len() - a, envp.len() - b);
    &&& stack.len() == 8192
    &&& num8(stack, at) == argv.len()
    &&& forall|i: int|
        a <= i < argv.len() ==> points_to(
            stack,
            base,
            at + 8 * (1 + i - a),
            (#[trigger] argv[i])@,
        )
    &&& num8(stack, at + 8 * (1 + n)) == 0
    &&& forall|i: int|
        b <= i < envp.len() ==> points_to(
            stack,
            base,
            at + 8 * (2 + n + i - b),
            (#[trigger] envp[i])@,
        )
    &&& num8(stack, at + 8 * (2 + n + m)) == 0
    &&& num8(stack, at + 8 * (3 + n + m)) == 25
    &&& num8(stack, at + 8 * (4 + n + m)) == base + 8192 - 16
    &&& num8(stack, at + 8 * (5 + n + m)) == 0
    &&& num8(stack, at + 8 * (6 + n + m)) == 0
}

/// Whether a string stands at an offset of a stack, with a zero byte behind it.
pub open spec fn stands_at(stack: Seq<u8>, at: int, s: Seq<u8>) -> bool {
    &&& 0 <= at
    &&& at + s.len() < stack.len()
    &&& forall|i: int| 0 <= i < s.len() ==> stack[at + i] == #[trigger] s[i]
    &&& stack[at + s.len()] == 0
}

/// Whether a stack at `base` on which not everything fits holds what there was room for,
/// put down from the top: the strings of the environment, the last one first, then those
/// of the arguments, and below them the key for random bytes and their address.
pub open spec fn is_spoiled(
    stack: Seq<u8>,
    base: int,
    argv: Seq<Vec<u8>>,
    envp: Seq<Vec<u8>>,
    a: int,
    b: int,
) -> bool {
    let (n, m) = (argv.len() as int, envp.len() as int);
    let low = 8192 - 16 - bytes_in(envp, b, m) - bytes_in(argv, a, n);
    let at = low - low % 8 - 32;
    &&& stack.len() == 8192
    &&& forall|i: int| 8192 - 16 <= i < 8192 ==> #[trigger] stack[i] == 0
    &&& forall|j: int|
        b <= j < m && bytes_in(envp, j, m) <= 8192 - 16 ==> stands_at(
            stack,
            8192 - 16 - bytes_in(envp, j, m),
            (#[trigger] envp[j])@,
        )
    &&& forall|j: int|
        a <= j < n && bytes_in(envp, b, m) + bytes_in(argv, j, n) <= 8192 - 16 ==> stands_at(
            stack,
            8192 - 16 - bytes_in(envp, b, m) - bytes_in(argv, j, n),
            (#[trigger] argv[j])@,
        )
    &&& at >= 0 ==> {
        &&& num8(stack, at) == 25
        &&& num8(stack, at + 8) == base + 8192 - 16
        &&& num8(stack, at + 16) == 0
        &&& num8(stack, at + 24) == 0
        &&& forall|i: int| 0 <= i < at ==> #[trigger] stack[i] == 0
    }
}

proof fn lemma_fits_at(s: Seq<Seq<u8>>, room: int, j: int)
    requires
        0 <= j < s.len(),
        text(s.skip(j)).len() <= room,
    ensures
        ({
            let t = text(fitting(s, room));
            let n = text(s.skip(j)).len();
            &&& s[j].len() < n <= t.len()
            &&& t.subrange(t.len() - n, t.len() - n + s[j].len()) == s[j]
            &&& t[t.len() - n + s[j].len()] == 0
        }),
    decreases s.len(),
{
    let init = s.drop_last();
    let last = s.last();
    let q = s.skip(j);
    assert(q.drop_last() =~= init.skip(j));
    assert(q.last() == last);
    assert(text(q) == text(init.skip(j)) + last + seq![0u8]);
    assert(last.len() + 1 <= room);
    let left = room - last.len() - 1;
    let f = fitting(init, left);
    assert(fitting(s, room) == f.push(last));
    assert(f.push(last).drop_last() =~= f);
    let t = text(fitting(s, room));
    assert(t == text(f) + last + seq![0u8]);
    let n = text(q).len();
    if j < init.len() {
        lemma_fits_at(init, left, j);
        let n0 = text(init.skip(j)).len();
        let at = text(f).len() - n0;
        assert(init[j] == s[j]);
        assert(t.len() - n == at);
        assert(t.subrange(at, at + s[j].len()) =~= text(f).subrange(at, at + s[j].len()));
    } else {
        assert(init.skip(j) =~= Seq::empty());
        assert(t.subrange(t.len() - n, t.len() - n + s[j].len()) =~= s[j]);
    }
}

proof fn lemma_bytes_in(v: Seq<Vec<u8>>, j: int)
    requires
        0 <= j <= v.len(),
    ensures
        text(strings(v).skip(j)).len() == bytes_in(v, j, v.len() as int),
    decreases v.len(),
{
    let s = strings(v).skip(j);
    if j < v.len() {
        let w = v.drop_last();
        lemma_bytes_in(w, j);
        assert(strings(w).skip(j) =~= s.drop_last());
        assert(s.last() == v[v.len() - 1]@);
        lemma_same_bytes(v, w, j, w.len() as int);
    } else {
        assert(s =~= Seq::empty());
    }
}

/// The strings of `v` from `from` on, put down from the last one on into the end of
/// `room` bytes.
proof fn lemma_put_down(v: Seq<Vec<u8>>, from: int, room: int, j: int)
    requires
        kept_from(v, from),
        from <= j < v.len(),
        bytes_in(v, j, v.len() as int) <= room,
    ensures
        ({
            let t = text(fitting(kept(strings(v)), room));
            let at = t.len() - bytes_in(v, j, v.len() as int);
            &&& 0 <= at
            &&& at + v[j]@.len() < t.len()
            &&& forall|i: int| 0 <= i < v[j]@.len() ==> t[at + i] == #[trigger] v[j]@[i]
            &&& t[at + v[j]@.len()] == 0
        }),
{
    crate::stack::lemma_kept(strings(v), from);
    let s = kept(strings(v));
    assert(s.skip(j - from) =~= strings(v).skip(j));
    lemma_bytes_in(v, j);
    lemma_fits_at(s, room, j - from);
    let t = text(fitting(s, room));
    let at = t.len() - bytes_in(v, j, v.len() as int);
    assert(s[j - from] == v[j]@);
    assert forall|i: int| 0 <= i < v[j]@.len() implies t[at + i] == #[trigger] v[j]@[i] by {
        assert(t.subrange(at, at + v[j]@.len())[i] == t[at + i]);
    }
}

proof fn lemma_spoiled(base: int, argv: Seq<Vec<u8>>, envp: Seq<Vec<u8>>, a: int, b: int)
    requires
        kept_from(argv, a),
        kept_from(envp, b),
        0 <= base,
        base + 8192 <= u64::MAX,
    ensures
        is_spoiled(
            spoiled_image(base, kept(strings(argv)), kept(strings(envp))),
            base,
            argv,
            envp,
            a,
            b,
        ),
{
    let args = kept(strings(argv));
    let envs = kept(strings(envp));
    let (n, m) = (argv.len() as int, envp.len() as int);
    lemma_kept_from(argv, a);
    lemma_kept_from(envp, b);
    let stack = spoiled_image(base, args, envs);
    law_spoiled_stack_is_whole(base, args, envs);
    let e = fitting(envs, 8192 - 16);
    lemma_fitting(envs, 8192 - 16);
    let all = e.len() == envs.len();
    let room = 8192 - 16 - text(envs).len();
    let ar = if all {
        fitting(args, room)
    } else {
        Seq::empty()
    };
    if all {
        lemma_fitting(args, room);
    } else {
        assert(text(ar).len() == 0);
    }
    let top = 8192 - 16;
    let at0 = text_start(ar, e);
    let w = seq![25u64, (base + 8192 - 16) as u64, 0u64, 0u64];
    crate::stack::lemma_words_len(w);
    assert(stack.skip(at0) =~= text(ar) + text(e) + zeros(16));
    assert forall|i: int| at0 <= i < 8192 implies #[trigger] stack[i] == (text(ar) + text(e)
        + zeros(16))[i - at0] by {
        assert(stack.skip(at0)[i - at0] == stack[i]);
    }
    assert forall|j: int| b <= j < m && bytes_in(envp, j, m) <= top implies stands_at(
        stack,
        top - bytes_in(envp, j, m),
        (#[trigger] envp[j])@,
    ) by {
        lemma_put_down(envp, b, top, j);
        let x = top - bytes_in(envp, j, m);
        let y = text(e).len() - bytes_in(envp, j, m);
        assert(x - at0 == text(ar).len() + y);
        assert forall|i: int| 0 <= i < envp[j]@.len() implies stack[x + i]
            == #[trigger] envp[j]@[i] by {
            assert(stack[x + i] == text(e)[y + i]);
        }
        assert(stack[x + envp[j]@.len()] == text(e)[y + envp[j]@.len()]);
    }
    assert forall|j: int|
        a <= j < n && bytes_in(envp, b, m) + bytes_in(argv, j, n) <= top implies stands_at(
        stack,
        top - bytes_in(envp, b, m) - bytes_in(argv, j, n),
        (#[trigger] argv[j])@,
    ) by {
        lemma_bytes_in(argv, j);
        assert(all);
        lemma_put_down(argv, a, room, j);
        let x = top - bytes_in(envp, b, m) - bytes_in(argv, j, n);
        let y = text(ar).len() - bytes_in(argv, j, n);
        assert(x - at0 == y);
        assert forall|i: int| 0 <= i < argv[j]@.len() implies stack[x + i]
            == #[trigger] argv[j]@[i] by {
            assert(stack[x + i] == text(ar)[y + i]);
        }
        assert(stack[x + argv[j]@.len()] == text(ar)[y + argv[j]@.len()]);
    }
    let low = top - bytes_in(envp, b, m) - bytes_in(argv, a, n);
    let at = low - low % 8 - 32;
    if at >= 0 {
        assert(all && ar.len() == args.len());
        assert(low == at0);
        assert(stack.subrange(at, at + 32) =~= words(w));
        assert forall|i: int| 0 <= i < 4 implies num8(stack, at + 8 * i) == #[trigger] w[i] by {
            crate::stack::lemma_words_at(w, i);
            crate::le::lemma_pow256();
            crate::le::law_le_reads_back(w[i] as nat, 8);
            assert(stack.subrange(at + 8 * i, at + 8 * i + 8) =~= words(w).subrange(
                8 * i,
                8 * i + 8,
            )) by {
                assert forall|z: int| 0 <= z < 8 implies stack[at + 8 * i + z] == #[trigger] words(
                    w,
                )[8 * i + z] by {
                    assert(stack.subrange(at, at + 32)[8 * i + z] == stack[at + 8 * i + z]);
                }
            }
            lemma_num8(stack, at + 8 * i);
        }
        assert(num8(stack, at + 8 * 0) == w[0]);
        assert(num8(stack, at + 8 * 1) == w[1]);
        assert(num8(stack, at + 8 * 2) == w[2]);
        assert(num8(stack, at + 8 * 3) == w[3]);
    }
}

proof fn lemma_kept_from(v: Seq<Vec<u8>>, from: int)
    requires
        kept_from(v, from),
    ensures
        kept(strings(v)).len() == v.len() - from,
        forall|i: int| from <= i < v.len() ==> kept(strings(v))[i - from] == (#[trigger] v[i])@,
        text(kept(strings(v))).len() == bytes_in(v, from, v.len() as int),
    decreases v.len(),
{
    let s = strings(v);
    if from < v.len() {
        let w = v.drop_last();
        assert(strings(w) =~= s.drop_last());
        assert(kept_from(w, from)) by {
            assert forall|i: int| from <= i < w.len() implies (#[trigger] w[i])@.len() > 0 by {
                assert(w[i] == v[i]);
            }
        }
        lemma_kept_from(w, from);
        assert(v[v.len() - 1]@.len() > 0);
        let q = kept(s);
        assert(q.drop_last() =~= kept(strings(w)));
        assert forall|i: int| from <= i < v.len() implies q[i - from] == (#[trigger] v[i])@ by {
            if i < v.len() - 1 {
                assert(w[i] == v[i]);
            }
        }
        lemma_same_bytes(v, w, from, w.len() as int);
    }
}

proof fn lemma_same_bytes(v: Seq<Vec<u8>>, w: Seq<Vec<u8>>, from: int, to: int)
    requires
        0 <= from,
        to <= v.len(),
        to <= w.len(),
        forall|i: int| 0 <= i < to ==> #[trigger] v[i] == w[i],
    ensures
        bytes_in(v, from, to) == bytes_in(w, from, to),
    decreases to - from,
{
    if from < to {
        lemma_same_bytes(v, w, from, to - 1);
    }
}

proof fn lemma_points_to(stack: Seq<u8>, base: int, at: int, s: Seq<u8>)
    requires
        ({
            let p = num8(stack, at) - base;
            &&& 0 <= p < 8192 == stack.len()
            &&& p + s.len() < 8192
            &&& s.len() > 0
            &&& stack.subrange(p, p + s.len()) == s
            &&& stack[p + s.len()] == 0
        }),
    ensures
        points_to(stack, base, at, s),
{
    let p = num8(stack, at) - base;
    assert forall|i: int| 0 <= i < s.len() implies stack[p + i] == #[trigger] s[i] by {
        assert(stack.subrange(p, p + s.len())[i] == stack[p + i]);
    }
}

proof fn lemma_first_stack(base: int, argv: Seq<Vec<u8>>, envp: Seq<Vec<u8>>, a: int, b: int)
    requires
        kept_from(argv, a),
        kept_from(envp, b),
        0 <= base,
        base + 8192 <= u64::MAX,
        argv.len() <= u64::MAX,
    ensures
        stack_fits(kept(strings(argv)), kept(strings(envp))) == (pointer_at(argv, envp, a, b) >= 0),
        pointer_at(argv, envp, a, b) >= 0 ==> {
            let args = kept(strings(argv));
            let envs = kept(strings(envp));
            let at = pointer_at(argv, envp, a, b);
            &&& at == stack_start(args, envs)
            &&& is_first_stack(
                stack_image(base, argv.len() as int, args, envs),
                base,
                at,
                argv,
                envp,
                a,
                b,
            )
        },
{
    lemma_kept_from(argv, a);
    lemma_kept_from(envp, b);
    let args = kept(strings(argv));
    let envs = kept(strings(envp));
    let at = pointer_at(argv, envp, a, b);
    let argc = argv.len() as int;
    if at >= 0 {
        let stack = stack_image(base, argc, args, envs);
        law_stack_is_whole(base, argc, args, envs);
        let (n, m) = (args.len() as int, envs.len() as int);
        lemma_stack_words(base, argc, args, envs);
        assert forall|i: int| a <= i < argv.len() implies points_to(
            stack,
            base,
            at + 8 * (1 + i - a),
            (#[trigger] argv[i])@,
        ) by {
            assert(argv[i]@.len() > 0);
            lemma_argument(base, argc, args, envs, i - a);
        }
        assert forall|i: int| b <= i < envp.len() implies points_to(
            stack,
            base,
            at + 8 * (2 + n + i - b),
            (#[trigger] envp[i])@,
        ) by {
            assert(envp[i]@.len() > 0);
            lemma_environment(base, argc, args, envs, i - b);
        }
    }
}

proof fn lemma_stack_word(base: int, argc: int, args: Seq<Seq<u8>>, envs: Seq<Seq<u8>>, i: int)
    requires
        stack_fits(args, envs),
        0 <= i < stack_words(base, argc, args, envs).len(),
    ensures
        num8(stack_image(base, argc, args, envs), stack_start(args, envs) + 8 * i) == stack_words(
            base,
            argc,
            args,
            envs,
        )[i],
{
    let stack = stack_image(base, argc, args, envs);
    let w = stack_words(base, argc, args, envs);
    let at = stack_start(args, envs);
    law_stack_is_whole(base, argc, args, envs);
    crate::stack::lemma_words_len(w);
    law_stack_word_reads_back(base, argc, args, envs, i);
    assert(at + 8 * i + 8 <= stack.len());
    lemma_num8(stack, at + 8 * i);
}

proof fn lemma_stack_words(base: int, argc: int, args: Seq<Seq<u8>>, envs: Seq<Seq<u8>>)
    requires
        stack_fits(args, envs),
        0 <= argc <= u64::MAX,
        0 <= base,
        base + 8192 <= u64::MAX,
    ensures
        ({
            let stack = stack_image(base, argc, args, envs);
            let at = stack_start(args, envs);
            let (n, m) = (args.len() as int, envs.len() as int);
            &&& num8(stack, at) == argc
            &&& num8(stack, at + 8 * (1 + n)) == 0
            &&& num8(stack, at + 8 * (2 + n + m)) == 0
            &&& num8(stack, at + 8 * (3 + n + m)) == 25
            &&& num8(stack, at + 8 * (4 + n + m)) == base + 8192 - 16
            &&& num8(stack, at + 8 * (5 + n + m)) == 0
            &&& num8(stack, at + 8 * (6 + n + m)) == 0
        }),
{
    let (n, m) = (args.len() as int, envs.len() as int);
    lemma_stack_word(base, argc, args, envs, 0);
    lemma_stack_word(base, argc, args, envs, 1 + n);
    lemma_stack_word(base, argc, args, envs, 2 + n + m);
    lemma_stack_word(base, argc, args, envs, 3 + n + m);
    lemma_stack_word(base, argc, args, envs, 4 + n + m);
    lemma_stack_word(base, argc, args, envs, 5 + n + m);
    lemma_stack_word(base, argc, args, envs, 6 + n + m);
}

proof fn lemma_argument(base: int, argc: int, args: Seq<Seq<u8>>, envs: Seq<Seq<u8>>, i: int)
    requires
        stack_fits(args, envs),
        0 <= base,
        base + 8192 <= u64::MAX,
        0 <= i < args.len(),
        args[i].len() > 0,
    ensures
        points_to(
            stack_image(base, argc, args, envs),
            base,
            stack_start(args, envs) + 8 * (1 + i),
            args[i],
        ),
{
    law_argument_stands_at_its_address(base, argc, args, envs, i);
    law_stack_is_whole(base, argc, args, envs);
    lemma_stack_word(base, argc, args, envs, 1 + i);
    lemma_points_to(
        stack_image(base, argc, args, envs),
        base,
        stack_start(args, envs) + 8 * (1 + i),
        args[i],
    );
}

proof fn lemma_environment(base: int, argc: int, args: Seq<Seq<u8>>, envs: Seq<Seq<u8>>, i: int)
    requires
        stack_fits(args, envs),
        0 <= base,
        base + 8192 <= u64::MAX,
        0 <= i < envs.len(),
        envs[i].len() > 0,
    ensures
        points_to(
            stack_image(base, argc, args, envs),
            base,
            stack_start(args, envs) + 8 * (2 + args.len() + i),
            envs[i],
        ),
{
    law_environment_stands_at_its_address(base, argc, args, envs, i);
    law_stack_is_whole(base, argc, args, envs);
    lemma_stack_word(base, argc, args, envs, 2 + args.len() + i);
    lemma_points_to(
        stack_image(base, argc, args, envs),
        base,
        stack_start(args, envs) + 8 * (2 + args.len() + i),
        envs[i],
    );
}

/// Where all of it fits, a stack is made that holds what a program finds when it starts;
/// else there is one with what there was room for.
pub proof fn law_stack_holds_the_strings(
    base: u64,
    argv: &[Vec<u8>],
    envp: &[Vec<u8>],
    a: int,
    b: int,
    r: Result<UserStack, Vec<u8>>,
)
    requires
        base + 8192 <= u64::MAX,
        argv@.len() <= u64::MAX,
        kept_from(argv@, a),
        kept_from(envp@, b),
        call_ensures(user_stack, (base, argv, envp), r),
    ensures
        r is Ok <==> pointer_at(argv@, envp@, a, b) >= 0,
        r matches Ok(s) ==> {
            &&& s.sp == base + pointer_at(argv@, envp@, a, b)
            &&& is_first_stack(s.image@, base as int, s.sp - base, argv@, envp@, a, b)
        },
        r matches Err(image) ==> is_spoiled(image@, base as int, argv@, envp@, a, b),
{
    lemma_spoiled(base as int, argv@, envp@, a, b);
    lemma_first_stack(base as int, argv@, envp@, a, b);
}

/// How starting a program has ended, where it has ended: the file may still have to be
/// closed.
pub open spec fn ending(x: Exec, act: Act) -> Option<Result<Entered, Failed>> {
    match act {
        Act::Done(r) => Some(r),
        Act::Close(_) => match x.stage {
            Stage::Closing { file, result } => Some(result),
            _ => None,
        },
        _ => None,
    }
}

/// Whether the task that the processor runs starts the program at `entry` with these
/// arguments and this environment: its registers are zero, and its stack pointer stands
/// where the stack holds what a program finds when it starts.
pub open spec fn is_started(
    k: Kernel,
    entry: int,
    e: Entered,
    argv: Seq<Vec<u8>>,
    envp: Seq<Vec<u8>>,
    a: int,
    b: int,
) -> bool {
    let t = me(k);
    let at = pointer_at(argv, envp, a, b);
    &&& t.frame.pc == entry
    &&& t.frame.pstate == 0
    &&& forall|i: int| 0 <= i < 31 ==> #[trigger] t.frame.regs@[i] == 0
    &&& t.frame.sp_el0 == 0x2_0000_0000 + at
    &&& is_first_stack(e.stack@, 0x2_0000_0000, at, argv, envp, a, b)
    &&& e.ttbr0 == ((t.pid as u64) << 48) | t.user_pt->0
}

/// Whether no file has changed but the one in this slot.
pub open spec fn other_files_kept(k: Kernel, old: Kernel, f: int) -> bool {
    forall|g: int| 0 <= g < 128 && g != f ==> #[trigger] k.fs.files@[g] == old.fs.files@[g]
}

/// How many bytes a read has given.
pub open spec fn bytes_read(read: Result<Vec<u8>, ()>) -> int {
    match read {
        Ok(s) => s@.len() as int,
        Err(_) => 0,
    }
}

/// Whether the file of a program has been given up after so many bytes were read from
/// it: it has one use less, and where that was its last, the server is to close it.
pub open spec fn file_given_up(k: Kernel, old: Kernel, x: Exec, act: Act, n: int) -> bool {
    let f = me(old).loading->0;
    let (file, was) = (k.fs.files@[f as int], old.fs.files@[f as int]);
    &&& file.rc == was.rc - if was.rc > 0 {
        1int
    } else {
        0
    }
    &&& file.kind == was.kind
    &&& file.path == was.path
    &&& file.offt == (was.offt + n) % 0x1_0000_0000_0000_0000
    &&& if was.rc == 1 {
        &&& act == Act::Close(was.kind->P9_0)
        &&& x.stage is Closing && x.stage->Closing_file == f
    } else {
        act is Done && x.stage is Done
    }
    &&& other_files_kept(k, old, f as int)
}

/// Whether a program has been started where its strings fit on a stack, and else the
/// task goes on in the program that it was in. The task is as it was otherwise, and so
/// are the others.
pub open spec fn is_over(
    k: Kernel,
    old: Kernel,
    entry: int,
    x: Exec,
    act: Act,
    n: int,
    a: int,
    b: int,
) -> bool {
    let (t, t0) = (me(k), me(old));
    let (r, argv, envp) = (ending(x, act), x.argv@, x.envp@);
    &&& file_given_up(k, old, x, act, n)
    &&& k.cpu == old.cpu
    &&& others_kept(k, old)
    &&& t == (Task { frame: t.frame, loading: None, ..t0 })
    &&& if pointer_at(argv, envp, a, b) >= 0 {
        r matches Some(Ok(e)) && is_started(k, entry, e, argv, envp, a, b)
    } else {
        r matches Some(Err(f)) && f.stack matches Some(s) && is_spoiled(
            s@,
            0x2_0000_0000,
            argv,
            envp,
            a,
            b,
        ) && t.frame == t0.frame
    }
}

proof fn lemma_finishes(k: Kernel, x: Exec, act: Act, old: Kernel, elf: Elf, a: int, b: int)
    requires
        old.serving(),
        me(old).loading is Some,
        finishes(k, x, act, old, elf),
        kept_from(x.argv@, a),
        kept_from(x.envp@, b),
        x.argv@.len() <= u64::MAX,
    ensures
        is_over(
            k,
            old,
            elf.header.entry as int,
            x,
            act,
            0,
            a,
            b,
        ),
{
    lemma_me(old);
    let (mid, r) = choose|mid: Kernel, r: Result<Entered, Failed>| #[trigger]
        is_entered(mid, old, elf, x.argv@, x.envp@, r) && gives_up(k, x, act, mid, r);
    let c = choose|c: crate::desc::CloseOut| #[trigger]
        is_dropped(k, mid, c) && is_outcome(x.stage, act, c, r);
    lemma_first_stack(0x2_0000_0000, x.argv@, x.envp@, a, b);
    lemma_spoiled(0x2_0000_0000, x.argv@, x.envp@, a, b);
    assert(task_sound(old.tasks@[old.at()], old.fs.files@));
    assert(ending(x, act) == Some(r));
}

/// When the last segment of a program has been filled, the program starts, where its
/// strings fit on a stack.
pub proof fn law_program_starts_after_its_segments(
    x: &mut Exec,
    k: &mut Kernel,
    a: int,
    b: int,
    act: Act,
)
    requires
        old(k).serving(),
        me(*old(k)).loading is Some,
        old(x).stage is Filling,
        old(x).stage->Filling_it.idx >= old(x).stage->Filling_it.elf.header.phnum,
        kept_from(old(x).argv@, a),
        kept_from(old(x).envp@, b),
        old(x).argv@.len() <= u64::MAX,
        call_ensures(Exec::filled, (x, k), act),
    ensures
        ({
            let (r, t, t0) = (ending(*final(x), act), me(*final(k)), me(*old(k)));
            &&& final(k).cpu == old(k).cpu
            &&& others_kept(*final(k), *old(k))
            &&& t == (Task { frame: t.frame, pt: t.pt, loading: None, ..t0 })
            &&& file_given_up(*final(k), *old(k), *final(x), act, 0)
            &&& if pointer_at(old(x).argv@, old(x).envp@, a, b) >= 0 {
                &&& r matches Some(Ok(e)) && is_started(
                    *final(k),
                    old(x).stage->Filling_it.elf.header.entry as int,
                    e,
                    old(x).argv@,
                    old(x).envp@,
                    a,
                    b,
                )
            } else {
                r matches Some(Err(f)) && f.stack matches Some(s) && is_spoiled(
                    s@,
                    0x2_0000_0000,
                    old(x).argv@,
                    old(x).envp@,
                    a,
                    b,
                ) && t.frame == t0.frame
            }
        }),
{
    lemma_me(*old(k));
    let it = old(x).stage->Filling_it;
    let ph = old(x).stage->Filling_ph;
    let k1 = choose|k1: Kernel| #[trigger]
        is_sealed(k1, *old(k), ph) && goes_on(*final(k), *final(x), act, k1, it);
    lemma_finishes(*final(k), *final(x), act, k1, it.elf, a, b);
}

/// When a program has no header of a segment left, or one cannot be read, the program
/// starts, where its strings fit on a stack.
pub proof fn law_program_starts_after_its_headers(
    x: &mut Exec,
    k: &mut Kernel,
    read: Result<Vec<u8>, ()>,
    a: int,
    b: int,
    act: Act,
)
    requires
        old(k).serving(),
        me(*old(k)).loading is Some,
        old(x).stage is Next,
        ({
            let it = old(x).stage->Next_0;
            ||| it.idx >= it.elf.header.phnum
            ||| read is Err
            ||| read->Ok_0@.len() != 56
            ||| it.idx + 1 >= it.elf.header.phnum && num4(read->Ok_0@, 0) != 1
        }),
        kept_from(old(x).argv@, a),
        kept_from(old(x).envp@, b),
        old(x).argv@.len() <= u64::MAX,
        call_ensures(Exec::segment, (x, k, read), act),
    ensures
        is_over(
            *final(k),
            *old(k),
            old(x).stage->Next_0.elf.header.entry as int,
            *final(x),
            act,
            bytes_read(read),
            a,
            b,
        ),
{
    lemma_me(*old(k));
    let it = old(x).stage->Next_0;
    let k1 = choose|k1: Kernel| #[trigger]
        is_advanced(k1, *old(k), read) && segment_read(*final(k), *final(x), act, k1, it, read);
    if it.idx < it.elf.header.phnum && read is Ok && read->Ok_0@.len() == 56 {
        lemma_num4(read->Ok_0@, 0);
    }
    lemma_finishes(*final(k), *final(x), act, k1, it.elf, a, b);
}

/// Whether these bytes start a program that can be run: they are an executable for a
/// 64-bit Arm processor.
pub open spec fn is_program(s: Seq<u8>) -> bool {
    &&& s.len() == 64
    &&& s[0] == 0x7f && s[1] == 0x45 && s[2] == 0x4c && s[3] == 0x46
    &&& s[4] == 2
    &&& s[6] == 1
    &&& num2(s, 16) == 2
    &&& num2(s, 18) == 183
}

proof fn lemma_program(read: Result<Vec<u8>, ()>)
    ensures
        read is Ok ==> is_runnable(read) == is_program(read->Ok_0@),
{
    if read is Ok {
        let s = read->Ok_0@;
        if s.len() == 64 {
            lemma_num2(s, 16);
            lemma_num2(s, 18);
            let m = seq![0x7fu8, 0x45u8, 0x4cu8, 0x46u8];
            if is_program(s) {
                assert(s.take(4) =~= m);
            }
            if s.take(4) == m {
                assert(s.take(4)[0] == 0x7f && s.take(4)[1] == 0x45 && s.take(4)[2] == 0x4c
                    && s.take(4)[3] == 0x46);
            }
        }
    }
}

proof fn lemma_header(h: Elf64Hdr, s: Seq<u8>)
    requires
        s.len() == 64,
        h.is_at(s),
    ensures
        h.entry == num8(s, 24),
        h.phoff == num8(s, 32),
        h.phnum == num2(s, 56),
{
    lemma_num8(s, 24);
    lemma_num8(s, 32);
    lemma_num2(s, 56);
}

/// A file that is not a program is not started, and the task goes on as it was.
pub proof fn law_no_program_is_refused(
    x: &mut Exec,
    k: &mut Kernel,
    s: Vec<u8>,
    r: (Vec<Block>, Act),
)
    requires
        old(k).serving(),
        me(*old(k)).loading is Some,
        old(x).stage is Header,
        !is_program(s@),
        call_ensures(Exec::header, (x, k, Ok(s)), r),
    ensures
        ending(*final(x), r.1) == Some(Err::<Entered, Failed>(Failed { stack: None })),
        r.0@.len() == 0,
        me(*final(k)) == (Task { loading: None, ..me(*old(k)) }),
        file_given_up(*final(k), *old(k), *final(x), r.1, s@.len() as int),
        final(k).cpu == old(k).cpu,
        others_kept(*final(k), *old(k)),
{
    lemma_me(*old(k));
    let read = Ok::<Vec<u8>, ()>(s);
    lemma_program(read);
    let k1 = choose|k1: Kernel| #[trigger]
        is_advanced(k1, *old(k), read) && header_read(
            *final(k),
            *final(x),
            r.1,
            r.0@,
            k1,
            read,
        );
    assert(task_sound(old(k).tasks@[old(k).at()], old(k).fs.files@));
}

/// A program that has segments gets them from the table that its header names, the
/// first one first. Of its memory the task keeps the stack.
pub proof fn law_program_is_read_by_its_header(
    x: &mut Exec,
    k: &mut Kernel,
    s: Vec<u8>,
    r: (Vec<Block>, Act),
)
    requires
        old(k).serving(),
        old(k).cur().loading is Some,
        old(x).stage is Header,
        is_program(s@),
        num2(s@, 56) > 0,
        call_ensures(Exec::header, (x, k, Ok(s)), r),
    ensures
        final(x).argv == old(x).argv,
        final(x).envp == old(x).envp,
        ({
            let (t, t0) = (me(*final(k)), me(*old(k)));
            let f = t0.loading->0 as int;
            &&& final(x).stage matches Stage::Next(it) && {
                &&& it.idx == 0
                &&& it.elf.header.entry == num8(s@, 24)
                &&& it.elf.header.phoff == num8(s@, 32)
                &&& it.elf.header.phnum == num2(s@, 56)
            }
            &&& r.1 matches Act::Read { fid, offset, len } && {
                &&& old(k).fs.files@[f].kind == FileKind::P9(fid)
                &&& offset == num8(s@, 32)
                &&& len == 56
                &&& final(k).fs.files@[f].offt == offset
            }
            &&& t.program@.len() == 0
            &&& t.brk.len == 0
            &&& t.mmap.len == 0
            &&& t.frame == t0.frame
            &&& forall|a: u64| #[trigger]
                t.pt@.contains_key(a) ==> within(a as int, 0x2_0000_0000, 8192) && t.pt@[a]
                    == t0.pt@[a]
            &&& t.pt@.contains_key(0x2_0000_0000) && t.pt@.contains_key(0x2_0000_1000)
            &&& t.files == t0.files
            &&& t.cwd == t0.cwd
            &&& t.loading == t0.loading
            &&& other_files_kept(*final(k), *old(k), f)
            &&& final(k).cpu == old(k).cpu
            &&& others_kept(*final(k), *old(k))
        }),
{
    lemma_me(*old(k));
    let read = Ok::<Vec<u8>, ()>(s);
    lemma_program(read);
    let k1 = choose|k1: Kernel| #[trigger]
        is_advanced(k1, *old(k), read) && header_read(
            *final(k),
            *final(x),
            r.1,
            r.0@,
            k1,
            read,
        );
    let (mid, elf) = choose|mid: Kernel, elf: Elf|
        #![trigger is_cleared(mid, k1, r.0@), has_header(elf, read)]
        {
            &&& is_cleared(mid, k1, r.0@)
            &&& has_header(elf, read)
            &&& elf.file == k1.cur().loading->0
            &&& goes_on(*final(k), *final(x), r.1, mid, PhIter { elf, idx: 0 })
        };
    lemma_header(elf.header, s@);
    assert(task_sound(old(k).tasks@[old(k).at()], old(k).fs.files@));
    let d = user_stack_region().pages();
    let t = me(*final(k));
    assert(t.pt@.dom() == d);
    assert(d.contains(0x2_0000_0000) && d.contains(0x2_0000_1000));
    assert forall|a: u64| #[trigger] t.pt@.contains_key(a) implies within(
        a as int,
        0x2_0000_0000,
        8192,
    ) by {
        assert(t.pt@.dom().contains(a));
    }
}

/// A program without segments starts at once.
pub proof fn law_program_without_segments_starts(
    x: &mut Exec,
    k: &mut Kernel,
    s: Vec<u8>,
    a: int,
    b: int,
    r: (Vec<Block>, Act),
)
    requires
        old(k).serving(),
        me(*old(k)).loading is Some,
        old(x).stage is Header,
        is_program(s@),
        num2(s@, 56) == 0,
        kept_from(old(x).argv@, a),
        kept_from(old(x).envp@, b),
        old(x).argv@.len() <= u64::MAX,
        call_ensures(Exec::header, (x, k, Ok(s)), r),
    ensures
        ({
            let (end, t, t0) = (ending(*final(x), r.1), me(*final(k)), me(*old(k)));
            &&& final(k).cpu == old(k).cpu
            &&& others_kept(*final(k), *old(k))
            &&& t.program@.len() == 0
            &&& t.loading is None
            &&& file_given_up(*final(k), *old(k), *final(x), r.1, 64)
            &&& if pointer_at(old(x).argv@, old(x).envp@, a, b) >= 0 {
                &&& end matches Some(Ok(e)) && is_started(
                    *final(k),
                    num8(s@, 24),
                    e,
                    old(x).argv@,
                    old(x).envp@,
                    a,
                    b,
                )
            } else {
                end matches Some(Err(f)) && f.stack matches Some(s) && is_spoiled(
                    s@,
                    0x2_0000_0000,
                    old(x).argv@,
                    old(x).envp@,
                    a,
                    b,
                ) && t.frame == t0.frame
            }
        }),
{
    lemma_me(*old(k));
    let read = Ok::<Vec<u8>, ()>(s);
    lemma_program(read);
    let k1 = choose|k1: Kernel| #[trigger]
        is_advanced(k1, *old(k), read) && header_read(
            *final(k),
            *final(x),
            r.1,
            r.0@,
            k1,
            read,
        );
    let (mid, elf) = choose|mid: Kernel, elf: Elf|
        #![trigger is_cleared(mid, k1, r.0@), has_header(elf, read)]
        {
            &&& is_cleared(mid, k1, r.0@)
            &&& has_header(elf, read)
            &&& elf.file == k1.cur().loading->0
            &&& goes_on(*final(k), *final(x), r.1, mid, PhIter { elf, idx: 0 })
        };
    lemma_header(elf.header, s@);
    lemma_finishes(*final(k), *final(x), r.1, mid, elf, a, b);
}

proof fn lemma_segment_header(h: Elf64Phdr, s: Seq<u8>)
    requires
        s.len() == 56,
        h.is_at(s),
    ensures
        h.kind == num4(s, 0),
        h.flags == num4(s, 4),
        h.offset == num8(s, 8),
        h.vaddr == num8(s, 16),
        h.filesz == num8(s, 32),
        h.memsz == num8(s, 40),
{
    lemma_num4(s, 0);
    lemma_num4(s, 4);
    lemma_num8(s, 8);
    lemma_num8(s, 16);
    lemma_num8(s, 32);
    lemma_num8(s, 40);
}

/// For a segment that is to be loaded, as many frames are needed as there are pages from
/// the page of its address up to its end. Any other segment is passed over, and the
/// header behind it is read.
pub proof fn law_segment_is_read_by_its_header(
    x: &mut Exec,
    k: &mut Kernel,
    s: Vec<u8>,
    act: Act,
)
    requires
        old(k).serving(),
        old(k).cur().loading is Some,
        old(x).stage is Next,
        old(x).stage->Next_0.idx < old(x).stage->Next_0.elf.header.phnum,
        s@.len() == 56,
        num8(s@, 16) + num8(s@, 40) + 0x2000 <= u64::MAX,
        call_ensures(Exec::segment, (x, k, Ok(s)), act),
    ensures
        ({
            let it = old(x).stage->Next_0;
            let f = me(*old(k)).loading->0 as int;
            if num4(s@, 0) == 1 {
                &&& act matches Act::Frames(n) && {
                    let end = num8(s@, 16) % 4096 + num8(s@, 40);
                    end <= 4096 * n < end + 4096
                }
                &&& final(x).stage matches Stage::Room { it: next, ph } && {
                    &&& next.idx == it.idx + 1
                    &&& next.elf == it.elf
                    &&& ph.flags == num4(s@, 4)
                    &&& ph.offset == num8(s@, 8)
                    &&& ph.vaddr == num8(s@, 16)
                    &&& ph.filesz == num8(s@, 32)
                    &&& ph.memsz == num8(s@, 40)
                }
                &&& final(k).tasks == old(k).tasks
                &&& final(k).cpu == old(k).cpu
                &&& final(k).fs.files@[f].offt == (old(k).fs.files@[f].offt + 56)
                    % 0x1_0000_0000_0000_0000
                &&& other_files_kept(*final(k), *old(k), f)
            } else if it.idx + 1 < it.elf.header.phnum && it.elf.header.phoff + 56 * (it.idx + 1)
                <= u64::MAX {
                &&& act matches Act::Read { fid, offset, len } && {
                    &&& old(k).fs.files@[f].kind == FileKind::P9(fid)
                    &&& offset == it.elf.header.phoff + 56 * (it.idx + 1)
                    &&& len == 56
                    &&& final(k).fs.files@[f].offt == offset
                }
                &&& final(x).stage matches Stage::Next(next) && next.idx == it.idx + 1 && next.elf
                    == it.elf
                &&& other_files_kept(*final(k), *old(k), f)
                &&& final(k).tasks == old(k).tasks
                &&& final(k).cpu == old(k).cpu
            } else {
                true
            }
        }),
{
    lemma_me(*old(k));
    let read = Ok::<Vec<u8>, ()>(s);
    let it = old(x).stage->Next_0;
    let k1 = choose|k1: Kernel| #[trigger]
        is_advanced(k1, *old(k), read) && segment_read(*final(k), *final(x), act, k1, it, read);
    let next = PhIter { idx: (it.idx + 1) as u16, ..it };
    let ph = choose|ph: Elf64Phdr| #[trigger]
        ph.is_at(read->Ok_0@) && if ph.kind == PT_LOAD {
            &&& *final(k) == k1
            &&& final(x).stage == (Stage::Room { it: next, ph })
            &&& act matches Act::Frames(n) && 4096 * n == segment_region(ph).len
        } else {
            goes_on(*final(k), *final(x), act, k1, next)
        };
    lemma_segment_header(ph, s@);
    assert(task_sound(old(k).tasks@[old(k).at()], old(k).fs.files@));
}

/// A segment gets its pages on the given frames, not for the program yet, and a region
/// from the page of its address on; it is filled with so many bytes of the file from its
/// offset on, and zeros up to its size.
pub proof fn law_segment_gets_its_pages(x: &mut Exec, k: &mut Kernel, frames: &[u64], act: Act)
    requires
        old(k).serving(),
        old(k).cur().loading is Some,
        old(x).stage is Room,
        ({
            let ph = old(x).stage->Room_ph;
            let end = ph.vaddr % 4096 + ph.memsz;
            &&& ph.vaddr + ph.memsz + 0x2000 <= u64::MAX
            &&& ph.filesz <= ph.memsz
            &&& end <= 4096 * frames@.len() < end + 4096
        }),
        call_ensures(Exec::room, (x, k, frames), act),
    ensures
        ({
            let ph = old(x).stage->Room_ph;
            let (t, t0) = (me(*final(k)), me(*old(k)));
            let at = ph.vaddr - ph.vaddr % 4096;
            let n = t0.program@.len() as int;
            let f = t0.loading->0 as int;
            &&& t.program@.len() == n + 1
            &&& forall|i: int| 0 <= i < n ==> #[trigger] t.program@[i] == t0.program@[i]
            &&& t.program@[n].vaddr == at
            &&& t.program@[n].len == 4096 * frames@.len()
            &&& t.program@[n].flags == ph.flags
            &&& pages_added(t, t0, at, frames@, Perm::PrPw)
            &&& t == (Task { program: t.program, pt: t.pt, ..t0 })
            &&& act matches Act::Fill(seg) && {
                &&& seg.at == ph.vaddr
                &&& seg.filesz == ph.filesz
                &&& seg.filesz + seg.zeros == ph.memsz
            }
            &&& final(k).fs.files@[f] == (File { offt: ph.offset, ..old(k).fs.files@[f] })
            &&& other_files_kept(*final(k), *old(k), f)
            &&& final(x).stage == (Stage::Filling { it: old(x).stage->Room_it, ph })
            &&& final(k).cpu == old(k).cpu
            &&& others_kept(*final(k), *old(k))
        }),
{
    lemma_me(*old(k));
    let ph = old(x).stage->Room_ph;
    assert(task_sound(old(k).tasks@[old(k).at()], old(k).fs.files@));
    lemma_pages_added(
        me(*final(k)),
        me(*old(k)),
        ph.vaddr - ph.vaddr % 4096,
        frames@,
        Perm::PrPw,
    );
}

/// The pages of a filled segment get the permission that its flags ask for, on the
/// frames that they are on, and the other pages stay. Where the program has another
/// segment, its header is read.
pub proof fn law_filled_segment_is_sealed(x: &mut Exec, k: &mut Kernel, act: Act, a: u64)
    requires
        old(k).serving(),
        old(k).cur().loading is Some,
        old(x).stage is Filling,
        old(x).stage->Filling_ph.vaddr + old(x).stage->Filling_ph.memsz + 0x2000 <= u64::MAX,
        old(x).argv@.len() <= u64::MAX,
        a % 4096 == 0,
        call_ensures(Exec::filled, (x, k), act),
    ensures
        ({
            let (it, ph) = (old(x).stage->Filling_it, old(x).stage->Filling_ph);
            let (t, t0) = (me(*final(k)), me(*old(k)));
            let f = t0.loading->0 as int;
            &&& t.pt@.contains_key(a) == t0.pt@.contains_key(a)
            &&& t0.pt@.contains_key(a) ==> t.pt@[a].p == t0.pt@[a].p
            &&& t0.pt@.contains_key(a) && ph.vaddr < a + 4096 && a < ph.vaddr + ph.memsz
                ==> t.pt@[a].perm == if ph.flags == 5 {
                Perm::PrUrUx
            } else if ph.flags == 6 {
                Perm::PrPwUrUw
            } else {
                Perm::PrUr
            }
            &&& t0.pt@.contains_key(a) && (a + 4096 <= ph.vaddr || a >= ph.vaddr + ph.memsz + 4096)
                ==> t.pt@[a].perm == t0.pt@[a].perm
            &&& t.program == t0.program
            &&& others_kept(*final(k), *old(k))
            &&& it.idx < it.elf.header.phnum && it.elf.header.phoff + 56 * it.idx <= u64::MAX ==> {
                &&& act matches Act::Read { fid, offset, len } && {
                    &&& old(k).fs.files@[f].kind == FileKind::P9(fid)
                    &&& offset == it.elf.header.phoff + 56 * it.idx
                    &&& len == 56
                    &&& final(k).fs.files@[f].offt == offset
                }
                &&& final(x).stage == Stage::Next(it)
                &&& other_files_kept(*final(k), *old(k), f)
                &&& t == (Task { pt: t.pt, ..t0 })
            }
        }),
{
    lemma_me(*old(k));
    let it = old(x).stage->Filling_it;
    let ph = old(x).stage->Filling_ph;
    let k1 = choose|k1: Kernel| #[trigger]
        is_sealed(k1, *old(k), ph) && goes_on(*final(k), *final(x), act, k1, it);
    assert(task_sound(old(k).tasks@[old(k).at()], old(k).fs.files@));
    let r = segment_region(ph);
    assert(r.vaddr % 4096 == 0 && r.len % 4096 == 0);
    assert(me(*final(k)).pt == me(k1).pt && me(*final(k)).program == me(k1).program) by {
        if it.idx >= it.elf.header.phnum {
            let (mid, q) = choose|mid: Kernel, q: Result<Entered, Failed>| #[trigger]
                is_entered(mid, k1, it.elf, final(x).argv@, final(x).envp@, q) && gives_up(
                    *final(k),
                    *final(x),
                    act,
                    mid,
                    q,
                );
            let c = choose|c: crate::desc::CloseOut| #[trigger]
                is_dropped(*final(k), mid, c) && is_outcome(final(x).stage, act, c, q);
        }
    }
}

/// Where the server has opened the file of a program, its first 64 bytes are read; where
/// it could not, the program is not started and the file is free again.
pub proof fn law_opened_program_is_read(
    x: &mut Exec,
    k: &mut Kernel,
    reply: Result<u32, ()>,
    act: Act,
)
    requires
        old(k).serving(),
        old(x).stage is Opening,
        old(x).stage->Opening_file < 128,
        call_ensures(Exec::opened, (x, k, reply), act),
    ensures
        final(x).argv == old(x).argv,
        final(x).envp == old(x).envp,
        ({
            let f = old(x).stage->Opening_file;
            let file = final(k).fs.files@[f as int];
            match reply {
                Ok(h) => {
                    &&& act matches Act::Read { fid, offset, len } && fid == h && offset == 0
                        && len == 64
                    &&& final(x).stage is Header
                    &&& me(*final(k)) == (Task { loading: Some(f), ..me(*old(k)) })
                    &&& file.kind == FileKind::P9(h)
                    &&& file.rc == 1
                    &&& file.offt == 0
                    &&& file.path is Some && file.path->0@ == old(x).stage->Opening_path@
                },
                Err(_) => {
                    &&& ending(*final(x), act) == Some(
                        Err::<Entered, Failed>(Failed { stack: None }),
                    )
                    &&& me(*final(k)) == me(*old(k))
                    &&& file.kind is Unused
                },
            }
        }),
        others_kept(*final(k), *old(k)),
        forall|i: int|
            0 <= i < 128 && i != old(x).stage->Opening_file ==> #[trigger] final(k).fs.files@[i]
                == old(k).fs.files@[i],
{
    lemma_me(*old(k));
}

/// Starting a program first has the server open its file, to be read, in the first free
/// slot for a file. There has to be one, and the path has to be text.
pub proof fn law_program_file_is_opened(
    k: &mut Kernel,
    path: &[u8],
    argv: Vec<Vec<u8>>,
    envp: Vec<Vec<u8>>,
    r: Result<(Exec, P9Request), u64>,
)
    requires
        old(k).calling(),
        call_ensures(execve, (k, path, argv, envp), r),
    ensures
        final(k).tasks == old(k).tasks,
        final(k).cpu == old(k).cpu,
        match r {
            Ok((x, ask)) => {
                &&& x.argv == argv && x.envp == envp
                &&& x.stage matches Stage::Opening { file, path: p } && {
                    &&& 0 <= file < 128
                    &&& old(k).fs.files@[file as int].kind is Unused
                    &&& final(k).fs.files@[file as int].kind is Used
                    &&& forall|i: int|
                        0 <= i < file ==> !((#[trigger] old(k).fs.files@[i]).kind is Unused)
                    &&& forall|i: int|
                        0 <= i < 128 && i != file ==> #[trigger] final(k).fs.files@[i]
                            == old(k).fs.files@[i]
                    &&& encode_utf8(p@) == path@
                    &&& ask@ == (P9Ask::Open { path: p@, flags: 0 })
                }
            },
            Err(e) => {
                &&& e == 0xffff_ffff_ffff_ffff
                &&& *final(k) == *old(k)
                &&& !valid_utf8(path@) || forall|i: int|
                    0 <= i < 128 ==> !((#[trigger] old(k).fs.files@[i]).kind is Unused)
            },
        },
{
    lemma_me(*old(k));
    if r is Ok {
        vstd::utf8::decode_utf8_encode_utf8(path@);
    }
}

/// A file is a program where its first bytes say so. Where they cannot be read, it is
/// taken for a program without segments that starts at zero.
pub proof fn law_program_is_recognised(
    file: usize,
    s: Vec<u8>,
    r: Result<Elf, ()>,
    q: Result<Elf, ()>,
)
    requires
        call_ensures(Elf::new, (file, Ok(s)), r),
        call_ensures(Elf::new, (file, Err(())), q),
    ensures
        r is Ok <==> is_program(s@),
        r matches Ok(elf) ==> {
            &&& elf.file == file
            &&& elf.header.entry == num8(s@, 24)
            &&& elf.header.phoff == num8(s@, 32)
            &&& elf.header.phnum == num2(s@, 56)
        },
        q matches Ok(elf) && elf.file == file && elf.header.entry == 0 && elf.header.phnum == 0,
{
    lemma_program(Ok::<Vec<u8>, ()>(s));
    if r is Ok {
        lemma_header(r->Ok_0.header, s@);
    }
}

/// A program whose header cannot be read is started at zero, without segments.
pub proof fn law_unread_header_starts_at_zero(
    x: &mut Exec,
    k: &mut Kernel,
    a: int,
    b: int,
    r: (Vec<Block>, Act),
)
    requires
        old(k).serving(),
        me(*old(k)).loading is Some,
        old(x).stage is Header,
        kept_from(old(x).argv@, a),
        kept_from(old(x).envp@, b),
        old(x).argv@.len() <= u64::MAX,
        pointer_at(old(x).argv@, old(x).envp@, a, b) >= 0,
        call_ensures(Exec::header, (x, k, Err(())), r),
    ensures
        ending(*final(x), r.1) matches Some(Ok(e)) && is_started(
            *final(k),
            0,
            e,
            old(x).argv@,
            old(x).envp@,
            a,
            b,
        ),
        me(*final(k)).program@.len() == 0,
{
    lemma_me(*old(k));
    let read = Err::<Vec<u8>, ()>(());
    let k1 = choose|k1: Kernel| #[trigger]
        is_advanced(k1, *old(k), read) && header_read(
            *final(k),
            *final(x),
            r.1,
            r.0@,
            k1,
            read,
        );
    let (mid, elf) = choose|mid: Kernel, elf: Elf|
        #![trigger is_cleared(mid, k1, r.0@), has_header(elf, read)]
        {
            &&& is_cleared(mid, k1, r.0@)
            &&& has_header(elf, read)
            &&& elf.file == k1.cur().loading->0
            &&& goes_on(*final(k), *final(x), r.1, mid, PhIter { elf, idx: 0 })
        };
    lemma_finishes(*final(k), *final(x), r.1, mid, elf, a, b);
}

/// When the file of a program has been closed, or could not be, starting the program
/// ends as it was to end.
pub proof fn law_closing_keeps_the_ending(
    x: &mut Exec,
    k: &mut Kernel,
    ok: bool,
    act: Act,
    ret: u64,
)
    requires
        old(k).serving(),
        old(x).stage is Closing,
        old(x).stage->Closing_file < 128,
        call_ensures(Exec::closed, (x, k, ok), act),
        call_ensures(execve_ret, (&old(x).stage->Closing_result,), ret),
    ensures
        ending(*final(x), act) == Some(old(x).stage->Closing_result),
        act is Done,
        final(k).tasks == old(k).tasks,
        final(k).cpu == old(k).cpu,
        ok ==> final(k).fs.files@[old(x).stage->Closing_file as int].kind is Unused,
        !ok ==> {
            let f = old(x).stage->Closing_file as int;
            &&& final(k).fs.files@[f].rc == 1
            &&& final(k).fs.files@[f].kind == old(k).fs.files@[f].kind
        },
        forall|f: int|
            0 <= f < 128 && f != old(x).stage->Closing_file ==> #[trigger] final(k).fs.files@[f]
                == old(k).fs.files@[f],
        old(x).stage->Closing_result is Ok ==> ret == 0,
        old(x).stage->Closing_result is Err ==> ret == 0xffff_ffff_ffff_ffff,
{
    lemma_me(*old(k));
}

/// The first program's file is opened as that of any program.
pub proof fn law_first_program_is_opened(
    k: &mut Kernel,
    path: &str,
    argv: Vec<Vec<u8>>,
    envp: Vec<Vec<u8>>,
    r: Result<(Exec, P9Request), ()>,
)
    requires
        old(k).serving(),
        call_ensures(execv_inner, (k, path, argv, envp), r),
    ensures
        final(k).tasks == old(k).tasks,
        r is Err <==> forall|i: int|
            0 <= i < 128 ==> !((#[trigger] old(k).fs.files@[i]).kind is Unused),
        r matches Ok((x, ask)) ==> {
            &&& x.argv == argv && x.envp == envp
            &&& x.stage matches Stage::Opening { file, path: p } && p@ == path@ && file < 128
                && old(k).fs.files@[file as int].kind is Unused
            &&& ask matches P9Request::Open { path: p, flags } && p@ == path@ && flags == 0
        },
{
    lemma_me(*old(k));
}

/// The frames of the memory that a task had, but for its stack, are given back when it
/// starts a program.
pub proof fn law_old_memory_is_given_back(
    x: &mut Exec,
    k: &mut Kernel,
    s: Vec<u8>,
    r: (Vec<Block>, Act),
    a: u64,
)
    requires
        old(k).serving(),
        me(*old(k)).loading is Some,
        space_full(me(*old(k))),
        old(x).stage is Header,
        is_program(s@),
        a % 4096 == 0,
        call_ensures(Exec::header, (x, k, Ok(s)), r),
    ensures
        ({
            let t = me(*old(k));
            &&& 4096 * r.0@.len() == bytes_of(t.program@) + t.brk.len + t.mmap.len
            &&& within(a as int, t.brk.vaddr as int, t.brk.len as int) || within(
                a as int,
                t.mmap.vaddr as int,
                t.mmap.len as int,
            ) || (exists|i: int|
                0 <= i < t.program@.len() && within(
                    a as int,
                    (#[trigger] t.program@[i]).vaddr as int,
                    t.program@[i].len as int,
                )) ==> r.0@.contains(Block { p: t.pt@[a].p, size: 4096 })
        }),
{
    lemma_me(*old(k));
    let read = Ok::<Vec<u8>, ()>(s);
    lemma_program(read);
    let k1 = choose|k1: Kernel| #[trigger]
        is_advanced(k1, *old(k), read) && header_read(
            *final(k),
            *final(x),
            r.1,
            r.0@,
            k1,
            read,
        );
    let (mid, elf) = choose|mid: Kernel, elf: Elf|
        #![trigger is_cleared(mid, k1, r.0@), has_header(elf, read)]
        {
            &&& is_cleared(mid, k1, r.0@)
            &&& has_header(elf, read)
            &&& elf.file == k1.cur().loading->0
            &&& goes_on(*final(k), *final(x), r.1, mid, PhIter { elf, idx: 0 })
        };
    let t = me(*old(k));
    let m = t.pt@;
    let rs = t.program@;
    let n = rs.len() as int;
    lemma_blocks();
    lemma_shareable(t, 0);
    let all = shared_regions(t);
    assert(all[n] == t.brk && all[n + 1] == t.mmap);
    assert(all[n].whole() && all[n + 1].whole());
    assert forall|i: int| 0 <= i < n implies (#[trigger] rs[i]).granule == 0 && rs[i].vaddr % 4096
        == 0 && rs[i].len % 4096 == 0 by {
        assert(all[i] == rs[i]);
        assert(all[i].whole());
    }
    lemma_all_blocks_len(rs, m);
    let (mb, bb, pb) = (t.mmap.blocks(m), t.brk.blocks(m), all_blocks(rs, m));
    assert(t.mmap.blk() == 4096 && t.brk.blk() == 4096);
    assert(r.0@ == mb + bb + pb);
    let b = Block { p: m[a].p, size: 4096 };
    if within(a as int, t.brk.vaddr as int, t.brk.len as int) {
        let z = (a - t.brk.vaddr) / 4096;
        assert(t.brk.vaddr + z * 4096 == a);
        assert(bb[z] == b);
        assert(r.0@[mb.len() + z] == b);
    } else if within(a as int, t.mmap.vaddr as int, t.mmap.len as int) {
        let z = (a - t.mmap.vaddr) / 4096;
        assert(t.mmap.vaddr + z * 4096 == a);
        assert(mb[z] == b);
        assert(r.0@[z] == b);
    } else if exists|i: int|
        0 <= i < rs.len() && within(
            a as int,
            (#[trigger] rs[i]).vaddr as int,
            rs[i].len as int,
        ) {
        let i = choose|i: int|
            0 <= i < rs.len() && within(
                a as int,
                (#[trigger] rs[i]).vaddr as int,
                rs[i].len as int,
            );
        lemma_block_is_freed(rs, m, i, a);
        let z = choose|z: int| 0 <= z < pb.len() && pb[z] == b;
        assert(r.0@[mb.len() + bb.len() + z] == b);
    }
}

} // verus!
