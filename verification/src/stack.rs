//! The first stack of a program: its argument and environment strings, the
//! pointers to them, and the auxiliary vector.
use vstd::prelude::*;

use crate::le::{le, le_value, law_le_reads_back, lemma_le_len, lemma_pow256, push_u64};

verus! {

/// Bytes in a user stack.
pub const SPEL0_SIZE: usize = 8192;

/// Bytes at the top of a user stack that the auxiliary vector names as random.
pub const RANDOM_SIZE: usize = 16;

/// The key under which the auxiliary vector holds the address of the random bytes.
pub const AT_RANDOM: u64 = 25;

/// The strings of a list.
pub open spec fn strings(v: Seq<Vec<u8>>) -> Seq<Seq<u8>> {
    v.map_values(|s: Vec<u8>| s@)
}

/// The strings of `v` that go on a stack: those behind the last empty one.
pub open spec fn kept(v: Seq<Seq<u8>>) -> Seq<Seq<u8>>
    decreases v.len(),
{
    if v.len() == 0 || v.last().len() == 0 {
        Seq::empty()
    } else {
        kept(v.drop_last()).push(v.last())
    }
}

/// The strings of `v` one behind the other, each with a zero byte after it.
pub open spec fn text(v: Seq<Seq<u8>>) -> Seq<u8>
    decreases v.len(),
{
    if v.len() == 0 {
        Seq::empty()
    } else {
        text(v.drop_last()) + v.last() + seq![0u8]
    }
}

/// The addresses of the strings of `v` where their text starts at `at`.
pub open spec fn addresses(v: Seq<Seq<u8>>, at: int) -> Seq<u64> {
    Seq::new(v.len(), |i: int| (at + text(v.take(i)).len()) as u64)
}

/// The bytes of a list of machine words.
pub open spec fn words(w: Seq<u64>) -> Seq<u8>
    decreases w.len(),
{
    if w.len() == 0 {
        Seq::empty()
    } else {
        words(w.drop_last()) + le(w.last() as nat, 8)
    }
}

pub open spec fn zeros(n: int) -> Seq<u8> {
    Seq::new(n as nat, |i: int| 0u8)
}

/// Where in the stack the text of `args` and `envs` starts.
pub open spec fn text_start(args: Seq<Seq<u8>>, envs: Seq<Seq<u8>>) -> int {
    8192 - 16 - text(args).len() - text(envs).len()
}

/// Where in the stack the pointers, and with them the stack pointer, stand.
pub open spec fn stack_start(args: Seq<Seq<u8>>, envs: Seq<Seq<u8>>) -> int {
    let at = text_start(args, envs);
    at - at % 8 - 32 - 8 * (args.len() + envs.len() + 3)
}

/// Whether all of it fits.
pub open spec fn stack_fits(args: Seq<Seq<u8>>, envs: Seq<Seq<u8>>) -> bool {
    text_start(args, envs) >= 0 && stack_start(args, envs) >= 0
}

/// The words at the stack pointer: the number of arguments, the argument pointers
/// and a zero, the environment pointers and a zero, the auxiliary vector.
pub open spec fn stack_words(
    base: int,
    argc: int,
    args: Seq<Seq<u8>>,
    envs: Seq<Seq<u8>>,
) -> Seq<u64> {
    let at = base + text_start(args, envs);
    seq![argc as u64] + addresses(args, at) + seq![0u64] + addresses(
        envs,
        at + text(args).len(),
    ) + seq![0u64, AT_RANDOM, (base + 8192 - 16) as u64, 0u64, 0u64]
}

/// The whole stack of `8192` bytes at `base` for `argc` arguments of which `args`
/// are kept, and the environment `envs`.
pub open spec fn stack_image(
    base: int,
    argc: int,
    args: Seq<Seq<u8>>,
    envs: Seq<Seq<u8>>,
) -> Seq<u8> {
    zeros(stack_start(args, envs)) + words(stack_words(base, argc, args, envs)) + zeros(
        text_start(args, envs) % 8,
    ) + text(args) + text(envs) + zeros(16)
}

/// The strings at the end of `v` for which there is room, put down from the last one on
/// until one does not fit.
pub open spec fn fitting(v: Seq<Seq<u8>>, room: int) -> Seq<Seq<u8>>
    decreases v.len(),
{
    if v.len() == 0 || v.last().len() + 1 > room {
        Seq::empty()
    } else {
        fitting(v.drop_last(), room - v.last().len() - 1).push(v.last())
    }
}

/// What a stack at `base` holds where not all of it fits: the environment strings and
/// then the arguments for which there was room and, where all of them are there, the
/// auxiliary vector if there was room for that.
pub open spec fn spoiled_image(base: int, args: Seq<Seq<u8>>, envs: Seq<Seq<u8>>) -> Seq<u8> {
    let e = fitting(envs, 8192 - 16);
    let a = if e.len() == envs.len() {
        fitting(args, 8192 - 16 - text(envs).len())
    } else {
        Seq::empty()
    };
    let at = text_start(a, e);
    let low = at - at % 8;
    let top = text(a) + text(e) + zeros(16);
    if e.len() == envs.len() && a.len() == args.len() && low >= 32 {
        zeros(low - 32) + words(seq![AT_RANDOM, (base + 8192 - 16) as u64, 0u64, 0u64]) + zeros(
            at % 8,
        ) + top
    } else {
        zeros(at) + top
    }
}

/// A stack image and the stack pointer that goes with it.
pub struct UserStack {
    pub image: Vec<u8>,
    pub sp: u64,
}

/// What is kept is the end of the list.
pub proof fn lemma_kept(v: Seq<Seq<u8>>, from: int)
    requires
        0 <= from <= v.len(),
        forall|i: int| from <= i < v.len() ==> (#[trigger] v[i]).len() > 0,
        from > 0 ==> v[from - 1].len() == 0,
    ensures
        kept(v) == v.skip(from),
    decreases v.len(),
{
    if v.len() == 0 || v.last().len() == 0 {
        assert(v.skip(from) =~= Seq::empty());
    } else {
        lemma_kept(v.drop_last(), from);
        assert(v.drop_last().skip(from).push(v.last()) =~= v.skip(from));
    }
}

proof fn lemma_text_step(v: Seq<Seq<u8>>, i: int)
    requires
        0 <= i < v.len(),
    ensures
        text(v.take(i + 1)) == text(v.take(i)) + v[i] + seq![0u8],
{
    assert(v.take(i + 1).drop_last() =~= v.take(i));
}

proof fn lemma_text_monotone(v: Seq<Seq<u8>>, i: int)
    requires
        0 <= i <= v.len(),
    ensures
        text(v.take(i)).len() <= text(v).len(),
        text(v).take(text(v.take(i)).len() as int) == text(v.take(i)),
    decreases v.len() - i,
{
    if i == v.len() {
        assert(v.take(i) =~= v);
        assert(text(v).take(text(v).len() as int) =~= text(v));
    } else {
        lemma_text_step(v, i);
        lemma_text_monotone(v, i + 1);
        let a = text(v.take(i));
        let b = text(v.take(i + 1));
        assert(text(v).take(a.len() as int) =~= text(v).take(b.len() as int).take(a.len() as int));
        assert(b.take(a.len() as int) =~= a);
    }
}

proof fn lemma_text_len(v: Seq<Seq<u8>>)
    ensures
        text(v).len() >= v.len(),
    decreases v.len(),
{
    if v.len() > 0 {
        lemma_text_len(v.drop_last());
    }
}

proof fn lemma_words_push(w: Seq<u64>, x: u64)
    ensures
        words(w.push(x)) == words(w) + le(x as nat, 8),
{
    assert(w.push(x).drop_last() =~= w);
}

pub proof fn lemma_words_len(w: Seq<u64>)
    ensures
        words(w).len() == 8 * w.len(),
    decreases w.len(),
{
    if w.len() > 0 {
        lemma_words_len(w.drop_last());
        lemma_le_len(w.last() as nat, 8);
    }
}

/// The index from which on the strings of `v` are kept.
fn kept_from(v: &[Vec<u8>]) -> (from: usize)
    ensures
        from <= v@.len(),
        kept(strings(v@)) == strings(v@).skip(from as int),
{
    let mut from: usize = v.len();
    while from > 0 && v[from - 1].len() > 0
        invariant
            from <= v@.len(),
            forall|i: int| from <= i < v@.len() ==> (#[trigger] v@[i])@.len() > 0,
        decreases from,
    {
        from -= 1;
    }
    proof {
        lemma_kept(strings(v@), from as int);
    }
    from
}

/// The text of a list is that of its first strings and that of the others.
proof fn lemma_text_split(v: Seq<Seq<u8>>, k: int)
    requires
        0 <= k <= v.len(),
    ensures
        text(v) == text(v.take(k)) + text(v.skip(k)),
    decreases v.len(),
{
    if k == v.len() {
        assert(v.take(k) =~= v);
        assert(v.skip(k) =~= Seq::empty());
        assert(text(v) =~= text(v.take(k)) + text(v.skip(k)));
    } else {
        let init = v.drop_last();
        lemma_text_split(init, k);
        assert(init.take(k) =~= v.take(k));
        assert(v.skip(k).drop_last() =~= init.skip(k));
        assert(text(v) =~= text(v.take(k)) + text(v.skip(k)));
    }
}

/// What fits is the end of the list, and all of it where there is room for its text.
pub proof fn lemma_fitting(v: Seq<Seq<u8>>, room: int)
    requires
        0 <= room,
    ensures
        fitting(v, room).len() <= v.len(),
        text(fitting(v, room)).len() <= room,
        fitting(v, room).len() == v.len() ==> fitting(v, room) == v,
        fitting(v, room).len() == v.len() <==> text(v).len() <= room,
    decreases v.len(),
{
    if v.len() > 0 && v.last().len() + 1 <= room {
        let init = v.drop_last();
        let left = room - v.last().len() - 1;
        lemma_fitting(init, left);
        let f = fitting(init, left);
        assert(f.push(v.last()).drop_last() =~= f);
        assert(init.push(v.last()) =~= v);
    }
}

/// Finds room for the strings of `v` from index `from` on, from the last one on; returns
/// the index from which on they fit into `room` bytes, and what is then left.
fn find_room(v: &[Vec<u8>], from: usize, room: usize) -> (r: (usize, usize))
    requires
        from <= v@.len(),
    ensures
        from <= r.0 <= v@.len(),
        strings(v@).skip(r.0 as int) == fitting(strings(v@).skip(from as int), room as int),
        r.1 == room - text(strings(v@).skip(r.0 as int)).len(),
        r.0 == from <==> text(strings(v@).skip(from as int)).len() <= room,
{
    let ghost ss = strings(v@);
    let ghost all = ss.skip(from as int);
    let mut i: usize = v.len();
    let mut left: usize = room;
    proof {
        assert(all.take(all.len() as int) =~= all);
        assert(ss.skip(i as int) =~= Seq::empty());
        assert(fitting(all, room as int) + ss.skip(i as int) =~= fitting(all, room as int));
    }
    while i > from && v[i - 1].len() < left
        invariant
            from <= i <= v@.len(),
            left <= room,
            ss == strings(v@),
            all == ss.skip(from as int),
            text(all.take(i - from)).len() + room - left == text(all).len(),
            fitting(all, room as int) == fitting(all.take(i - from), left as int) + ss.skip(
                i as int,
            ),
        decreases i,
    {
        proof {
            let k = i - from;
            lemma_text_step(all, k - 1);
            let t = all.take(k);
            assert(t.drop_last() =~= all.take(k - 1));
            assert(t.last() == v@[i - 1]@);
            let rest = fitting(all.take(k - 1), left - v@[i - 1]@.len() - 1);
            assert(ss.skip(i - 1) =~= seq![v@[i - 1]@] + ss.skip(i as int));
            assert(rest.push(v@[i - 1]@) + ss.skip(i as int) =~= rest + ss.skip(i - 1));
        }
        left = left - v[i - 1].len() - 1;
        i -= 1;
    }
    proof {
        let t = all.take(i - from);
        assert(i > from ==> t.last() == v@[i - 1]@);
        assert(fitting(t, left as int) =~= Seq::empty());
        assert(fitting(all, room as int) =~= ss.skip(i as int));
        lemma_text_split(all, i - from);
        assert(all.skip(i - from) =~= ss.skip(i as int));
        lemma_fitting(all, room as int);
        assert(ss.skip(i as int).len() == v@.len() - i);
    }
    (i, left)
}

fn push_zeros(out: &mut Vec<u8>, n: usize)
    ensures
        final(out)@ == old(out)@ + zeros(n as int),
{
    let mut i: usize = 0;
    while i < n
        invariant
            i <= n,
            out@ =~= old(out)@ + zeros(i as int),
        decreases n - i,
    {
        out.push(0);
        i += 1;
    }
}

/// Appends the text of the strings of `v` from index `from` on.
fn push_text(out: &mut Vec<u8>, v: &[Vec<u8>], from: usize)
    requires
        from <= v@.len(),
    ensures
        final(out)@ == old(out)@ + text(strings(v@).skip(from as int)),
{
    let ghost all = strings(v@).skip(from as int);
    let mut i: usize = from;
    proof {
        assert(all.take(0) =~= Seq::empty());
        assert(out@ =~= old(out)@ + text(all.take(0)));
    }
    while i < v.len()
        invariant
            from <= i <= v@.len(),
            all == strings(v@).skip(from as int),
            out@ == old(out)@ + text(all.take(i - from)),
        decreases v@.len() - i,
    {
        let ghost before = out@;
        out.extend_from_slice(v[i].as_slice());
        out.push(0);
        proof {
            lemma_text_step(all, i - from);
            assert(all[i - from] == v@[i as int]@);
            assert(out@ =~= old(out)@ + text(all.take(i - from + 1)));
        }
        i += 1;
    }
    proof {
        assert(all.take(i - from) =~= all);
    }
}

/// Appends the addresses of the strings of `v` from index `from` on, whose text
/// starts at `at`, and returns where it ends.
fn push_addresses(out: &mut Vec<u8>, v: &[Vec<u8>], from: usize, at: u64) -> (end: u64)
    requires
        from <= v@.len(),
        at + text(strings(v@).skip(from as int)).len() <= u64::MAX,
    ensures
        final(out)@ == old(out)@ + words(
            addresses(strings(v@).skip(from as int), at as int),
        ),
        end == at + text(strings(v@).skip(from as int)).len(),
{
    let ghost all = strings(v@).skip(from as int);
    let ghost adr = addresses(all, at as int);
    let mut i: usize = from;
    let mut end: u64 = at;
    proof {
        assert(all.take(0) =~= Seq::empty());
        assert(adr.take(0) =~= Seq::empty());
        assert(out@ =~= old(out)@ + words(adr.take(0)));
    }
    while i < v.len()
        invariant
            from <= i <= v@.len(),
            all == strings(v@).skip(from as int),
            adr == addresses(all, at as int),
            at + text(all).len() <= u64::MAX,
            end == at + text(all.take(i - from)).len(),
            out@ == old(out)@ + words(adr.take(i - from)),
        decreases v@.len() - i,
    {
        push_u64(out, end);
        proof {
            lemma_text_step(all, i - from);
            lemma_text_monotone(all, i - from + 1);
            assert(all[i - from] == v@[i as int]@);
            assert(adr.take(i - from + 1) =~= adr.take(i - from).push(end));
            lemma_words_push(adr.take(i - from), end);
            assert(out@ =~= old(out)@ + words(adr.take(i - from + 1)));
        }
        end = end + v[i].len() as u64 + 1;
        i += 1;
    }
    proof {
        assert(all.take(i - from) =~= all);
        assert(adr.take(i - from) =~= adr);
    }
    end
}

proof fn lemma_words_add(a: Seq<u64>, b: Seq<u64>)
    ensures
        words(a + b) == words(a) + words(b),
    decreases b.len(),
{
    if b.len() == 0 {
        assert(a + b =~= a);
        assert(words(a) + words(b) =~= words(a));
    } else {
        lemma_words_add(a, b.drop_last());
        assert((a + b).drop_last() =~= a + b.drop_last());
        assert(words(a + b) =~= words(a) + words(b));
    }
}

/// Words that follow words.
proof fn lemma_more_words(pre: Seq<u8>, a: Seq<u64>, b: Seq<u64>)
    ensures
        pre + words(a) + words(b) == pre + words(a + b),
{
    lemma_words_add(a, b);
    assert(pre + words(a) + words(b) =~= pre + (words(a) + words(b)));
}

proof fn lemma_one_word(pre: Seq<u8>, a: Seq<u64>, x: u64)
    ensures
        pre + words(a) + le(x as nat, 8) == pre + words(a.push(x)),
{
    lemma_words_push(a, x);
    assert(pre + words(a) + le(x as nat, 8) =~= pre + (words(a) + le(x as nat, 8)));
}

/// Appends the words at the stack pointer. The strings of `argv` count from index
/// `af` on, those of `envp` from index `ef` on, and their text starts at offset `at`.
fn push_stack_words(
    out: &mut Vec<u8>,
    base: u64,
    argv: &[Vec<u8>],
    af: usize,
    envp: &[Vec<u8>],
    ef: usize,
    at: usize,
)
    requires
        base + 8192 <= u64::MAX,
        af <= argv@.len(),
        ef <= envp@.len(),
        at == text_start(strings(argv@).skip(af as int), strings(envp@).skip(ef as int)),
    ensures
        final(out)@ == old(out)@ + words(
            stack_words(
                base as int,
                argv@.len() as int,
                strings(argv@).skip(af as int),
                strings(envp@).skip(ef as int),
            ),
        ),
{
    let ghost pre = out@;
    let ghost args = strings(argv@).skip(af as int);
    let ghost envs = strings(envp@).skip(ef as int);
    let ghost b = base as int;
    let ghost w0: Seq<u64> = Seq::empty();
    assert(out@ =~= pre + words(w0));
    push_u64(out, argv.len() as u64);
    let ghost w1 = w0.push(argv@.len() as u64);
    proof {
        lemma_one_word(pre, w0, argv@.len() as u64);
    }
    let mid: u64 = push_addresses(out, argv, af, base + at as u64);
    let ghost w2 = w1 + addresses(args, b + at);
    proof {
        lemma_more_words(pre, w1, addresses(args, b + at));
    }
    push_u64(out, 0);
    let ghost w3 = w2.push(0u64);
    proof {
        lemma_one_word(pre, w2, 0);
    }
    push_addresses(out, envp, ef, mid);
    let ghost w4 = w3 + addresses(envs, b + at + text(args).len());
    proof {
        lemma_more_words(pre, w3, addresses(envs, b + at + text(args).len()));
    }
    push_u64(out, 0);
    push_u64(out, AT_RANDOM);
    let random: u64 = base + (SPEL0_SIZE - RANDOM_SIZE) as u64;
    push_u64(out, random);
    push_u64(out, 0);
    push_u64(out, 0);
    proof {
        lemma_one_word(pre, w4, 0);
        let w5 = w4.push(0);
        lemma_one_word(pre, w5, AT_RANDOM);
        let w6 = w5.push(AT_RANDOM);
        lemma_one_word(pre, w6, random);
        let w7 = w6.push(random);
        lemma_one_word(pre, w7, 0);
        let w8 = w7.push(0);
        lemma_one_word(pre, w8, 0);
        assert(w8.push(0) =~= stack_words(b, argv@.len() as int, args, envs));
    }
}

/// Builds the first stack of a program, to stand at `base`. Where not all of it fits, the
/// error is what the stack then holds.
pub fn user_stack(base: u64, argv: &[Vec<u8>], envp: &[Vec<u8>]) -> (r: Result<
    UserStack,
    Vec<u8>,
>)
    requires
        base + 8192 <= u64::MAX,
    ensures
        r is Ok <==> stack_fits(kept(strings(argv@)), kept(strings(envp@))),
        r matches Ok(s) ==> {
            let args = kept(strings(argv@));
            let envs = kept(strings(envp@));
            &&& s.image@ == stack_image(base as int, argv@.len() as int, args, envs)
            &&& s.sp == base + stack_start(args, envs)
        },
        r matches Err(image) ==> image@ == spoiled_image(
            base as int,
            kept(strings(argv@)),
            kept(strings(envp@)),
        ),
{
    let ef: usize = kept_from(envp);
    let af: usize = kept_from(argv);
    let ghost args = kept(strings(argv@));
    let ghost envs = kept(strings(envp@));
    let room: usize = SPEL0_SIZE - RANDOM_SIZE;
    let (ei, after_envs) = find_room(envp, ef, room);
    proof {
        lemma_text_len(args);
        lemma_text_len(envs);
        lemma_fitting(envs, room as int);
        lemma_fitting(args, after_envs as int);
    }
    if ei > ef {
        assert(strings(argv@).skip(argv@.len() as int) =~= Seq::empty());
        return Err(strings_only(argv, argv.len(), envp, ei, after_envs));
    }
    let (ai, at) = find_room(argv, af, after_envs);
    if ai > af {
        return Err(strings_only(argv, ai, envp, ei, at));
    }
    let gap: usize = at % 8;
    let low: usize = at - gap;
    let strs: usize = (argv.len() - af) + (envp.len() - ef);
    if low < 32 {
        return Err(strings_only(argv, ai, envp, ei, at));
    }
    let ptrs_len: usize = 8 * (strs + 3);
    let mut image: Vec<u8> = Vec::new();
    if low - 32 < ptrs_len {
        push_zeros(&mut image, low - 32);
        push_aux(&mut image, base);
        push_zeros(&mut image, gap);
        push_text(&mut image, argv, af);
        push_text(&mut image, envp, ef);
        push_zeros(&mut image, RANDOM_SIZE);
        assert(image@ =~= spoiled_image(base as int, args, envs));
        return Err(image);
    }
    let start: usize = low - 32 - ptrs_len;
    push_zeros(&mut image, start);
    push_stack_words(&mut image, base, argv, af, envp, ef, at);
    push_zeros(&mut image, gap);
    push_text(&mut image, argv, af);
    push_text(&mut image, envp, ef);
    push_zeros(&mut image, RANDOM_SIZE);
    proof {
        assert(Seq::<u8>::empty() + zeros(start as int) =~= zeros(start as int));
    }
    Ok(UserStack { image, sp: base + start as u64 })
}

/// A stack with these strings and no words: those of `argv` from index `ai` on, and those
/// of `envp` from index `ei` on, whose text starts at offset `at`.
fn strings_only(argv: &[Vec<u8>], ai: usize, envp: &[Vec<u8>], ei: usize, at: usize) -> (image:
    Vec<u8>)
    requires
        ai <= argv@.len(),
        ei <= envp@.len(),
    ensures
        image@ == zeros(at as int) + (text(strings(argv@).skip(ai as int)) + text(
            strings(envp@).skip(ei as int),
        ) + zeros(16)),
{
    let mut image: Vec<u8> = Vec::new();
    push_zeros(&mut image, at);
    push_text(&mut image, argv, ai);
    push_text(&mut image, envp, ei);
    push_zeros(&mut image, RANDOM_SIZE);
    assert(image@ =~= zeros(at as int) + (text(strings(argv@).skip(ai as int)) + text(
        strings(envp@).skip(ei as int),
    ) + zeros(16)));
    image
}

/// Appends the auxiliary vector of a stack at `base`.
fn push_aux(out: &mut Vec<u8>, base: u64)
    requires
        base + 8192 <= u64::MAX,
    ensures
        final(out)@ == old(out)@ + words(
            seq![AT_RANDOM, (base + 8192 - 16) as u64, 0u64, 0u64],
        ),
{
    let ghost pre = out@;
    let ghost w0: Seq<u64> = Seq::empty();
    assert(out@ =~= pre + words(w0));
    let random: u64 = base + (SPEL0_SIZE - RANDOM_SIZE) as u64;
    push_u64(out, AT_RANDOM);
    push_u64(out, random);
    push_u64(out, 0);
    push_u64(out, 0);
    proof {
        lemma_one_word(pre, w0, AT_RANDOM);
        let w1 = w0.push(AT_RANDOM);
        lemma_one_word(pre, w1, random);
        let w2 = w1.push(random);
        lemma_one_word(pre, w2, 0);
        let w3 = w2.push(0);
        lemma_one_word(pre, w3, 0);
        assert(w3.push(0) =~= seq![AT_RANDOM, (base + 8192 - 16) as u64, 0u64, 0u64]);
    }
}

/// Which words stand behind which.
pub proof fn lemma_words_at(w: Seq<u64>, k: int)
    requires
        0 <= k < w.len(),
    ensures
        words(w).len() == 8 * w.len(),
        words(w).subrange(8 * k, 8 * k + 8) == le(w[k] as nat, 8),
    decreases w.len(),
{
    lemma_words_len(w);
    lemma_words_len(w.drop_last());
    lemma_le_len(w.last() as nat, 8);
    if k == w.len() - 1 {
        assert(words(w).subrange(8 * k, 8 * k + 8) =~= le(w[k] as nat, 8));
    } else {
        lemma_words_at(w.drop_last(), k);
        assert(words(w).subrange(8 * k, 8 * k + 8) =~= words(w.drop_last()).subrange(
            8 * k,
            8 * k + 8,
        ));
    }
}

/// The image fills the stack, and the stack pointer is a multiple of eight.
pub proof fn law_stack_is_whole(
    base: int,
    argc: int,
    args: Seq<Seq<u8>>,
    envs: Seq<Seq<u8>>,
)
    requires
        stack_fits(args, envs),
    ensures
        stack_image(base, argc, args, envs).len() == 8192,
        stack_start(args, envs) % 8 == 0,
{
    lemma_words_len(stack_words(base, argc, args, envs));
}

/// A stack that not everything fits on is still a whole stack.
pub proof fn law_spoiled_stack_is_whole(base: int, args: Seq<Seq<u8>>, envs: Seq<Seq<u8>>)
    ensures
        spoiled_image(base, args, envs).len() == 8192,
{
    lemma_fitting(envs, 8192 - 16);
    if text(envs).len() <= 8192 - 16 {
        lemma_fitting(args, 8192 - 16 - text(envs).len());
    }
    lemma_words_len(seq![AT_RANDOM, (base + 8192 - 16) as u64, 0u64, 0u64]);
    assert(text(Seq::<Seq<u8>>::empty()).len() == 0);
}

/// A program that loads the `k`-th word above its first stack pointer gets the
/// `k`-th of the words that belong there.
pub proof fn law_stack_word_reads_back(
    base: int,
    argc: int,
    args: Seq<Seq<u8>>,
    envs: Seq<Seq<u8>>,
    k: int,
)
    requires
        stack_fits(args, envs),
        0 <= k < stack_words(base, argc, args, envs).len(),
    ensures
        ({
            let at = stack_start(args, envs) + 8 * k;
            le_value(stack_image(base, argc, args, envs).subrange(at, at + 8)) == stack_words(
                base,
                argc,
                args,
                envs,
            )[k]
        }),
{
    let w = stack_words(base, argc, args, envs);
    let at = stack_start(args, envs) + 8 * k;
    lemma_words_at(w, k);
    lemma_pow256();
    law_le_reads_back(w[k] as nat, 8);
    assert(stack_image(base, argc, args, envs).subrange(at, at + 8) =~= words(w).subrange(
        8 * k,
        8 * k + 8,
    ));
}

/// A string in a text.
proof fn lemma_text_at(v: Seq<Seq<u8>>, i: int)
    requires
        0 <= i < v.len(),
    ensures
        ({
            let at = text(v.take(i)).len() as int;
            &&& at + v[i].len() < text(v).len()
            &&& text(v).subrange(at, at + v[i].len()) == v[i]
            &&& text(v)[at + v[i].len()] == 0
        }),
{
    lemma_text_step(v, i);
    lemma_text_monotone(v, i + 1);
    let a = text(v.take(i));
    let b = text(v.take(i + 1));
    let at = a.len() as int;
    assert forall|j: int| 0 <= j < b.len() implies #[trigger] text(v)[j] == b[j] by {
        assert(text(v).take(b.len() as int)[j] == b[j]);
    }
    assert(text(v).subrange(at, at + v[i].len()) =~= v[i]);
}

/// Each kept argument stands at its address, with a zero byte behind it.
pub proof fn law_argument_stands_at_its_address(
    base: int,
    argc: int,
    args: Seq<Seq<u8>>,
    envs: Seq<Seq<u8>>,
    i: int,
)
    requires
        stack_fits(args, envs),
        0 <= base,
        base + 8192 <= u64::MAX,
        0 <= i < args.len(),
    ensures
        ({
            let image = stack_image(base, argc, args, envs);
            let at = stack_words(base, argc, args, envs)[1 + i] - base;
            &&& 0 <= at
            &&& at + args[i].len() < 8192
            &&& image.subrange(at, at + args[i].len()) == args[i]
            &&& image[at + args[i].len()] == 0
        }),
{
    let image = stack_image(base, argc, args, envs);
    let w = stack_words(base, argc, args, envs);
    lemma_words_len(w);
    lemma_text_at(args, i);
    let off = text(args.take(i)).len() as int;
    let at = text_start(args, envs) + off;
    assert(w[1 + i] == (base + at) as u64);
    assert(image.subrange(at, at + args[i].len()) =~= text(args).subrange(
        off,
        off + args[i].len(),
    ));
}

/// Each kept environment string stands at its address, with a zero byte behind it.
pub proof fn law_environment_stands_at_its_address(
    base: int,
    argc: int,
    args: Seq<Seq<u8>>,
    envs: Seq<Seq<u8>>,
    i: int,
)
    requires
        stack_fits(args, envs),
        0 <= base,
        base + 8192 <= u64::MAX,
        0 <= i < envs.len(),
    ensures
        ({
            let image = stack_image(base, argc, args, envs);
            let at = stack_words(base, argc, args, envs)[2 + args.len() + i] - base;
            &&& 0 <= at
            &&& at + envs[i].len() < 8192
            &&& image.subrange(at, at + envs[i].len()) == envs[i]
            &&& image[at + envs[i].len()] == 0
        }),
{
    let image = stack_image(base, argc, args, envs);
    let w = stack_words(base, argc, args, envs);
    lemma_words_len(w);
    lemma_text_at(envs, i);
    let off = text(envs.take(i)).len() as int;
    let at = text_start(args, envs) + text(args).len() + off;
    assert(w[2 + args.len() + i] == (base + at) as u64);
    assert(image.subrange(at, at + envs[i].len()) =~= text(envs).subrange(
        off,
        off + envs[i].len(),
    ));
}

} // verus!
