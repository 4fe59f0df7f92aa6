//! What the recorded requests mean for the inferior's memory.
//!
//! The memory of a stopped inferior is modelled as a function from
//! addresses to bytes. A sequence of requests `agrees` with a starting
//! memory when every successful peek returned the bytes that memory held
//! at that point, where successful pokes change the memory and nothing
//! else does. The laws below hold of every run whose requests agree with
//! some memory: that is the hypothesis under which a debugger reads and
//! writes a stopped process, and it is stated, not assumed.
use vstd::prelude::*;
use nix::libc::user_regs_struct;
use crate::error::PsErr;
use crate::handle::Access;
use crate::regs::{getregs_done, setregs_done};
use crate::memory::{
    access_ok, bytes_copied, is_peek_at, is_poke_of, merged_word, outcome_of, peeked_word,
    read_bytes, read_trace, tail_of, word_at, words_read, write_failed_early, write_trace,
};
use crate::words::{lemma_word_bytes_roundtrip, word_bytes};

verus! {

/// `len` bytes of memory `m` from address `addr`.
pub open spec fn window(m: spec_fn(int) -> u8, addr: int, len: nat) -> Seq<u8> {
    Seq::new(len, |i: int| m(addr + i))
}

/// Memory `m` with `bytes` stored from address `addr`.
pub open spec fn store(m: spec_fn(int) -> u8, addr: int, bytes: Seq<u8>) -> spec_fn(int) -> u8 {
    |j: int|
        if addr <= j < addr + bytes.len() {
            bytes[j - addr]
        } else {
            m(j)
        }
}

/// A request agrees with memory `m` when, if it is a successful peek, the
/// word it returned is the word `m` holds at the peeked address.
pub open spec fn access_agrees(m: spec_fn(int) -> u8, a: Access) -> bool {
    match a {
        Access::PeekData { addr, result: Ok(w), .. } => word_bytes(w as u64) == window(m, addr as int, 8),
        _ => true,
    }
}

/// Memory `m` after request `a`: a successful poke stores its word.
pub open spec fn apply_access(m: spec_fn(int) -> u8, a: Access) -> spec_fn(int) -> u8 {
    match a {
        Access::PokeData { addr, word, result: Ok(_), .. } => store(m, addr as int, word_bytes(word as u64)),
        _ => m,
    }
}

/// Memory `m` after the requests `t`, in order.
pub open spec fn memory_after(m: spec_fn(int) -> u8, t: Seq<Access>) -> spec_fn(int) -> u8
    decreases t.len(),
{
    if t.len() == 0 {
        m
    } else {
        apply_access(memory_after(m, t.drop_last()), t.last())
    }
}

/// Every request of `t` agrees with the memory that the requests before it
/// leave from `m`.
pub open spec fn agrees(m: spec_fn(int) -> u8, t: Seq<Access>) -> bool
    decreases t.len(),
{
    t.len() == 0 || (agrees(m, t.drop_last()) && access_agrees(memory_after(m, t.drop_last()), t.last()))
}

/// Requests run in sequence: running `t1 + t2` is running `t1`, then `t2`
/// on what `t1` left.
pub proof fn lemma_run_concat(m: spec_fn(int) -> u8, t1: Seq<Access>, t2: Seq<Access>)
    ensures
        memory_after(m, t1 + t2) == memory_after(memory_after(m, t1), t2),
        agrees(m, t1 + t2) == (agrees(m, t1) && agrees(memory_after(m, t1), t2)),
    decreases t2.len(),
{
    if t2.len() == 0 {
        assert(t1 + t2 =~= t1);
    } else {
        lemma_run_concat(m, t1, t2.drop_last());
        assert((t1 + t2).drop_last() =~= t1 + t2.drop_last());
        assert((t1 + t2).last() == t2.last());
    }
}

/// Peeks leave memory as it is, and agree with it exactly when each
/// returned what the memory holds.
pub proof fn lemma_peeks_only(m: spec_fn(int) -> u8, t: Seq<Access>)
    requires
        forall|i: int| 0 <= i < t.len() ==> #[trigger] t[i] is PeekData,
    ensures
        memory_after(m, t) == m,
        agrees(m, t) == forall|i: int| 0 <= i < t.len() ==> #[trigger] access_agrees(m, t[i]),
    decreases t.len(),
{
    if t.len() > 0 {
        let s = t.drop_last();
        assert forall|i: int| 0 <= i < s.len() implies #[trigger] s[i] is PeekData by {
            assert(s[i] == t[i]);
        }
        lemma_peeks_only(m, s);
        assert(t.last() is PeekData);
        if agrees(m, t) {
            assert forall|i: int| 0 <= i < t.len() implies #[trigger] access_agrees(m, t[i]) by {
                if i < t.len() - 1 {
                    assert(s[i] == t[i]);
                }
            }
        }
        if forall|i: int| 0 <= i < t.len() ==> #[trigger] access_agrees(m, t[i]) {
            assert forall|i: int| 0 <= i < s.len() implies #[trigger] access_agrees(m, s[i]) by {
                assert(s[i] == t[i]);
                assert(access_agrees(m, t[i]));
            }
            assert(access_agrees(m, t[t.len() - 1]));
        }
    }
}

/// A read gives back memory: the bytes a read has copied are the bytes
/// at the address read, all `size` of them when the read succeeded, and
/// reading changes no memory.
pub proof fn lemma_read_returns_memory(
    pid: i32,
    addr: int,
    size: nat,
    t: Seq<Access>,
    m: spec_fn(int) -> u8,
)
    requires
        read_trace(pid, addr, size, t),
        agrees(m, t),
    ensures
        outcome_of(t) is Ok ==> bytes_copied(size, t) == size,
        read_bytes(size, t) == window(m, addr, bytes_copied(size, t)),
        memory_after(m, t) == m,
{
    assert forall|i: int| 0 <= i < t.len() implies #[trigger] t[i] is PeekData by {
        assert(is_peek_at(t[i], pid, addr + 8 * i));
    }
    lemma_peeks_only(m, t);
    let c = bytes_copied(size, t);
    let out = read_bytes(size, t);
    assert forall|j: int| 0 <= j < c implies #[trigger] out[j] == m(addr + j) by {
        let k = j / 8;
        assert(0 <= k < words_read(t));
        assert(access_ok(t[k]));
        assert(is_peek_at(t[k], pid, addr + 8 * k));
        assert(access_agrees(m, t[k]));
        assert(word_bytes(peeked_word(t[k])) == window(m, addr + 8 * k, 8));
        assert(j == 8 * k + j % 8);
    }
    assert(out =~= window(m, addr, c));
}

/// Storing two adjacent runs of bytes is storing their concatenation.
pub proof fn lemma_store_adjacent(m: spec_fn(int) -> u8, addr: int, s1: Seq<u8>, s2: Seq<u8>)
    ensures
        store(store(m, addr, s1), addr + s1.len(), s2) == store(m, addr, s1 + s2),
{
    assert(store(store(m, addr, s1), addr + s1.len(), s2) =~= store(m, addr, s1 + s2));
}

/// How many whole words a write put in place before it stopped.
pub open spec fn full_words_written(src: Seq<u8>, t: Seq<Access>) -> nat {
    if write_failed_early(src, t) {
        (t.len() - 1) as nat
    } else {
        src.len() / 8
    }
}

/// How many leading bytes of `src` a write has stored: all of them when it
/// succeeded, else those of the whole words it put in place.
pub open spec fn bytes_written(src: Seq<u8>, t: Seq<Access>) -> nat {
    if outcome_of(t) is Ok {
        src.len()
    } else {
        8 * full_words_written(src, t)
    }
}

/// After the first `i` whole-word pokes of a write, the first `8 * i`
/// bytes of the source are in place.
proof fn lemma_full_pokes(pid: i32, addr: int, src: Seq<u8>, t: Seq<Access>, m: spec_fn(int) -> u8, i: int)
    requires
        write_trace(pid, addr, src, t),
        0 <= i <= full_words_written(src, t),
    ensures
        memory_after(m, t.take(i)) == store(m, addr, src.subrange(0, 8 * i)),
    decreases i,
{
    if i == 0 {
        assert(t.take(0) =~= Seq::<Access>::empty());
        assert(store(m, addr, src.subrange(0, 0)) =~= m);
    } else {
        lemma_full_pokes(pid, addr, src, t, m, i - 1);
        assert(t.take(i).drop_last() =~= t.take(i - 1));
        assert(t.take(i).last() == t[i - 1]);
        assert(is_poke_of(t[i - 1], pid, addr + 8 * (i - 1), word_at(src, i - 1)));
        assert(access_ok(t[i - 1]));
        lemma_word_bytes_roundtrip();
        let w = src.subrange(8 * (i - 1), 8 * i);
        assert(word_bytes(word_at(src, i - 1)) == w);
        lemma_store_adjacent(m, addr, src.subrange(0, 8 * (i - 1)), w);
        assert(src.subrange(0, 8 * (i - 1)) + w =~= src.subrange(0, 8 * i));
    }
}

/// A write stores the bytes it was given and nothing else: after it, the
/// memory holds the leading `bytes_written` bytes of `src` from `addr`
/// (all of `src` when it succeeded) and every other byte as before. This
/// holds of a last partial word too, whose other bytes keep their values.
pub proof fn lemma_write_stores(pid: i32, addr: int, src: Seq<u8>, t: Seq<Access>, m: spec_fn(int) -> u8)
    requires
        write_trace(pid, addr, src, t),
        agrees(m, t),
    ensures
        memory_after(m, t) == store(m, addr, src.subrange(0, bytes_written(src, t) as int)),
        outcome_of(t) is Ok ==> memory_after(m, t) == store(m, addr, src),
        forall|j: int| !(addr <= j < addr + src.len()) ==> #[trigger] memory_after(m, t)(j) == m(j),
{
    let mw: int = (src.len() / 8) as int;
    let k = full_words_written(src, t);
    lemma_full_pokes(pid, addr, src, t, m, k as int);
    let mk = memory_after(m, t.take(k as int));
    if write_failed_early(src, t) {
        // the failed poke is the last request, and changes nothing
        assert(t.take(k as int) =~= t.drop_last());
        assert(!access_ok(t.last()));
        assert(memory_after(m, t) == mk);
    } else {
        let u = t.skip(mw);
        let tail = tail_of(src);
        assert(t =~= t.take(mw) + u);
        lemma_run_concat(m, t.take(mw), u);
        assert(src.subrange(0, 8 * mw) + tail =~= src);
        if tail.len() == 0 {
            assert(u.len() == 0);
            assert(memory_after(mk, u) == mk);
            assert(src.subrange(0, 8 * mw) =~= src);
        } else {
            let a = addr + 8 * mw;
            assert(is_peek_at(u[0], pid, a));
            assert(seq![u[0]].drop_last() =~= Seq::<Access>::empty());
            if access_ok(u[0]) {
                assert(u.len() == 2);
                assert(u.drop_last() =~= seq![u[0]]);
                assert(agrees(mk, u));
                let one = seq![u[0]];
                assert(memory_after(mk, one.drop_last()) == mk);
                assert(one.last() == u[0]);
                assert(memory_after(mk, one) == mk);
                assert(agrees(mk, one));
                assert(access_agrees(mk, u[0]));
                let w = peeked_word(u[0]);
                assert(word_bytes(w) == window(mk, a, 8));
                lemma_word_bytes_roundtrip();
                let merged = merged_word(w, tail);
                assert(is_poke_of(u[1], pid, a, merged));
                assert((tail + word_bytes(w).subrange(tail.len() as int, 8)).len() == 8);
                assert(word_bytes(merged) == tail + word_bytes(w).subrange(tail.len() as int, 8));
                assert(store(mk, a, word_bytes(merged)) =~= store(mk, a, tail));
                lemma_store_adjacent(m, addr, src.subrange(0, 8 * mw), tail);
                if access_ok(u[1]) {
                    assert(memory_after(mk, u) == store(mk, a, word_bytes(merged)));
                } else {
                    assert(memory_after(mk, u) == mk);
                }
            } else {
                assert(u.len() == 1);
                assert(memory_after(mk, u) == mk);
            }
        }
    }
}

/// A read gives back what a write wrote: after a successful write of
/// `src` at `addr`, a successful read of `src.len()` bytes at `addr`
/// copies exactly `src`, when the requests of both agree with the memory.
pub proof fn lemma_write_then_read(
    pid: i32,
    addr: int,
    src: Seq<u8>,
    tw: Seq<Access>,
    tr: Seq<Access>,
    m: spec_fn(int) -> u8,
)
    requires
        write_trace(pid, addr, src, tw),
        outcome_of(tw) is Ok,
        read_trace(pid, addr, src.len(), tr),
        outcome_of(tr) is Ok,
        agrees(m, tw + tr),
    ensures
        read_bytes(src.len(), tr) == src,
{
    lemma_run_concat(m, tw, tr);
    lemma_write_stores(pid, addr, src, tw, m);
    let m1 = memory_after(m, tw);
    lemma_read_returns_memory(pid, addr, src.len(), tr, m1);
    assert(window(m1, addr, src.len()) =~= src);
}

/// A later write leaves a disjoint range as it was: if the range at `a1`
/// held `s1` after the requests `t0`, it still does after a successful
/// write of `s2` at `a2`, which holds `s2`. Applied once per write, this
/// carries every earlier disjoint write through any number of later ones.
pub proof fn lemma_later_write_keeps(
    pid: i32,
    a1: int,
    s1: Seq<u8>,
    t0: Seq<Access>,
    a2: int,
    s2: Seq<u8>,
    t2: Seq<Access>,
    m: spec_fn(int) -> u8,
)
    requires
        window(memory_after(m, t0), a1, s1.len()) == s1,
        write_trace(pid, a2, s2, t2),
        outcome_of(t2) is Ok,
        a1 + s1.len() <= a2 || a2 + s2.len() <= a1,
        agrees(m, t0 + t2),
    ensures
        window(memory_after(m, t0 + t2), a1, s1.len()) == s1,
        window(memory_after(m, t0 + t2), a2, s2.len()) == s2,
{
    lemma_run_concat(m, t0, t2);
    let m0 = memory_after(m, t0);
    lemma_write_stores(pid, a2, s2, t2, m0);
    assert forall|i: int| 0 <= i < s1.len() implies #[trigger] window(
        memory_after(m, t0 + t2),
        a1,
        s1.len(),
    )[i] == s1[i] by {
        assert(window(m0, a1, s1.len())[i] == s1[i]);
    }
    assert(window(memory_after(m, t0 + t2), a1, s1.len()) =~= s1);
    assert(window(memory_after(m, t0 + t2), a2, s2.len()) =~= s2);
}

/// Writes to disjoint ranges do not clobber each other: after two
/// successful writes, each range holds the bytes written to it.
pub proof fn lemma_disjoint_writes_persist(
    pid: i32,
    a1: int,
    s1: Seq<u8>,
    t1: Seq<Access>,
    a2: int,
    s2: Seq<u8>,
    t2: Seq<Access>,
    m: spec_fn(int) -> u8,
)
    requires
        write_trace(pid, a1, s1, t1),
        outcome_of(t1) is Ok,
        write_trace(pid, a2, s2, t2),
        outcome_of(t2) is Ok,
        a1 + s1.len() <= a2 || a2 + s2.len() <= a1,
        agrees(m, t1 + t2),
    ensures
        window(memory_after(m, t1 + t2), a1, s1.len()) == s1,
        window(memory_after(m, t1 + t2), a2, s2.len()) == s2,
{
    lemma_run_concat(m, t1, t2);
    lemma_write_stores(pid, a1, s1, t1, m);
    assert(window(memory_after(m, t1), a1, s1.len()) =~= s1);
    lemma_later_write_keeps(pid, a1, s1, t1, a2, s2, t2, m);
}

/// Three successful writes to pairwise disjoint ranges, in turn, leave
/// each range holding the bytes written to it.
pub proof fn lemma_three_writes_persist(
    pid: i32,
    a1: int,
    s1: Seq<u8>,
    t1: Seq<Access>,
    a2: int,
    s2: Seq<u8>,
    t2: Seq<Access>,
    a3: int,
    s3: Seq<u8>,
    t3: Seq<Access>,
    m: spec_fn(int) -> u8,
)
    requires
        write_trace(pid, a1, s1, t1),
        outcome_of(t1) is Ok,
        write_trace(pid, a2, s2, t2),
        outcome_of(t2) is Ok,
        write_trace(pid, a3, s3, t3),
        outcome_of(t3) is Ok,
        a1 + s1.len() <= a2 || a2 + s2.len() <= a1,
        a1 + s1.len() <= a3 || a3 + s3.len() <= a1,
        a2 + s2.len() <= a3 || a3 + s3.len() <= a2,
        agrees(m, t1 + t2 + t3),
    ensures
        window(memory_after(m, t1 + t2 + t3), a1, s1.len()) == s1,
        window(memory_after(m, t1 + t2 + t3), a2, s2.len()) == s2,
        window(memory_after(m, t1 + t2 + t3), a3, s3.len()) == s3,
{
    lemma_run_concat(m, t1 + t2, t3);
    lemma_disjoint_writes_persist(pid, a1, s1, t1, a2, s2, t2, m);
    lemma_later_write_keeps(pid, a1, s1, t1 + t2, a3, s3, t3, m);
    lemma_later_write_keeps(pid, a2, s2, t1 + t2, a3, s3, t3, m);
}

/// A request agrees with the general registers `r` of each thread when, if
/// it is a successful read of a thread's registers, it returned that
/// thread's registers in `r`.
pub open spec fn regs_access_agrees(r: spec_fn(i32) -> user_regs_struct, a: Access) -> bool {
    match a {
        Access::GetRegs { lwpid, result: Ok(got) } => got.0 == r(lwpid),
        _ => true,
    }
}

/// The general registers after request `a`: a successful load replaces the
/// registers of its thread.
pub open spec fn regs_apply(r: spec_fn(i32) -> user_regs_struct, a: Access) -> spec_fn(i32) -> user_regs_struct {
    match a {
        Access::SetRegs { lwpid, regs, result: Ok(_) } => |l: i32|
            if l == lwpid {
                regs
            } else {
                r(l)
            },
        _ => r,
    }
}

/// The general registers after the requests `t`, in order.
pub open spec fn regs_after(r: spec_fn(i32) -> user_regs_struct, t: Seq<Access>) -> spec_fn(i32) -> user_regs_struct
    decreases t.len(),
{
    if t.len() == 0 {
        r
    } else {
        regs_apply(regs_after(r, t.drop_last()), t.last())
    }
}

/// Every request of `t` agrees with the general registers that the
/// requests before it leave from `r`.
pub open spec fn regs_agree(r: spec_fn(i32) -> user_regs_struct, t: Seq<Access>) -> bool
    decreases t.len(),
{
    t.len() == 0 || (regs_agree(r, t.drop_last()) && regs_access_agrees(regs_after(r, t.drop_last()), t.last()))
}

/// Unfolds the register models over two single requests run in turn.
proof fn lemma_two_requests(t1: Seq<Access>, t2: Seq<Access>)
    requires
        t1.len() == 1,
        t2.len() == 1,
    ensures
        (t1 + t2).drop_last() == t1,
        (t1 + t2).last() == t2[0],
        t1.drop_last() == Seq::<Access>::empty(),
        t1.last() == t1[0],
{
    assert((t1 + t2).drop_last() =~= t1);
    assert(t1.drop_last() =~= Seq::<Access>::empty());
}

/// Reading registers changes nothing: two successful reads of the general
/// registers of one thread, with nothing between them, give the same
/// registers, whatever handles they are made through.
pub proof fn lemma_getregs_twice(
    lwpid: i32,
    t1: Seq<Access>,
    b0: user_regs_struct,
    b1: user_regs_struct,
    t2: Seq<Access>,
    c0: user_regs_struct,
    c1: user_regs_struct,
    r: spec_fn(i32) -> user_regs_struct,
)
    requires
        getregs_done(t1, lwpid, b0, b1, PsErr::Success),
        getregs_done(t2, lwpid, c0, c1, PsErr::Success),
        regs_agree(r, t1 + t2),
    ensures
        c1 == b1,
        regs_after(r, t1 + t2) == r,
{
    lemma_two_requests(t1, t2);
    assert(regs_after(r, t1.drop_last()) == r);
    assert(regs_agree(r, t1));
}

/// A load of the general registers is what the next read gives back.
pub proof fn lemma_setregs_then_getregs(
    lwpid: i32,
    regs: user_regs_struct,
    t1: Seq<Access>,
    t2: Seq<Access>,
    c0: user_regs_struct,
    c1: user_regs_struct,
    r: spec_fn(i32) -> user_regs_struct,
)
    requires
        setregs_done(t1, lwpid, regs, PsErr::Success),
        getregs_done(t2, lwpid, c0, c1, PsErr::Success),
        regs_agree(r, t1 + t2),
    ensures
        c1 == regs,
{
    lemma_two_requests(t1, t2);
    assert(regs_after(r, t1.drop_last()) == r);
    assert(regs_agree(r, t1));
}

/// Loading the general registers just read leaves every thread's registers
/// as they were.
pub proof fn lemma_getregs_then_setregs(
    lwpid: i32,
    t1: Seq<Access>,
    b0: user_regs_struct,
    b1: user_regs_struct,
    t2: Seq<Access>,
    r: spec_fn(i32) -> user_regs_struct,
)
    requires
        getregs_done(t1, lwpid, b0, b1, PsErr::Success),
        setregs_done(t2, lwpid, b1, PsErr::Success),
        regs_agree(r, t1 + t2),
    ensures
        regs_after(r, t1 + t2) == r,
{
    lemma_two_requests(t1, t2);
    assert(regs_after(r, t1.drop_last()) == r);
    assert(regs_agree(r, t1));
    assert(regs_after(r, t1 + t2) =~= r);
}

/// A successful `ps_lgetregs` for thread `lwpid` gives that thread's
/// registers: its one request names `lwpid`, and the buffer then holds the
/// registers that thread has in any register state the request agrees with.
pub proof fn lemma_getregs_reads_thread(
    lwpid: i32,
    t: Seq<Access>,
    b0: user_regs_struct,
    b1: user_regs_struct,
    r: spec_fn(i32) -> user_regs_struct,
)
    requires
        getregs_done(t, lwpid, b0, b1, PsErr::Success),
        regs_agree(r, t),
    ensures
        t[0] matches Access::GetRegs { lwpid: l, .. } && l == lwpid,
        b1 == r(lwpid),
        regs_after(r, t) == r,
{
    assert(t.drop_last() =~= Seq::<Access>::empty());
    assert(regs_after(r, t.drop_last()) == r);
    assert(t.last() == t[0]);
}

/// A successful `ps_lsetregs` for thread `lwpid` loads the given registers
/// into that thread and no other: afterwards `lwpid` holds `regs` and every
/// other thread keeps its registers.
pub proof fn lemma_setregs_loads_thread(
    lwpid: i32,
    regs: user_regs_struct,
    t: Seq<Access>,
    r: spec_fn(i32) -> user_regs_struct,
)
    requires
        setregs_done(t, lwpid, regs, PsErr::Success),
    ensures
        t[0] matches Access::SetRegs { lwpid: l, .. } && l == lwpid,
        regs_after(r, t)(lwpid) == regs,
        forall|l: i32| l != lwpid ==> #[trigger] regs_after(r, t)(l) == r(l),
{
    assert(t.drop_last() =~= Seq::<Access>::empty());
    assert(regs_after(r, t.drop_last()) == r);
    assert(t.last() == t[0]);
}

} // verus!
