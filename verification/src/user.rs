//! The user-level library: the calls a program makes, each delegating to the
//! kernel's syscall surface.  The kernel state is an explicit parameter; the
//! polling calls (`wait`, `waitpid`, `sleep`) yield the processor between
//! attempts instead of blocking, as the core prescribes.

use vstd::prelude::*;
use crate::kernel::{Kernel, close_rel, dup_rel, read_rel, write_rel, open_rel, pipe_rel,
    fstat_rel, linkat_rel, unlinkat_rel, fork_rel, exec_rel, spawn_rel, exit_rel, waitpid_rel,
    set_priority_rel, mmap_rel, munmap_rel, yield_rel, eq_mod_time, read_src,
    FD_LIMIT, PID_LIMIT};
use crate::mem::{read_user_bytes, transfer_ok};
use crate::vfs::NAME_LIMIT;
use crate::flags::{PTE_U, PTE_V};

verus! {

/// Duplicates a descriptor onto the lowest free slot.
pub fn dup(k: &mut Kernel, fd: usize) -> (r: isize)
    requires
        old(k).wf(),
        old(k).has_current(),
        old(k).fdt().len() < FD_LIMIT,
    ensures
        final(k).wf(),
        dup_rel(*old(k), *final(k), fd, r),
{
    k.sys_dup(fd)
}

/// Removes a path from the filesystem.
pub fn unlink(k: &mut Kernel, path: &Vec<u8>) -> (r: isize)
    requires
        old(k).wf(),
        old(k).has_current(),
    ensures
        final(k).wf(),
        unlinkat_rel(*old(k), *final(k), path@, r),
{
    k.sys_unlinkat(path)
}

/// Adds a second path for an existing file.
pub fn link(k: &mut Kernel, oldpath: &Vec<u8>, newpath: &Vec<u8>) -> (r: isize)
    requires
        old(k).wf(),
        old(k).has_current(),
        old(k).fs.names@.len() < NAME_LIMIT,
    ensures
        final(k).wf(),
        linkat_rel(*old(k), *final(k), oldpath@, newpath@, r),
{
    k.sys_linkat(oldpath, newpath)
}

/// Opens a path under the given flags and returns the new descriptor.
pub fn open(k: &mut Kernel, path: &Vec<u8>, flags: u32) -> (r: isize)
    requires
        old(k).wf(),
        old(k).has_current(),
        old(k).fdt().len() < FD_LIMIT,
        old(k).fs.names@.len() < NAME_LIMIT,
    ensures
        final(k).wf(),
        open_rel(*old(k), *final(k), path@, flags, r),
{
    k.sys_open(path, flags)
}

/// Reads from a descriptor into the calling process's memory.
pub fn read(k: &mut Kernel, fd: usize, buf: usize, len: usize) -> (r: isize)
    requires
        old(k).wf(),
        old(k).has_current(),
        len <= 0x3FFF_FFFF,
    ensures
        final(k).wf(),
        read_rel(*old(k), *final(k), fd, buf, len, r),
{
    k.sys_read(fd, buf, len)
}

/// Writes from the calling process's memory to a descriptor.
pub fn write(k: &mut Kernel, fd: usize, buf: usize, len: usize) -> (r: isize)
    requires
        old(k).wf(),
        old(k).has_current(),
        len <= 0x3FFF_FFFF,
    ensures
        final(k).wf(),
        write_rel(*old(k), *final(k), fd, buf, len, r),
{
    k.sys_write(fd, buf, len)
}

/// Writes a descriptor's stat record to the calling process's memory.
pub fn fstat(k: &mut Kernel, fd: usize, st_ptr: usize) -> (r: isize)
    requires
        old(k).wf(),
        old(k).has_current(),
    ensures
        final(k).wf(),
        fstat_rel(*old(k), *final(k), fd, st_ptr, r),
{
    k.sys_fstat(fd, st_ptr)
}

/// Terminates the calling process with the given exit code.
pub fn exit(k: &mut Kernel, exit_code: i32)
    requires
        old(k).wf(),
        old(k).has_current(),
        old(k).cur() != old(k).init_pid,
    ensures
        final(k).wf(),
        exit_rel(*old(k), *final(k), exit_code),
{
    k.sys_exit(exit_code)
}

/// Gives the processor up for one reschedule.
pub fn yield_(k: &mut Kernel) -> (r: isize)
    requires
        old(k).wf(),
    ensures
        final(k).wf(),
        yield_rel(*old(k), *final(k), r),
{
    k.sys_yield()
}

/// Milliseconds since boot.
pub fn get_time(k: &Kernel) -> (r: isize)
    requires
        k.wf(),
    ensures
        r == k.time_ms,
{
    k.sys_get_time()
}

/// The calling process's pid.
pub fn getpid(k: &Kernel) -> (r: isize)
    requires
        k.wf(),
        k.has_current(),
    ensures
        r == k.cur(),
{
    k.sys_getpid()
}

/// Duplicates the calling process; the child's pid comes back.
pub fn fork(k: &mut Kernel) -> (r: isize)
    requires
        old(k).wf(),
        old(k).has_current(),
        old(k).procs@.len() < PID_LIMIT,
    ensures
        final(k).wf(),
        fork_rel(*old(k), *final(k), r),
{
    k.sys_fork()
}

/// Replaces the calling process's image with a named one.
pub fn exec(k: &mut Kernel, path: &Vec<u8>) -> (r: isize)
    requires
        old(k).wf(),
        old(k).has_current(),
    ensures
        final(k).wf(),
        exec_rel(*old(k), *final(k), path@, r),
{
    k.sys_exec(path)
}

/// Sets the calling process's scheduling priority.
pub fn set_priority(k: &mut Kernel, priority: isize) -> (r: isize)
    requires
        old(k).wf(),
        old(k).has_current(),
    ensures
        final(k).wf(),
        set_priority_rel(*old(k), *final(k), priority, r),
{
    k.sys_set_priority(priority)
}

/// Starts a brand-new process from a named image.
pub fn spawn(k: &mut Kernel, path: &Vec<u8>) -> (r: isize)
    requires
        old(k).wf(),
        old(k).has_current(),
        old(k).procs@.len() < PID_LIMIT,
    ensures
        final(k).wf(),
        spawn_rel(*old(k), *final(k), path@, r),
{
    k.sys_spawn(path)
}

/// Maps a fresh page-aligned range into the calling process's memory.
pub fn mmap(k: &mut Kernel, start: usize, len: usize, prot: usize) -> (r: isize)
    requires
        old(k).wf(),
        old(k).has_current(),
    ensures
        final(k).wf(),
        r == 0 || r == -1,
        mmap_rel(*old(k), *final(k), start, len, prot, if r == 0 { 0i32 } else { -1i32 }),
{
    let r = k.sys_mmap(start, len, prot);
    if r == 0 { 0 } else { -1 }
}

/// Unmaps a fully mapped page-aligned range.
pub fn munmap(k: &mut Kernel, start: usize, len: usize) -> (r: isize)
    requires
        old(k).wf(),
        old(k).has_current(),
    ensures
        final(k).wf(),
        r == 0 || r == -1,
        munmap_rel(*old(k), *final(k), start, len, if r == 0 { 0i32 } else { -1i32 }),
{
    let r = k.sys_munmap(start, len);
    if r == 0 { 0 } else { -1 }
}

/// Reaps any child: polls, yielding the processor after every -2, until the
/// answer is a pid or -1.  Between polls only the model's clock moves, so
/// the poll is abandoned, still answering -2, in the rare case that the
/// clock saturates before a matching child exits.
pub fn wait(k: &mut Kernel, exit_code_ptr: usize) -> (r: isize)
    requires
        old(k).wf(),
        old(k).has_current(),
    ensures
        final(k).wf(),
        exists|mid: Kernel| eq_mod_time(*old(k), mid) && #[trigger] waitpid_rel(mid, *final(k), -1, exit_code_ptr, r),
{
    loop
        invariant
            k.wf(),
            k.has_current(),
            eq_mod_time(*old(k), *k),
        decreases crate::kernel::TIME_CAP - k.time_ms,
    {
        let ghost mid = *k;
        let r = k.sys_waitpid(-1, exit_code_ptr);
        if r != -2 {
            proof {
                assert(eq_mod_time(*old(k), mid));
                assert(waitpid_rel(mid, *k, -1, exit_code_ptr, r));
            }
            return r;
        }
        proof {
            assert(*k == mid);
        }
        if k.sys_get_time() >= crate::kernel::TIME_CAP as isize {
            proof {
                assert(waitpid_rel(mid, *k, -1, exit_code_ptr, r));
            }
            return r;
        }
        k.sys_yield();
    }
}

/// Reaps the child with the given pid: polls, yielding after every -2.
pub fn waitpid(k: &mut Kernel, pid: usize, exit_code_ptr: usize) -> (r: isize)
    requires
        old(k).wf(),
        old(k).has_current(),
        pid <= PID_LIMIT,
    ensures
        final(k).wf(),
        exists|mid: Kernel| eq_mod_time(*old(k), mid) && #[trigger] waitpid_rel(mid, *final(k), pid as int, exit_code_ptr, r),
{
    loop
        invariant
            k.wf(),
            k.has_current(),
            pid <= PID_LIMIT,
            eq_mod_time(*old(k), *k),
        decreases crate::kernel::TIME_CAP - k.time_ms,
    {
        let ghost mid = *k;
        let r = k.sys_waitpid(pid as isize, exit_code_ptr);
        if r != -2 {
            proof {
                assert(eq_mod_time(*old(k), mid));
                assert(waitpid_rel(mid, *k, pid as int, exit_code_ptr, r));
            }
            return r;
        }
        proof {
            assert(*k == mid);
        }
        if k.sys_get_time() >= crate::kernel::TIME_CAP as isize {
            proof {
                assert(waitpid_rel(mid, *k, pid as int, exit_code_ptr, r));
            }
            return r;
        }
        k.sys_yield();
    }
}

/// Reads one byte from standard input through the buffer at `buf_ptr` in
/// the calling process's memory; 0 when nothing was read or the buffer
/// cannot be read back.
pub fn getchar(k: &mut Kernel, buf_ptr: usize) -> (b: u8)
    requires
        old(k).wf(),
        old(k).has_current(),
    ensures
        final(k).wf(),
        exists|rr: isize| #[trigger] read_rel(*old(k), *final(k), 0, buf_ptr, 1, rr),
        (old(k).fd_ok(0) && old(k).fd_obj(0).readable
            && transfer_ok(old(k).cur_pcb().mem, buf_ptr as int, 1,
                crate::kernel::read_perm())
            && read_src(*old(k), 0).len() > 0)
            ==> b == read_src(*old(k), 0)[0],
{
    let r = k.sys_read(0, buf_ptr, 1);
    let c = k.sys_getpid();
    proof {
        assert(read_rel(*old(k), *k, 0, buf_ptr, 1, r));
        assert(k.pcb_ok(k.cur()));
        let pre = *old(k);
        if pre.fd_ok(0) && pre.fd_obj(0).readable
            && transfer_ok(pre.cur_pcb().mem, buf_ptr as int, 1, crate::kernel::read_perm())
            && read_src(pre, 0).len() > 0 {
            assert(pre.pcb_ok(pre.cur()));
            let m0 = pre.cur_pcb().mem;
            let m1 = k.pcb(pre.cur()).mem;
            crate::mem::lemma_same_structure(m0, m1);
            assert(transfer_ok(m1, buf_ptr as int, 1, crate::kernel::read_perm())) by {
                assert forall|vpn: int|
                    buf_ptr as int / (crate::mem::PAGE_SIZE as int) <= vpn
                        <= (buf_ptr as int + 1 - 1) / (crate::mem::PAGE_SIZE as int)
                    implies #[trigger] crate::mem::vpn_ok(m1, vpn, crate::kernel::read_perm()) by {
                    assert(crate::mem::vpn_ok(m0, vpn, crate::kernel::read_perm()));
                }
            }
        }
    }
    let peeked = match &k.procs[c as usize] {
        Some(pcb) => read_user_bytes(&pcb.mem, buf_ptr, 1,
            crate::flags::PTE_W | PTE_U | PTE_V),
        None => None,
    };
    match peeked {
        Some(v) => {
            if v.len() == 1 {
                v[0]
            } else {
                0
            }
        },
        None => 0,
    }
}

/// Polls the clock, yielding, until at least `period_ms` milliseconds have
/// passed since the call began.
pub fn sleep(k: &mut Kernel, period_ms: usize)
    requires
        old(k).wf(),
        period_ms <= 0x3FFF_FFFF,
    ensures
        final(k).wf(),
        eq_mod_time(*old(k), *final(k)),
        final(k).time_ms >= old(k).time_ms + period_ms
            || final(k).time_ms == crate::kernel::TIME_CAP,
{
    let start = k.sys_get_time();
    loop
        invariant
            k.wf(),
            period_ms <= 0x3FFF_FFFF,
            start == old(k).time_ms,
            eq_mod_time(*old(k), *k),
        decreases crate::kernel::TIME_CAP - k.time_ms,
    {
        let now = k.sys_get_time();
        if now >= start + period_ms as isize {
            return;
        }
        if now >= crate::kernel::TIME_CAP as isize {
            return;
        }
        k.sys_yield();
    }
}

/// Creates a pipe; the two descriptor numbers land in the two-word buffer
/// at `pipe_fd_ptr` in the calling process's memory.
pub fn pipe(k: &mut Kernel, pipe_fd_ptr: usize) -> (r: isize)
    requires
        old(k).wf(),
        old(k).has_current(),
        old(k).fdt().len() + 1 < FD_LIMIT,
    ensures
        final(k).wf(),
        pipe_rel(*old(k), *final(k), pipe_fd_ptr, r),
{
    k.sys_pipe(pipe_fd_ptr)
}

/// Closes a descriptor.
pub fn close(k: &mut Kernel, fd: usize) -> (r: isize)
    requires
        old(k).wf(),
        old(k).has_current(),
    ensures
        final(k).wf(),
        close_rel(*old(k), *final(k), fd, r),
{
    k.sys_close(fd)
}

} // verus!
