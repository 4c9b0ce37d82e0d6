//! Laws of the core, proved from the syscall relations alone: what closing,
//! duplicating, forking and linking guarantee across calls.

use vstd::prelude::*;
use crate::kernel::{Kernel, FdEntry, close_rel, dup_rel, read_rel, write_rel, open_rel,
    linkat_rel, fork_rel, switched, lowest_free, fdt_after_alloc, lemma_find_free_props,
    open_flags_ok, waitpid_rel, has_match, pid_matches, first_zombie_at, first_zombie_match};
use crate::flags::OPEN_CREATE;
use crate::vfs::{name_lookup, nlink_of, lemma_find_props, lemma_find_skip, find_name_at};
use crate::mem::{is_mapped, vpn_ok, range_ok, transfer_ok, PAGE_SIZE};

verus! {

/// A closed descriptor admits no further input or output: after a close
/// that returned 0, every read and every write through that descriptor
/// returns -1 and changes nothing.
pub proof fn closed_descriptor_rejects_io(pre: Kernel, mid: Kernel, fd: usize)
    requires
        pre.wf(),
        pre.has_current(),
        close_rel(pre, mid, fd, 0),
    ensures
        !mid.fd_ok(fd as int),
        forall|post: Kernel, buf: usize, len: usize, r: isize|
            #[trigger] read_rel(mid, post, fd, buf, len, r) ==> r == -1 && post == mid,
        forall|post: Kernel, buf: usize, len: usize, r: isize|
            #[trigger] write_rel(mid, post, fd, buf, len, r) ==> r == -1 && post == mid,
{
    assert(pre.fd_ok(fd as int));
    assert(mid.current == pre.current);
    assert(mid.pcb(pre.cur()).fd_table@ == pre.fdt().update(fd as int, None::<FdEntry>));
    assert(mid.fdt()[fd as int] is None);
}

/// A duplicate outlives the original: after dup and a close of the original
/// descriptor, the duplicate still names the very same entry — the same
/// object, the same backing identifier — and the object's state (its
/// buffered bytes, file contents, offsets) is exactly as before.
pub proof fn duplicate_survives_close(k0: Kernel, k1: Kernel, k2: Kernel, fd: usize, rd: isize)
    requires
        k0.wf(),
        k0.has_current(),
        k0.fd_ok(fd as int),
        dup_rel(k0, k1, fd, rd),
        close_rel(k1, k2, fd, 0),
    ensures
        rd == lowest_free(k0.fdt()),
        k2.fd_ok(rd as int),
        k2.fd_entry(rd as int) == k0.fd_entry(fd as int),
        k2.objects@ == k0.objects@,
        k2.pipes@ == k0.pipes@,
        k2.fs == k0.fs,
        k2.stdin_data@ == k0.stdin_data@,
{
    assert(k0.pcb_ok(k0.cur()));
    lemma_find_free_props(k0.fdt(), 0);
    let lf = lowest_free(k0.fdt());
    assert(0 <= lf <= k0.fdt().len());
    assert(lf != fd as int);
    assert(k1.current == k0.current);
    assert(k1.pcb(k0.cur()).fd_table@ == fdt_after_alloc(k0.fdt(), k0.fd_entry(fd as int)));
    assert(k1.fdt()[lf] == Some(k0.fd_entry(fd as int)));
    assert(k1.fd_ok(fd as int));
    assert(k2.current == k1.current);
    assert(k2.pcb(k1.cur()).fd_table@ == k1.fdt().update(fd as int, None::<FdEntry>));
    assert(k2.fdt()[lf] == Some(k0.fd_entry(fd as int)));
}

/// Table-level independence after fork: the child's descriptor table starts
/// as a slot-for-slot copy sharing the parent's objects, and closing a
/// descriptor in the child clears only the child's slot — the parent's table
/// and every shared object, with whatever data was already written through
/// it, stay exactly as they were.
pub proof fn fork_tables_are_independent(k0: Kernel, k1: Kernel, k2: Kernel, k3: Kernel, fd: usize, rc: isize)
    requires
        k0.wf(),
        k0.has_current(),
        k0.fd_ok(fd as int),
        fork_rel(k0, k1, rc),
        switched(k1, k2, k0.procs@.len() as usize),
        close_rel(k2, k3, fd, 0),
    ensures
        // the fresh child's slot named the same entry as the parent's
        k1.pcb(k0.procs@.len() as int).fd_table@[fd as int] == k0.fdt()[fd as int],
        // after the child's close, the child's slot is empty
        k3.procs@[k0.procs@.len() as int] is Some,
        k3.pcb(k0.procs@.len() as int).fd_table@[fd as int] is None,
        // but the parent's slot and everything shared are untouched
        k3.procs@[k0.cur()] is Some,
        k3.pcb(k0.cur()).fd_table@ == k0.fdt(),
        k3.pcb(k0.cur()).fd_table@[fd as int] == k0.fdt()[fd as int],
        k3.objects@ == k0.objects@,
        k3.pipes@ == k0.pipes@,
        k3.fs == k0.fs,
{
    let child = k0.procs@.len() as int;
    let parent = k0.cur();
    assert(k1.pcb(child).fd_table@ == k0.fdt());
    assert(k2.procs@ == k1.procs@);
    assert(k2.cur() == child);
    assert(k2.fdt() == k0.fdt());
    assert(k2.fd_ok(fd as int));
    assert(k3.pcb(child).fd_table@ == k2.fdt().update(fd as int, None::<FdEntry>));
    assert(parent != child);
    assert(k3.procs@[parent] == k2.procs@[parent]);
    assert(k2.procs@[parent] == k1.procs@[parent]);
    assert(k1.pcb(parent).fd_table == k0.cur_pcb().fd_table);
}

/// Hard-link counting across creation and linking: a freshly created file
/// has exactly one link, and a successful link raises its inode's count to
/// exactly two, which is what the stat record then reports for either path.
pub proof fn fresh_file_then_link_counts(
    k0: Kernel, k1: Kernel, k2: Kernel,
    path: Seq<u8>, path2: Seq<u8>, flags: u32, rf: isize, rl: isize,
)
    requires
        k0.wf(),
        k0.has_current(),
        open_flags_ok(flags),
        flags & OPEN_CREATE != 0,
        name_lookup(k0.fs, path) == -1,
        open_rel(k0, k1, path, flags, rf),
        linkat_rel(k1, k2, path, path2, rl),
        rl == 0,
    ensures
        nlink_of(k1.fs, k0.fs.inodes@.len() as int) == 1,
        nlink_of(k2.fs, k0.fs.inodes@.len() as int) == 2,
{
    let ino = k0.fs.inodes@.len() as int;
    assert(nlink_of(k1.fs, ino) == 1);
    // in the filesystem after creation, the path resolves to the new inode
    let n0 = k0.fs.names@.len() as int;
    lemma_find_props(k0.fs.names@, path, 0);
    assert forall|j: int| 0 <= j < n0 implies (#[trigger] k1.fs.names@[j]).path@ != path by {
        assert(k1.fs.names@[j] == k0.fs.names@[j]);
    }
    lemma_find_skip(k1.fs.names@, path, n0);
    assert(find_name_at(k1.fs.names@, path, n0) == n0);
    assert(name_lookup(k1.fs, path) == n0);
    assert(k1.fs.names@[n0].inode as int == ino);
    assert(nlink_of(k2.fs, ino) == nlink_of(k1.fs, ino) + 1);
}

/// A live, not-yet-exited only child makes every wait-for-any-child call
/// answer "not ready": -2, with nothing changed, until that child exits.
pub proof fn lone_live_child_is_not_ready(pre: Kernel)
    requires
        pre.wf(),
        pre.has_current(),
        pre.cur_pcb().children@.len() == 1,
        !pre.pcb(pre.cur_pcb().children@[0] as int).zombie,
    ensures
        forall|post: Kernel, ptr: usize, r: isize|
            #[trigger] waitpid_rel(pre, post, -1, ptr, r) ==> r == -2 && post == pre,
{
    let kids = pre.cur_pcb().children@;
    assert(pid_matches(kids[0], -1));
    assert(has_match(kids, -1));
    assert(first_zombie_at(pre, kids, -1, 1) == -1);
    assert(first_zombie_match(pre, -1) == -1);
}

/// A pid that is not among the caller's children makes waitpid answer -1,
/// whatever the state of the children it does have.
pub proof fn waitpid_for_stranger_fails(pre: Kernel, pid: int)
    requires
        pre.wf(),
        pre.has_current(),
        pid >= 0,
        forall|m: int| 0 <= m < pre.cur_pcb().children@.len()
            ==> (#[trigger] pre.cur_pcb().children@[m]) as int != pid,
    ensures
        forall|post: Kernel, ptr: usize, r: isize|
            #[trigger] waitpid_rel(pre, post, pid, ptr, r) ==> r == -1 && post == pre,
{
    let kids = pre.cur_pcb().children@;
    assert(!has_match(kids, pid)) by {
        if has_match(kids, pid) {
            let m = choose|m: int| 0 <= m < kids.len() && pid_matches(#[trigger] kids[m], pid);
            assert(kids[m] as int != pid);
        }
    }
}

/// Linking a path to itself fails, and the whole kernel — the filesystem
/// collaborator included — is exactly as it was.
pub proof fn self_link_is_refused(pre: Kernel, p: Seq<u8>)
    requires
        pre.wf(),
        pre.has_current(),
    ensures
        forall|post: Kernel, r: isize|
            #[trigger] linkat_rel(pre, post, p, p, r) ==> r == -1 && post == pre,
{
}

/// A transfer whose byte range touches an unmapped page anywhere within it
/// makes the read or write syscall fail whole: -1, and no partial transfer.
pub proof fn unmapped_page_fails_transfer(pre: Kernel, fd: usize, buf: usize, len: usize, vpn: int)
    requires
        pre.wf(),
        pre.has_current(),
        len > 0,
        buf as int / (PAGE_SIZE as int) <= vpn <= (buf + len - 1) / (PAGE_SIZE as int),
        !is_mapped(pre.cur_pcb().mem, vpn),
    ensures
        forall|post: Kernel, r: isize|
            #[trigger] read_rel(pre, post, fd, buf, len, r) ==> r == -1 && post == pre,
        forall|post: Kernel, r: isize|
            #[trigger] write_rel(pre, post, fd, buf, len, r) ==> r == -1 && post == pre,
{
    assert(!vpn_ok(pre.cur_pcb().mem, vpn, crate::kernel::read_perm()));
    assert(!vpn_ok(pre.cur_pcb().mem, vpn, crate::kernel::write_perm()));
    assert(!range_ok(pre.cur_pcb().mem, buf as int, len as int, crate::kernel::read_perm()));
    assert(!range_ok(pre.cur_pcb().mem, buf as int, len as int, crate::kernel::write_perm()));
    assert(!transfer_ok(pre.cur_pcb().mem, buf as int, len as int, crate::kernel::read_perm()));
    assert(!transfer_ok(pre.cur_pcb().mem, buf as int, len as int, crate::kernel::write_perm()));
}

} // verus!
