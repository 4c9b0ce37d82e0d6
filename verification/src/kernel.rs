//! The kernel core: process control blocks and the process tree, file-like
//! objects shared between descriptor tables, pipes, the scheduler's ready
//! queue, the clock, and the syscall surface.  All process-wide mutable
//! state is held explicitly in one `Kernel` value; the per-process lock of a
//! concurrent kernel is represented here by exclusive access through `&mut`.

use vstd::prelude::*;
use crate::mem::{MemorySet, ms_wf, transfer_ok, user_bytes, byte_at, mem_unchanged_outside,
    read_user_bytes, write_user_bytes, check_range, pages_preserved_except, PAGE_SIZE,
    mmap_ok, munmap_ok, prot_to_flags, is_mapped, page_index, vpn_ok, page_flags};
use crate::vfs::{Fs, fs_wf, name_lookup, nlink_of, splice_bytes, bytes_eq, NAME_LIMIT};
use crate::flags::{PTE_V, PTE_R, PTE_W, PTE_U, OPEN_WRONLY, OPEN_RDWR, OPEN_CREATE, OPEN_TRUNC};

verus! {

/// Most processes the model will hold; keeps pids inside `isize`.
pub const PID_LIMIT: usize = 0x7FFF;

/// Most slots a descriptor table will hold; keeps descriptors inside `isize`.
pub const FD_LIMIT: usize = 0x7FFF;

/// The clock saturates here; keeps times inside `isize`.
pub const TIME_CAP: u64 = 0x3FFF_FFFF;

/// Backing identifier of objects with no filesystem identity (pipes, the
/// console endpoints).
pub const ANON_BACKING: usize = usize::MAX;

/// One slot of a descriptor table: which object it names and the backing
/// identifier reported by the stat syscall.
#[derive(Clone, Copy, PartialEq, Eq, Structural)]
pub struct FdEntry {
    /// Index of the object in the kernel's object table.
    pub obj: usize,
    /// Filesystem inode number, or `ANON_BACKING` for anonymous objects.
    pub backing: usize,
}

/// What a file-like object is.
#[derive(Clone, Copy, PartialEq, Eq, Structural)]
pub enum ObjKind {
    /// The console input endpoint.
    Stdin,
    /// The console output endpoint.
    Stdout,
    /// An open regular file: its inode and the current read/write offset.
    File { inode: usize, offset: usize },
    /// The read end of a pipe.
    PipeRead { pipe: usize },
    /// The write end of a pipe.
    PipeWrite { pipe: usize },
}

/// A shareable file-like object: capabilities plus its identity.
#[derive(Clone, Copy, PartialEq, Eq, Structural)]
pub struct FileObject {
    /// Whether reading through this object is permitted.
    pub readable: bool,
    /// Whether writing through this object is permitted.
    pub writable: bool,
    /// What the object is.
    pub kind: ObjKind,
}

/// The saved trap context: the syscall-return register and the program
/// counter the process resumes at.
#[derive(Clone, Copy, PartialEq, Eq, Structural)]
pub struct TrapContext {
    /// Register a0, where a syscall's return value is delivered.
    pub x10: usize,
    /// The resume program counter.
    pub sepc: usize,
}

/// One pipe's buffered bytes.
pub struct Pipe {
    /// Bytes written but not yet read, oldest first.
    pub data: Vec<u8>,
}

/// A loadable program image known to the loader collaborator.
pub struct Program {
    /// The image's name, as path bytes.
    pub name: Vec<u8>,
    /// Entry point of the image.
    pub entry: usize,
}

/// A process control block.
pub struct Pcb {
    /// The process id; equals the slot index and never changes.
    pub pid: usize,
    /// Lookup-only back reference to the parent, if any.
    pub parent: Option<usize>,
    /// Owned, ordered list of children's pids.
    pub children: Vec<usize>,
    /// Terminal run state: true once the process has exited.
    pub zombie: bool,
    /// Exit code; meaningful only once `zombie` is set.
    pub exit_code: i32,
    /// The descriptor table; slots share objects, never the table.
    pub fd_table: Vec<Option<FdEntry>>,
    /// The owned address space.
    pub mem: MemorySet,
    /// The saved trap context.
    pub trap: TrapContext,
    /// Scheduling priority.
    pub priority: isize,
}

/// The whole kernel state.
pub struct Kernel {
    /// The pid table; a reaped process leaves `None` behind and its pid is
    /// not reused.
    pub procs: Vec<Option<Pcb>>,
    /// All file-like objects ever created; descriptor slots name them by
    /// index, and two slots naming the same index share the object.
    pub objects: Vec<FileObject>,
    /// All pipe buffers ever created.
    pub pipes: Vec<Pipe>,
    /// The filesystem collaborator's model state.
    pub fs: Fs,
    /// The loader collaborator's table of program images.
    pub programs: Vec<Program>,
    /// The running process, if any.
    pub current: Option<usize>,
    /// The scheduler's ready queue.
    pub ready: Vec<usize>,
    /// The designated long-lived ancestor that inherits orphans.
    pub init_pid: usize,
    /// Milliseconds since boot.
    pub time_ms: u64,
    /// Console input not yet consumed.
    pub stdin_data: Vec<u8>,
    /// Console output so far.
    pub stdout_data: Vec<u8>,
}

impl Kernel {
    /// The process in slot `p` exists.
    pub open spec fn live(self, p: int) -> bool {
        0 <= p < self.procs@.len() && self.procs@[p] is Some
    }

    /// The process control block in slot `p`.
    pub open spec fn pcb(self, p: int) -> Pcb {
        self.procs@[p]->0
    }

    /// Some process is running.
    pub open spec fn has_current(self) -> bool {
        self.current is Some
    }

    /// The running process's pid.
    pub open spec fn cur(self) -> int {
        self.current->0 as int
    }

    /// The running process's control block.
    pub open spec fn cur_pcb(self) -> Pcb {
        self.pcb(self.cur())
    }

    /// The running process's descriptor table.
    pub open spec fn fdt(self) -> Seq<Option<FdEntry>> {
        self.cur_pcb().fd_table@
    }

    /// Descriptor `fd` is in range and its slot is occupied.
    pub open spec fn fd_ok(self, fd: int) -> bool {
        0 <= fd < self.fdt().len() && self.fdt()[fd] is Some
    }

    /// The entry behind descriptor `fd`.
    pub open spec fn fd_entry(self, fd: int) -> FdEntry {
        self.fdt()[fd]->0
    }

    /// The object behind descriptor `fd`.
    pub open spec fn fd_obj(self, fd: int) -> FileObject {
        self.objects@[self.fd_entry(fd).obj as int]
    }

    /// `c` is in `p`'s child list.
    pub open spec fn is_child_of(self, c: usize, p: int) -> bool {
        self.live(p) && self.pcb(p).children@.contains(c)
    }

    /// Per-process well-formedness: the pid matches the slot, descriptor
    /// entries name existing objects, the address space is well formed, and
    /// the child list holds distinct, live, non-self, non-init pids.
    pub open spec fn pcb_ok(self, p: int) -> bool {
        let pcb = self.pcb(p);
        &&& pcb.pid == p
        &&& pcb.fd_table@.len() <= FD_LIMIT
        &&& forall|f: int| 0 <= f < pcb.fd_table@.len() && pcb.fd_table@[f] is Some
            ==> (#[trigger] pcb.fd_table@[f])->0.obj < self.objects@.len()
        &&& ms_wf(pcb.mem)
        &&& forall|k: int| 0 <= k < pcb.children@.len() ==> {
            let c = #[trigger] pcb.children@[k] as int;
            &&& 0 <= c < self.procs@.len()
            &&& self.procs@[c] is Some
            &&& c != p
            &&& c != self.init_pid
        }
        &&& forall|k1: int, k2: int|
            #![trigger pcb.children@[k1], pcb.children@[k2]]
            0 <= k1 < k2 < pcb.children@.len() ==> pcb.children@[k1] != pcb.children@[k2]
    }

    /// One object's internal consistency: its kind matches its capabilities
    /// and it points at an existing inode or pipe.
    pub open spec fn obj_ok(self, o: FileObject) -> bool {
        match o.kind {
            ObjKind::Stdin => o.readable && !o.writable,
            ObjKind::Stdout => !o.readable && o.writable,
            ObjKind::File { inode, offset } => inode < self.fs.inodes@.len(),
            ObjKind::PipeRead { pipe } => pipe < self.pipes@.len() && o.readable && !o.writable,
            ObjKind::PipeWrite { pipe } => pipe < self.pipes@.len() && !o.readable && o.writable,
        }
    }

    /// Well-formedness of the whole kernel state.
    pub open spec fn wf(self) -> bool {
        &&& self.procs@.len() <= PID_LIMIT
        &&& forall|p: int| self.live(p) ==> #[trigger] self.pcb_ok(p)
        &&& forall|c: usize, p1: int, p2: int|
            #![trigger self.is_child_of(c, p1), self.is_child_of(c, p2)]
            self.is_child_of(c, p1) && self.is_child_of(c, p2) ==> p1 == p2
        &&& (self.has_current() ==> self.live(self.cur()) && !self.cur_pcb().zombie)
        &&& forall|k: int| 0 <= k < self.ready@.len() ==> {
            let q = #[trigger] self.ready@[k] as int;
            &&& self.live(q)
            &&& !self.pcb(q).zombie
            &&& (self.has_current() ==> q != self.cur())
        }
        &&& forall|k1: int, k2: int|
            #![trigger self.ready@[k1], self.ready@[k2]]
            0 <= k1 < k2 < self.ready@.len() ==> self.ready@[k1] != self.ready@[k2]
        &&& self.live(self.init_pid as int)
        &&& self.pcb(self.init_pid as int).parent is None
        &&& !self.pcb(self.init_pid as int).zombie
        &&& forall|o: int| 0 <= o < self.objects@.len() ==> self.obj_ok(#[trigger] self.objects@[o])
        &&& fs_wf(self.fs)
        &&& self.time_ms <= TIME_CAP
    }
}

/// The process table is unchanged except possibly slot `p`.
pub open spec fn procs_unchanged_except(pre: Kernel, post: Kernel, p: int) -> bool {
    &&& post.procs@.len() == pre.procs@.len()
    &&& forall|j: int| 0 <= j < pre.procs@.len() && j != p ==> post.procs@[j] == pre.procs@[j]
}

/// Everything outside the process table is unchanged.
pub open spec fn world_unchanged(pre: Kernel, post: Kernel) -> bool {
    &&& post.objects@ == pre.objects@
    &&& post.pipes@ == pre.pipes@
    &&& post.fs == pre.fs
    &&& post.programs@ == pre.programs@
    &&& post.current == pre.current
    &&& post.ready@ == pre.ready@
    &&& post.init_pid == pre.init_pid
    &&& post.time_ms == pre.time_ms
    &&& post.stdin_data@ == pre.stdin_data@
    &&& post.stdout_data@ == pre.stdout_data@
}

/// Well-formedness only looks at the process table, objects, pipes, the
/// filesystem, the scheduler state and the clock; a state agreeing with a
/// well-formed one on those is well formed.
pub proof fn lemma_wf_frame(pre: Kernel, post: Kernel)
    requires
        pre.wf(),
        post.procs@ == pre.procs@,
        post.objects@ == pre.objects@,
        post.pipes@.len() == pre.pipes@.len(),
        fs_wf(post.fs),
        post.fs.inodes@.len() >= pre.fs.inodes@.len(),
        post.current == pre.current,
        post.ready@ == pre.ready@,
        post.init_pid == pre.init_pid,
        post.time_ms <= TIME_CAP,
    ensures
        post.wf(),
{
    assert(forall|p: int| post.live(p) == pre.live(p));
    assert(forall|p: int| post.live(p) ==> #[trigger] post.pcb(p) == pre.pcb(p));
    assert forall|p: int| post.live(p) implies #[trigger] post.pcb_ok(p) by {
        assert(pre.pcb_ok(p));
    }
    assert forall|c: usize, p1: int, p2: int|
        post.is_child_of(c, p1) && post.is_child_of(c, p2) implies p1 == p2 by {
        assert(pre.is_child_of(c, p1) && pre.is_child_of(c, p2));
    }
    assert forall|o: int| 0 <= o < post.objects@.len()
        implies post.obj_ok(#[trigger] post.objects@[o]) by {
        assert(pre.obj_ok(pre.objects@[o]));
    }
}

/// Replacing one process's control block preserves well-formedness as long
/// as the pid, children and run state are kept and the new descriptor table,
/// address space and object table are themselves consistent.
pub proof fn lemma_wf_update_pcb(pre: Kernel, post: Kernel, p: int)
    requires
        pre.wf(),
        pre.live(p),
        post.procs@.len() == pre.procs@.len(),
        forall|j: int| 0 <= j < pre.procs@.len() && j != p ==> post.procs@[j] == pre.procs@[j],
        post.procs@[p] is Some,
        post.pcb(p).pid == pre.pcb(p).pid,
        post.pcb(p).parent == pre.pcb(p).parent,
        post.pcb(p).children@ == pre.pcb(p).children@,
        post.pcb(p).zombie == pre.pcb(p).zombie,
        ms_wf(post.pcb(p).mem),
        post.pcb(p).fd_table@.len() <= FD_LIMIT,
        forall|f: int| 0 <= f < post.pcb(p).fd_table@.len() && post.pcb(p).fd_table@[f] is Some
            ==> (#[trigger] post.pcb(p).fd_table@[f])->0.obj < post.objects@.len(),
        post.objects@.len() >= pre.objects@.len(),
        forall|o: int| 0 <= o < post.objects@.len() ==> post.obj_ok(#[trigger] post.objects@[o]),
        fs_wf(post.fs),
        post.current == pre.current,
        post.ready@ == pre.ready@,
        post.init_pid == pre.init_pid,
        post.time_ms <= TIME_CAP,
    ensures
        post.wf(),
{
    assert(forall|j: int| post.live(j) == pre.live(j));
    assert forall|j: int| post.live(j) implies #[trigger] post.pcb_ok(j) by {
        assert(pre.pcb_ok(j));
        if j != p {
            assert(post.pcb(j) == pre.pcb(j));
        }
    }
    assert forall|c: usize, p1: int, p2: int|
        post.is_child_of(c, p1) && post.is_child_of(c, p2) implies p1 == p2 by {
        assert(post.pcb(p1).children@ == pre.pcb(p1).children@);
        assert(post.pcb(p2).children@ == pre.pcb(p2).children@);
        assert(pre.is_child_of(c, p1) && pre.is_child_of(c, p2));
    }
    assert(post.pcb(post.init_pid as int).parent is None) by {
        if post.init_pid as int != p {
            assert(post.pcb(post.init_pid as int) == pre.pcb(pre.init_pid as int));
        }
    }
}

/// The two control blocks agree on everything but the descriptor table.
pub open spec fn pcb_same_except_fdt(a: Pcb, b: Pcb) -> bool {
    &&& b.pid == a.pid
    &&& b.parent == a.parent
    &&& b.children == a.children
    &&& b.zombie == a.zombie
    &&& b.exit_code == a.exit_code
    &&& b.mem == a.mem
    &&& b.trap == a.trap
    &&& b.priority == a.priority
}

/// The two control blocks agree on everything but the address space.
pub open spec fn pcb_same_except_mem(a: Pcb, b: Pcb) -> bool {
    &&& b.pid == a.pid
    &&& b.parent == a.parent
    &&& b.children == a.children
    &&& b.zombie == a.zombie
    &&& b.exit_code == a.exit_code
    &&& b.fd_table == a.fd_table
    &&& b.trap == a.trap
    &&& b.priority == a.priority
}

/// First free slot of a descriptor table: the lowest empty index, or the
/// table's length when every slot is occupied.
pub open spec fn find_free_at(fdt: Seq<Option<FdEntry>>, i: int) -> int
    decreases fdt.len() - i when 0 <= i <= fdt.len()
{
    if i >= fdt.len() {
        i
    } else if fdt[i] is None {
        i
    } else {
        find_free_at(fdt, i + 1)
    }
}

/// The slot a descriptor allocation returns.
pub open spec fn lowest_free(fdt: Seq<Option<FdEntry>>) -> int {
    find_free_at(fdt, 0)
}

/// The descriptor table after allocating the lowest free slot for `e`.
pub open spec fn fdt_after_alloc(fdt: Seq<Option<FdEntry>>, e: FdEntry) -> Seq<Option<FdEntry>> {
    if lowest_free(fdt) < fdt.len() {
        fdt.update(lowest_free(fdt), Some(e))
    } else {
        fdt.push(Some(e))
    }
}

/// What the free-slot scan returns: a real first free slot, or the length.
pub proof fn lemma_find_free_props(fdt: Seq<Option<FdEntry>>, i: int)
    requires
        0 <= i <= fdt.len(),
    ensures
        i <= find_free_at(fdt, i) <= fdt.len(),
        find_free_at(fdt, i) < fdt.len() ==> fdt[find_free_at(fdt, i)] is None,
        forall|j: int| i <= j < find_free_at(fdt, i) ==> (#[trigger] fdt[j]) is Some,
    decreases fdt.len() - i,
{
    if i < fdt.len() && !(fdt[i] is None) {
        lemma_find_free_props(fdt, i + 1);
    }
}

/// Skipping known occupied slots does not change the scan's result.
pub proof fn lemma_find_free_skip(fdt: Seq<Option<FdEntry>>, i: int)
    requires
        0 <= i <= fdt.len(),
        forall|j: int| 0 <= j < i ==> (#[trigger] fdt[j]) is Some,
    ensures
        find_free_at(fdt, 0) == find_free_at(fdt, i),
    decreases i,
{
    if i > 0 {
        lemma_find_free_skip(fdt, i - 1);
    }
}

/// Allocates the lowest free descriptor slot and fills it with `e`,
/// extending the table by one slot when it is full.
fn alloc_fd(fdt: &mut Vec<Option<FdEntry>>, e: FdEntry) -> (fd: usize)
    requires
        old(fdt)@.len() < FD_LIMIT,
    ensures
        fd == lowest_free(old(fdt)@),
        fd <= old(fdt)@.len(),
        final(fdt)@ == fdt_after_alloc(old(fdt)@, e),
        final(fdt)@.len() <= old(fdt)@.len() + 1,
        final(fdt)@[fd as int] == Some(e),
        forall|j: int| 0 <= j < old(fdt)@.len() && j != fd ==> final(fdt)@[j] == old(fdt)@[j],
{
    let n = fdt.len();
    let mut i: usize = 0;
    while i < n
        invariant
            fdt@ == old(fdt)@,
            n == fdt@.len(),
            i <= n,
            forall|j: int| 0 <= j < i ==> (#[trigger] fdt@[j]) is Some,
        decreases n - i,
    {
        if fdt[i].is_none() {
            proof {
                lemma_find_free_skip(fdt@, i as int);
            }
            fdt[i] = Some(e);
            return i;
        }
        i += 1;
    }
    proof {
        lemma_find_free_skip(fdt@, n as int);
    }
    fdt.push(Some(e));
    n
}

/// The yield syscall's effect: nothing changes but the clock, which gains a
/// millisecond (saturating at the cap) while other tasks run.
pub open spec fn yield_rel(pre: Kernel, post: Kernel, r: isize) -> bool {
    &&& r == 0
    &&& post.procs@ == pre.procs@
    &&& post.objects@ == pre.objects@
    &&& post.pipes@ == pre.pipes@
    &&& post.fs == pre.fs
    &&& post.programs@ == pre.programs@
    &&& post.current == pre.current
    &&& post.ready@ == pre.ready@
    &&& post.init_pid == pre.init_pid
    &&& post.stdin_data@ == pre.stdin_data@
    &&& post.stdout_data@ == pre.stdout_data@
    &&& post.time_ms == if pre.time_ms < TIME_CAP { (pre.time_ms + 1) as u64 } else { pre.time_ms }
}

/// Everything except the clock is as in `pre`.
pub open spec fn eq_mod_time(pre: Kernel, post: Kernel) -> bool {
    &&& post.procs@ == pre.procs@
    &&& post.objects@ == pre.objects@
    &&& post.pipes@ == pre.pipes@
    &&& post.fs == pre.fs
    &&& post.programs@ == pre.programs@
    &&& post.current == pre.current
    &&& post.ready@ == pre.ready@
    &&& post.init_pid == pre.init_pid
    &&& post.stdin_data@ == pre.stdin_data@
    &&& post.stdout_data@ == pre.stdout_data@
    &&& post.time_ms >= pre.time_ms
}

/// A completed context switch: `pid` is now the running process and
/// everything but the scheduler's bookkeeping is untouched.
pub open spec fn switched(pre: Kernel, post: Kernel, pid: usize) -> bool {
    &&& post.has_current() && post.cur() == pid
    &&& post.procs@ == pre.procs@
    &&& post.objects@ == pre.objects@
    &&& post.pipes@ == pre.pipes@
    &&& post.fs == pre.fs
    &&& post.programs@ == pre.programs@
    &&& post.init_pid == pre.init_pid
    &&& post.time_ms == pre.time_ms
    &&& post.stdin_data@ == pre.stdin_data@
    &&& post.stdout_data@ == pre.stdout_data@
}

/// The close syscall's effect: an invalid or empty descriptor is refused
/// with -1 and nothing changes; otherwise the slot is cleared and 0 comes
/// back.  The object itself stays in the object table, so other slots that
/// share it are unaffected.
pub open spec fn close_rel(pre: Kernel, post: Kernel, fd: usize, r: isize) -> bool {
    &&& r == if pre.fd_ok(fd as int) { 0isize } else { -1isize }
    &&& (!pre.fd_ok(fd as int) ==> post == pre)
    &&& (pre.fd_ok(fd as int) ==> {
        &&& procs_unchanged_except(pre, post, pre.cur())
        &&& post.procs@[pre.cur()] is Some
        &&& pcb_same_except_fdt(pre.cur_pcb(), post.pcb(pre.cur()))
        &&& post.pcb(pre.cur()).fd_table@ == pre.fdt().update(fd as int, None::<FdEntry>)
        &&& world_unchanged(pre, post)
    })
}

/// The dup syscall's effect: an invalid or empty descriptor is refused with
/// -1 and nothing changes; otherwise the lowest free slot is bound to the
/// same entry — the same object and backing identifier — and returned.
pub open spec fn dup_rel(pre: Kernel, post: Kernel, fd: usize, r: isize) -> bool {
    &&& (!pre.fd_ok(fd as int) ==> r == -1 && post == pre)
    &&& (pre.fd_ok(fd as int) ==> {
        &&& r == lowest_free(pre.fdt()) as isize
        &&& procs_unchanged_except(pre, post, pre.cur())
        &&& post.procs@[pre.cur()] is Some
        &&& pcb_same_except_fdt(pre.cur_pcb(), post.pcb(pre.cur()))
        &&& post.pcb(pre.cur()).fd_table@ == fdt_after_alloc(pre.fdt(), pre.fd_entry(fd as int))
        &&& world_unchanged(pre, post)
    })
}

/// The set-priority syscall's effect: a priority of at least 2 is recorded
/// on the running process and echoed back; anything lower is refused.
pub open spec fn set_priority_rel(pre: Kernel, post: Kernel, prio: isize, r: isize) -> bool {
    &&& (prio < 2 ==> r == -1 && post == pre)
    &&& (prio >= 2 ==> {
        &&& r == prio
        &&& procs_unchanged_except(pre, post, pre.cur())
        &&& post.procs@[pre.cur()] is Some
        &&& post.pcb(pre.cur()) == Pcb { priority: prio, ..pre.cur_pcb() }
        &&& world_unchanged(pre, post)
    })
}

/// The mmap syscall's effect on the running process's address space.
pub open spec fn mmap_rel(pre: Kernel, post: Kernel, start: usize, len: usize, prot: usize, r: i32) -> bool {
    &&& r == 0 || r == -1
    &&& (r == 0) <==> mmap_ok(pre.cur_pcb().mem, start as int, len as int, prot)
    &&& (r == -1 ==> post.procs@ == pre.procs@ && world_unchanged(pre, post))
    &&& procs_unchanged_except(pre, post, pre.cur())
    &&& post.procs@[pre.cur()] is Some
    &&& pcb_same_except_mem(pre.cur_pcb(), post.pcb(pre.cur()))
    &&& world_unchanged(pre, post)
    &&& (r == 0 ==> {
        let m = post.pcb(pre.cur()).mem;
        &&& (forall|vpn: int| len > 0
            && start as int / (PAGE_SIZE as int) <= vpn <= (start + len - 1) / (PAGE_SIZE as int)
            ==> #[trigger] vpn_ok(m, vpn, prot_to_flags(prot))
                && page_flags(m, vpn) == prot_to_flags(prot))
        &&& (forall|va: int| start <= va < start + len ==> #[trigger] byte_at(m, va) == 0)
        &&& pages_preserved_except(pre.cur_pcb().mem, m,
            start as int / (PAGE_SIZE as int),
            if len == 0 { start as int / (PAGE_SIZE as int) } else { (start + len - 1) / (PAGE_SIZE as int) + 1 })
    })
}

/// The munmap syscall's effect on the running process's address space.
pub open spec fn munmap_rel(pre: Kernel, post: Kernel, start: usize, len: usize, r: i32) -> bool {
    &&& r == 0 || r == -1
    &&& (r == 0) <==> munmap_ok(pre.cur_pcb().mem, start as int, len as int)
    &&& (r == -1 ==> post.procs@ == pre.procs@ && world_unchanged(pre, post))
    &&& procs_unchanged_except(pre, post, pre.cur())
    &&& post.procs@[pre.cur()] is Some
    &&& pcb_same_except_mem(pre.cur_pcb(), post.pcb(pre.cur()))
    &&& world_unchanged(pre, post)
    &&& (r == 0 ==> {
        let m = post.pcb(pre.cur()).mem;
        &&& (forall|vpn: int| len > 0
            && start as int / (PAGE_SIZE as int) <= vpn <= (start + len - 1) / (PAGE_SIZE as int)
            ==> !(#[trigger] is_mapped(m, vpn)))
        &&& pages_preserved_except(pre.cur_pcb().mem, m,
            start as int / (PAGE_SIZE as int),
            if len == 0 { start as int / (PAGE_SIZE as int) } else { (start + len - 1) / (PAGE_SIZE as int) + 1 })
    })
}

impl Kernel {
    /// Boots the kernel: an empty world with one initial process (pid 0)
    /// whose descriptors 0 and 1 are the console endpoints.
    pub fn boot() -> (k: Kernel)
        ensures
            k.wf(),
            k.has_current(),
            k.cur() == 0,
            k.init_pid == 0,
            k.procs@.len() == 1,
            k.fdt().len() == 2,
            k.fd_ok(0) && k.fd_obj(0).kind == ObjKind::Stdin,
            k.fd_ok(1) && k.fd_obj(1).kind == ObjKind::Stdout,
            k.cur_pcb().mem.pages@.len() == 0,
            k.fs.names@.len() == 0,
            k.programs@.len() == 0,
            k.time_ms == 0,
            k.stdin_data@.len() == 0,
            k.stdout_data@.len() == 0,
            k.ready@.len() == 0,
    {
        let mut objects: Vec<FileObject> = Vec::new();
        objects.push(FileObject { readable: true, writable: false, kind: ObjKind::Stdin });
        objects.push(FileObject { readable: false, writable: true, kind: ObjKind::Stdout });
        let mut fd_table: Vec<Option<FdEntry>> = Vec::new();
        fd_table.push(Some(FdEntry { obj: 0, backing: ANON_BACKING }));
        fd_table.push(Some(FdEntry { obj: 1, backing: ANON_BACKING }));
        let init = Pcb {
            pid: 0,
            parent: None,
            children: Vec::new(),
            zombie: false,
            exit_code: 0,
            fd_table,
            mem: MemorySet::new(),
            trap: TrapContext { x10: 0, sepc: 0 },
            priority: 16,
        };
        let mut procs: Vec<Option<Pcb>> = Vec::new();
        procs.push(Some(init));
        Kernel {
            procs,
            objects,
            pipes: Vec::new(),
            fs: Fs::new(),
            programs: Vec::new(),
            current: Some(0),
            ready: Vec::new(),
            init_pid: 0,
            time_ms: 0,
            stdin_data: Vec::new(),
            stdout_data: Vec::new(),
        }
    }

    /// Registers a program image with the loader collaborator.
    pub fn register_program(&mut self, name: Vec<u8>, entry: usize)
        requires
            old(self).wf(),
        ensures
            final(self).wf(),
            final(self).programs@.len() == old(self).programs@.len() + 1,
            final(self).programs@[old(self).programs@.len() as int].name@ == name@,
            final(self).programs@[old(self).programs@.len() as int].entry == entry,
            forall|j: int| 0 <= j < old(self).programs@.len()
                ==> final(self).programs@[j] == old(self).programs@[j],
            final(self).procs@ == old(self).procs@,
            final(self).objects@ == old(self).objects@,
            final(self).pipes@ == old(self).pipes@,
            final(self).fs == old(self).fs,
            final(self).current == old(self).current,
            final(self).ready@ == old(self).ready@,
            final(self).init_pid == old(self).init_pid,
            final(self).time_ms == old(self).time_ms,
            final(self).stdin_data@ == old(self).stdin_data@,
            final(self).stdout_data@ == old(self).stdout_data@,
    {
        self.programs.push(Program { name, entry });
        proof {
            lemma_wf_frame(*old(self), *self);
        }
    }

    /// Hands console input to the kernel, as the console collaborator would.
    pub fn feed_stdin(&mut self, bytes: &Vec<u8>)
        requires
            old(self).wf(),
            old(self).stdin_data@.len() + bytes@.len() <= usize::MAX,
        ensures
            final(self).wf(),
            final(self).stdin_data@ == old(self).stdin_data@ + bytes@,
            final(self).procs@ == old(self).procs@,
            final(self).objects@ == old(self).objects@,
            final(self).pipes@ == old(self).pipes@,
            final(self).fs == old(self).fs,
            final(self).programs@ == old(self).programs@,
            final(self).current == old(self).current,
            final(self).ready@ == old(self).ready@,
            final(self).init_pid == old(self).init_pid,
            final(self).time_ms == old(self).time_ms,
            final(self).stdout_data@ == old(self).stdout_data@,
    {
        let n = bytes.len();
        let mut i: usize = 0;
        while i < n
            invariant
                n == bytes@.len(),
                i <= n,
                old(self).stdin_data@.len() + n <= usize::MAX,
                self.stdin_data@ == old(self).stdin_data@ + bytes@.take(i as int),
                self.procs@ == old(self).procs@,
                self.objects@ == old(self).objects@,
                self.pipes@ == old(self).pipes@,
                self.fs == old(self).fs,
                self.programs@ == old(self).programs@,
                self.current == old(self).current,
                self.ready@ == old(self).ready@,
                self.init_pid == old(self).init_pid,
                self.time_ms == old(self).time_ms,
                self.stdout_data@ == old(self).stdout_data@,
                old(self).wf(),
            decreases n - i,
        {
            let b = bytes[i];
            self.stdin_data.push(b);
            proof {
                assert(self.stdin_data@ =~= old(self).stdin_data@ + bytes@.take(i + 1));
            }
            i += 1;
        }
        proof {
            assert(bytes@.take(n as int) =~= bytes@);
            lemma_wf_frame(*old(self), *self);
        }
    }

    /// Performs the context switch the trap machinery would: makes `pid` the
    /// running process, moving the previously running one to the back of the
    /// ready queue.  Refused when `pid` does not name a live, non-zombie
    /// process.  Switching to the running process itself is a no-op.
    pub fn switch_to(&mut self, pid: usize) -> (r: isize)
        requires
            old(self).wf(),
        ensures
            final(self).wf(),
            r == 0 || r == -1,
            (r == 0) <==> (old(self).live(pid as int) && !old(self).pcb(pid as int).zombie),
            r == -1 ==> *final(self) == *old(self),
            r == 0 ==> switched(*old(self), *final(self), pid),
    {
        if pid >= self.procs.len() {
            return -1;
        }
        let ok = match &self.procs[pid] {
            Some(p) => !p.zombie,
            None => false,
        };
        if !ok {
            return -1;
        }
        match self.current {
            Some(c) => {
                if c == pid {
                    return 0;
                }
            },
            None => {},
        }
        // take pid out of the ready queue if it is queued
        let n = self.ready.len();
        let mut i: usize = 0;
        let mut found: bool = false;
        while i < n && !found
            invariant
                *self == *old(self),
                n == self.ready@.len(),
                i <= n,
                !found ==> forall|j: int| 0 <= j < i ==> self.ready@[j] != pid,
                found ==> i < n && self.ready@[i as int] == pid,
            decreases n - i + (if found { 0int } else { 1int }),
        {
            if self.ready[i] == pid {
                found = true;
            } else {
                i += 1;
            }
        }
        let ghost r0 = self.ready@;
        if found {
            self.ready.remove(i);
        }
        proof {
            // after removal, no queue entry is pid, and entries come from r0
            assert forall|k: int| 0 <= k < self.ready@.len() implies
                (exists|j: int| 0 <= j < r0.len() && r0[j] == #[trigger] self.ready@[k]
                    && (!found || j != i)) by {
                if found {
                    let j = if k < i { k } else { k + 1 };
                    assert(self.ready@[k] == r0[j]);
                } else {
                    assert(self.ready@[k] == r0[k]);
                }
            }
            assert forall|k: int| 0 <= k < self.ready@.len()
                implies (#[trigger] self.ready@[k]) != pid by {
                if found {
                    let j = if k < i { k } else { k + 1 };
                    assert(self.ready@[k] == r0[j]);
                    if j < i {
                        assert(r0[j] != pid);
                    } else {
                        assert(r0[i as int] == pid);
                        assert(r0[j] != r0[i as int]);
                    }
                }
            }
            assert forall|k1: int, k2: int|
                0 <= k1 < k2 < self.ready@.len()
                implies #[trigger] self.ready@[k1] != #[trigger] self.ready@[k2] by {
                if found {
                    let j1 = if k1 < i { k1 } else { k1 + 1 };
                    let j2 = if k2 < i { k2 } else { k2 + 1 };
                    assert(self.ready@[k1] == r0[j1] && self.ready@[k2] == r0[j2]);
                }
            }
        }
        let oldcur = self.current;
        match oldcur {
            Some(c) => {
                self.ready.push(c);
            },
            None => {},
        }
        self.current = Some(pid);
        proof {
            let post = *self;
            assert forall|k: int| 0 <= k < post.ready@.len() implies {
                let q = #[trigger] post.ready@[k] as int;
                &&& post.live(q)
                &&& !post.pcb(q).zombie
                &&& q != pid
            } by {
                if oldcur is Some && k == post.ready@.len() - 1 {
                    assert(post.ready@[k] == oldcur->0);
                }
            }
            assert forall|k1: int, k2: int|
                0 <= k1 < k2 < post.ready@.len()
                implies #[trigger] post.ready@[k1] != #[trigger] post.ready@[k2] by {
                if oldcur is Some && k2 == post.ready@.len() - 1 {
                    assert(old(self).ready@.contains(post.ready@[k1]) || post.ready@[k1] == pid) by {
                        if found {
                            let j1 = if k1 < i { k1 } else { k1 + 1 };
                            assert(post.ready@[k1] == r0[j1]);
                            assert(old(self).ready@.contains(r0[j1]));
                        } else {
                            assert(post.ready@[k1] == r0[k1]);
                            assert(old(self).ready@.contains(r0[k1]));
                        }
                    }
                    if old(self).ready@.contains(post.ready@[k1]) {
                        let j = choose|j: int| 0 <= j < old(self).ready@.len()
                            && old(self).ready@[j] == post.ready@[k1];
                        assert(old(self).ready@[j] != oldcur->0);
                    }
                }
            }
            assert forall|p: int| self.live(p) implies #[trigger] self.pcb_ok(p) by {
                assert(old(self).pcb_ok(p));
                assert(self.pcb(p) == old(self).pcb(p));
            }
            assert forall|c: usize, p1: int, p2: int|
                self.is_child_of(c, p1) && self.is_child_of(c, p2) implies p1 == p2 by {
                assert(old(self).is_child_of(c, p1) && old(self).is_child_of(c, p2));
            }
            assert forall|o: int| 0 <= o < self.objects@.len()
                implies self.obj_ok(#[trigger] self.objects@[o]) by {
                assert(old(self).obj_ok(old(self).objects@[o]));
            }
        }
        0
    }

    /// The getpid syscall: the running process's pid.
    pub fn sys_getpid(&self) -> (r: isize)
        requires
            self.wf(),
            self.has_current(),
        ensures
            r == self.cur(),
    {
        match self.current {
            Some(c) => c as isize,
            None => -1,
        }
    }

    /// The get-time syscall: milliseconds since boot.
    pub fn sys_get_time(&self) -> (r: isize)
        requires
            self.wf(),
        ensures
            r == self.time_ms,
    {
        self.time_ms as isize
    }

    /// The yield syscall: a cooperative reschedule point.  Other runnable
    /// tasks get the processor; the model folds that into the clock, which
    /// advances one millisecond, saturating at the cap.
    pub fn sys_yield(&mut self) -> (r: isize)
        requires
            old(self).wf(),
        ensures
            final(self).wf(),
            yield_rel(*old(self), *final(self), r),
    {
        if self.time_ms < TIME_CAP {
            self.time_ms = self.time_ms + 1;
        }
        proof {
            lemma_wf_frame(*old(self), *self);
        }
        0
    }

    /// The set-priority syscall: records a priority of at least 2 on the
    /// running process and returns it; refuses lower values with -1.
    pub fn sys_set_priority(&mut self, prio: isize) -> (r: isize)
        requires
            old(self).wf(),
            old(self).has_current(),
        ensures
            final(self).wf(),
            set_priority_rel(*old(self), *final(self), prio, r),
    {
        if prio < 2 {
            return -1;
        }
        let c = self.current.unwrap();
        proof {
            assert(old(self).pcb_ok(c as int));
        }
        match &mut self.procs[c] {
            Some(pcb) => {
                pcb.priority = prio;
            },
            None => { proof { assert(false); } },
        }
        proof {
            lemma_wf_update_pcb(*old(self), *self, c as int);
        }
        prio
    }

    /// The close syscall: clears the slot of a valid descriptor; refuses an
    /// out-of-range or already-empty one with -1.
    pub fn sys_close(&mut self, fd: usize) -> (r: isize)
        requires
            old(self).wf(),
            old(self).has_current(),
        ensures
            final(self).wf(),
            close_rel(*old(self), *final(self), fd, r),
    {
        let c = self.current.unwrap();
        proof {
            assert(old(self).pcb_ok(c as int));
        }
        let valid = match &self.procs[c] {
            Some(pcb) => fd < pcb.fd_table.len() && pcb.fd_table[fd].is_some(),
            None => false,
        };
        if !valid {
            return -1;
        }
        match &mut self.procs[c] {
            Some(pcb) => {
                pcb.fd_table[fd] = None;
            },
            None => { proof { assert(false); } },
        }
        proof {
            lemma_wf_update_pcb(*old(self), *self, c as int);
        }
        0
    }

    /// The dup syscall: binds the lowest free slot to the same object and
    /// backing identifier as `fd`; refuses an invalid descriptor with -1.
    pub fn sys_dup(&mut self, fd: usize) -> (r: isize)
        requires
            old(self).wf(),
            old(self).has_current(),
            old(self).fdt().len() < FD_LIMIT,
        ensures
            final(self).wf(),
            dup_rel(*old(self), *final(self), fd, r),
    {
        let c = self.current.unwrap();
        proof {
            assert(old(self).pcb_ok(c as int));
        }
        let entry = match &self.procs[c] {
            Some(pcb) => {
                if fd < pcb.fd_table.len() {
                    pcb.fd_table[fd]
                } else {
                    None
                }
            },
            None => None,
        };
        let e = match entry {
            Some(e) => e,
            None => {
                return -1;
            },
        };
        let newfd = match &mut self.procs[c] {
            Some(pcb) => alloc_fd(&mut pcb.fd_table, e),
            None => { proof { assert(false); } 0 },
        };
        proof {
            lemma_find_free_props(old(self).fdt(), 0);
            lemma_wf_update_pcb(*old(self), *self, c as int);
        }
        newfd as isize
    }

    /// The mmap syscall: maps a fresh page-aligned range in the running
    /// process's address space; delegated to the memory collaborator model.
    pub fn sys_mmap(&mut self, start: usize, len: usize, prot: usize) -> (r: i32)
        requires
            old(self).wf(),
            old(self).has_current(),
        ensures
            final(self).wf(),
            mmap_rel(*old(self), *final(self), start, len, prot, r),
    {
        let c = self.current.unwrap();
        proof {
            assert(old(self).pcb_ok(c as int));
        }
        let r = match &mut self.procs[c] {
            Some(pcb) => pcb.mem.mmap(start, len, prot),
            None => { proof { assert(false); } -1 },
        };
        proof {
            lemma_wf_update_pcb(*old(self), *self, c as int);
            if r == -1 {
                assert(self.procs@ =~= old(self).procs@);
            }
        }
        r
    }

    /// The munmap syscall: unmaps a fully mapped page-aligned range in the
    /// running process's address space.
    pub fn sys_munmap(&mut self, start: usize, len: usize) -> (r: i32)
        requires
            old(self).wf(),
            old(self).has_current(),
        ensures
            final(self).wf(),
            munmap_rel(*old(self), *final(self), start, len, r),
    {
        let c = self.current.unwrap();
        proof {
            assert(old(self).pcb_ok(c as int));
        }
        let r = match &mut self.procs[c] {
            Some(pcb) => pcb.mem.munmap(start, len),
            None => { proof { assert(false); } -1 },
        };
        proof {
            lemma_wf_update_pcb(*old(self), *self, c as int);
            if r == -1 {
                assert(self.procs@ =~= old(self).procs@);
            }
        }
        r
    }
}


/// The two control blocks agree on everything but the address space and the
/// saved trap context.
pub open spec fn pcb_same_except_mem_trap(a: Pcb, b: Pcb) -> bool {
    &&& b.pid == a.pid
    &&& b.parent == a.parent
    &&& b.children == a.children
    &&& b.zombie == a.zombie
    &&& b.exit_code == a.exit_code
    &&& b.fd_table == a.fd_table
    &&& b.priority == a.priority
}

/// The two control blocks agree on everything but the child list.
pub open spec fn pcb_same_except_children(a: Pcb, b: Pcb) -> bool {
    &&& b.pid == a.pid
    &&& b.parent == a.parent
    &&& b.zombie == a.zombie
    &&& b.exit_code == a.exit_code
    &&& b.fd_table == a.fd_table
    &&& b.mem == a.mem
    &&& b.trap == a.trap
    &&& b.priority == a.priority
}

/// Copies a descriptor table: new slots, the same entries, so the two tables
/// share every underlying object but not the table itself.
fn copy_fdt(src: &Vec<Option<FdEntry>>) -> (r: Vec<Option<FdEntry>>)
    ensures
        r@ == src@,
{
    let n = src.len();
    let mut r: Vec<Option<FdEntry>> = Vec::new();
    let mut i: usize = 0;
    while i < n
        invariant
            n == src@.len(),
            i <= n,
            r@ == src@.take(i as int),
        decreases n - i,
    {
        let e = src[i];
        r.push(e);
        proof {
            assert(r@ =~= src@.take(i + 1));
        }
        i += 1;
    }
    proof {
        assert(src@.take(n as int) =~= src@);
    }
    r
}

/// Copies a child-pid list.
fn copy_usizes(src: &Vec<usize>) -> (r: Vec<usize>)
    ensures
        r@ == src@,
{
    let n = src.len();
    let mut r: Vec<usize> = Vec::new();
    let mut i: usize = 0;
    while i < n
        invariant
            n == src@.len(),
            i <= n,
            r@ == src@.take(i as int),
        decreases n - i,
    {
        let e = src[i];
        r.push(e);
        proof {
            assert(r@ =~= src@.take(i + 1));
        }
        i += 1;
    }
    proof {
        assert(src@.take(n as int) =~= src@);
    }
    r
}

/// Copies a byte vector.
fn copy_bytes(src: &Vec<u8>) -> (r: Vec<u8>)
    ensures
        r@ == src@,
{
    let n = src.len();
    let mut r: Vec<u8> = Vec::new();
    let mut i: usize = 0;
    while i < n
        invariant
            n == src@.len(),
            i <= n,
            r@ == src@.take(i as int),
        decreases n - i,
    {
        let e = src[i];
        r.push(e);
        proof {
            assert(r@ =~= src@.take(i + 1));
        }
        i += 1;
    }
    proof {
        assert(src@.take(n as int) =~= src@);
    }
    r
}

/// Deep-copies an address space: an independent, equivalent mapping, the
/// copy-on-fork policy of the core.
fn copy_mem(src: &MemorySet) -> (r: MemorySet)
    requires
        ms_wf(*src),
    ensures
        ms_wf(r),
        crate::mem::ms_eq(*src, r),
{
    let n = src.pages.len();
    let mut pages: Vec<crate::mem::Page> = Vec::new();
    let mut i: usize = 0;
    while i < n
        invariant
            ms_wf(*src),
            n == src.pages@.len(),
            i <= n,
            pages@.len() == i,
            forall|j: int| 0 <= j < i ==> {
                &&& (#[trigger] pages@[j]).vpn == src.pages@[j].vpn
                &&& pages@[j].flags == src.pages@[j].flags
                &&& pages@[j].data@ == src.pages@[j].data@
            },
        decreases n - i,
    {
        let d = copy_bytes(&src.pages[i].data);
        let vpn = src.pages[i].vpn;
        let flags = src.pages[i].flags;
        pages.push(crate::mem::Page { vpn, flags, data: d });
        i += 1;
    }
    let r = MemorySet { pages };
    proof {
        assert forall|a: int, b: int|
            #![trigger r.pages@[a].vpn, r.pages@[b].vpn]
            0 <= a < b < r.pages@.len() implies r.pages@[a].vpn != r.pages@[b].vpn by {
            assert(src.pages@[a].vpn != src.pages@[b].vpn);
        }
    }
    r
}

/// Index of the first program image with the given name, starting at `i`;
/// -1 when there is none.
pub open spec fn find_prog_at(progs: Seq<Program>, name: Seq<u8>, i: int) -> int
    decreases progs.len() - i when 0 <= i <= progs.len()
{
    if i >= progs.len() {
        -1
    } else if progs[i].name@ == name {
        i
    } else {
        find_prog_at(progs, name, i + 1)
    }
}

/// Index of the program image a path names, or -1 when the loader does not
/// know it.
pub open spec fn prog_lookup(k: Kernel, name: Seq<u8>) -> int {
    find_prog_at(k.programs@, name, 0)
}

/// Skipping known non-matches does not change the image scan's result.
pub proof fn lemma_find_prog_skip(progs: Seq<Program>, name: Seq<u8>, i: int)
    requires
        0 <= i <= progs.len(),
        forall|j: int| 0 <= j < i ==> (#[trigger] progs[j]).name@ != name,
    ensures
        find_prog_at(progs, name, 0) == find_prog_at(progs, name, i),
    decreases i,
{
    if i > 0 {
        lemma_find_prog_skip(progs, name, i - 1);
    }
}

/// The fork syscall's effect: a new sibling process with a fresh pid — the
/// next slot of the pid table — an independent copy of the parent's address
/// space, a descriptor table of new slots sharing the parent's objects, the
/// parent's trap context with the syscall-return register patched to 0, and
/// the new pid registered as a child of the parent and enqueued as runnable.
/// The parent's own return value is the child's pid.
pub open spec fn fork_rel(pre: Kernel, post: Kernel, r: isize) -> bool {
    let child = pre.procs@.len() as int;
    let parent = pre.cur();
    &&& r == child
    &&& post.procs@.len() == pre.procs@.len() + 1
    &&& forall|j: int| 0 <= j < pre.procs@.len() && j != parent ==> post.procs@[j] == pre.procs@[j]
    &&& post.procs@[parent] is Some
    &&& pcb_same_except_children(pre.cur_pcb(), post.pcb(parent))
    &&& post.pcb(parent).children@ == pre.cur_pcb().children@.push(child as usize)
    &&& post.procs@[child] is Some
    &&& {
        let cpcb = post.pcb(child);
        &&& cpcb.pid == child
        &&& cpcb.parent == Some(parent as usize)
        &&& cpcb.children@.len() == 0
        &&& !cpcb.zombie
        &&& cpcb.fd_table@ == pre.fdt()
        &&& crate::mem::ms_eq(pre.cur_pcb().mem, cpcb.mem)
        &&& cpcb.trap.x10 == 0
        &&& cpcb.trap.sepc == pre.cur_pcb().trap.sepc
        &&& cpcb.priority == pre.cur_pcb().priority
    }
    &&& post.objects@ == pre.objects@
    &&& post.pipes@ == pre.pipes@
    &&& post.fs == pre.fs
    &&& post.programs@ == pre.programs@
    &&& post.current == pre.current
    &&& post.ready@ == pre.ready@.push(child as usize)
    &&& post.init_pid == pre.init_pid
    &&& post.time_ms == pre.time_ms
    &&& post.stdin_data@ == pre.stdin_data@
    &&& post.stdout_data@ == pre.stdout_data@
}

/// The exec syscall's effect: when the loader knows the image, the running
/// process's address space and trap context are replaced in place — same
/// pid, same descriptor table, same tree links — and 0 comes back; when it
/// does not, -1 comes back and nothing at all has changed.
pub open spec fn exec_rel(pre: Kernel, post: Kernel, path: Seq<u8>, r: isize) -> bool {
    &&& (prog_lookup(pre, path) == -1 ==> r == -1 && post == pre)
    &&& (prog_lookup(pre, path) >= 0 ==> {
        let e = pre.programs@[prog_lookup(pre, path)].entry;
        &&& r == 0
        &&& procs_unchanged_except(pre, post, pre.cur())
        &&& post.procs@[pre.cur()] is Some
        &&& pcb_same_except_mem_trap(pre.cur_pcb(), post.pcb(pre.cur()))
        &&& post.pcb(pre.cur()).mem.pages@.len() == 0
        &&& post.pcb(pre.cur()).trap == TrapContext { x10: 0, sepc: e }
        &&& world_unchanged(pre, post)
    })
}

/// The spawn syscall's effect: a brand-new child process started directly
/// from a named image — fresh pid, descriptor table sharing the parent's
/// objects, a fresh address space, no parent memory copied — registered as a
/// child, enqueued as runnable, its pid returned.  An unknown image gives -1
/// with no effect.
pub open spec fn spawn_rel(pre: Kernel, post: Kernel, path: Seq<u8>, r: isize) -> bool {
    &&& (prog_lookup(pre, path) == -1 ==> r == -1 && post == pre)
    &&& (prog_lookup(pre, path) >= 0 ==> {
        let e = pre.programs@[prog_lookup(pre, path)].entry;
        let child = pre.procs@.len() as int;
        let parent = pre.cur();
        &&& r == child
        &&& post.procs@.len() == pre.procs@.len() + 1
        &&& forall|j: int| 0 <= j < pre.procs@.len() && j != parent ==> post.procs@[j] == pre.procs@[j]
        &&& post.procs@[parent] is Some
        &&& pcb_same_except_children(pre.cur_pcb(), post.pcb(parent))
        &&& post.pcb(parent).children@ == pre.cur_pcb().children@.push(child as usize)
        &&& post.procs@[child] is Some
        &&& {
            let cpcb = post.pcb(child);
            &&& cpcb.pid == child
            &&& cpcb.parent == Some(parent as usize)
            &&& cpcb.children@.len() == 0
            &&& !cpcb.zombie
            &&& cpcb.fd_table@ == pre.fdt()
            &&& cpcb.mem.pages@.len() == 0
            &&& cpcb.trap == TrapContext { x10: 0, sepc: e }
        }
        &&& post.objects@ == pre.objects@
        &&& post.pipes@ == pre.pipes@
        &&& post.fs == pre.fs
        &&& post.programs@ == pre.programs@
        &&& post.current == pre.current
        &&& post.ready@ == pre.ready@.push(child as usize)
        &&& post.init_pid == pre.init_pid
        &&& post.time_ms == pre.time_ms
        &&& post.stdin_data@ == pre.stdin_data@
        &&& post.stdout_data@ == pre.stdout_data@
    })
}

impl Kernel {
    /// Registers a freshly built control block as a child of the running
    /// process, appends it to the pid table and enqueues it as runnable.
    /// Internal step shared by fork and spawn; the child must be fully
    /// formed, with the next pid and no children of its own.
    fn adopt_child(&mut self, child: Pcb)
        requires
            old(self).wf(),
            old(self).has_current(),
            old(self).procs@.len() < PID_LIMIT,
            child.pid == old(self).procs@.len(),
            child.parent == Some(old(self).cur() as usize),
            child.children@.len() == 0,
            !child.zombie,
            child.fd_table@.len() <= FD_LIMIT,
            forall|f: int| 0 <= f < child.fd_table@.len() && child.fd_table@[f] is Some
                ==> (#[trigger] child.fd_table@[f])->0.obj < old(self).objects@.len(),
            ms_wf(child.mem),
        ensures
            final(self).wf(),
            final(self).procs@.len() == old(self).procs@.len() + 1,
            forall|j: int| 0 <= j < old(self).procs@.len() && j != old(self).cur()
                ==> final(self).procs@[j] == old(self).procs@[j],
            final(self).procs@[old(self).cur()] is Some,
            pcb_same_except_children(old(self).cur_pcb(), final(self).pcb(old(self).cur())),
            final(self).pcb(old(self).cur()).children@
                == old(self).cur_pcb().children@.push(old(self).procs@.len() as usize),
            final(self).procs@[old(self).procs@.len() as int] == Some(child),
            final(self).objects@ == old(self).objects@,
            final(self).pipes@ == old(self).pipes@,
            final(self).fs == old(self).fs,
            final(self).programs@ == old(self).programs@,
            final(self).current == old(self).current,
            final(self).ready@ == old(self).ready@.push(old(self).procs@.len() as usize),
            final(self).init_pid == old(self).init_pid,
            final(self).time_ms == old(self).time_ms,
            final(self).stdin_data@ == old(self).stdin_data@,
            final(self).stdout_data@ == old(self).stdout_data@,
    {
        let c = self.current.unwrap();
        proof {
            assert(old(self).pcb_ok(c as int));
        }
        let child_pid = self.procs.len();
        self.procs.push(Some(child));
        match &mut self.procs[c] {
            Some(pcb) => {
                pcb.children.push(child_pid);
            },
            None => { proof { assert(false); } },
        }
        self.ready.push(child_pid);
        proof {
            let pre = *old(self);
            let post = *self;
            let cc = c as int;
            let ch = child_pid as int;
            assert(post.procs@.len() == pre.procs@.len() + 1);
            assert(forall|j: int| 0 <= j < pre.procs@.len() && j != cc
                ==> post.procs@[j] == pre.procs@[j]);
            assert(post.pcb(cc).children@ == pre.pcb(cc).children@.push(child_pid));
            assert(post.procs@[ch] == Some(child));
            // well-formedness
            assert forall|p: int| post.live(p) implies #[trigger] post.pcb_ok(p) by {
                if p == ch {
                    assert(post.pcb(p) == child);
                } else {
                    assert(pre.live(p));
                    assert(pre.pcb_ok(p));
                    if p == cc {
                        assert forall|k: int| 0 <= k < post.pcb(p).children@.len() implies {
                            let x = #[trigger] post.pcb(p).children@[k] as int;
                            &&& 0 <= x < post.procs@.len()
                            &&& post.procs@[x] is Some
                            &&& x != p
                            &&& x != post.init_pid
                        } by {
                            if k < pre.pcb(cc).children@.len() {
                                assert(pre.pcb(cc).children@[k] == post.pcb(p).children@[k]);
                            } else {
                                assert(post.pcb(p).children@[k] == child_pid);
                                assert(pre.live(pre.init_pid as int));
                            }
                        }
                        assert forall|k1: int, k2: int|
                            0 <= k1 < k2 < post.pcb(p).children@.len()
                            implies post.pcb(p).children@[k1] != post.pcb(p).children@[k2] by {
                            if k2 == post.pcb(p).children@.len() - 1 {
                                assert(post.pcb(p).children@[k2] == child_pid);
                                assert((pre.pcb(cc).children@[k1] as int) < pre.procs@.len());
                            }
                        }
                    } else {
                        assert(post.pcb(p) == pre.pcb(p));
                        assert forall|k: int| 0 <= k < post.pcb(p).children@.len() implies {
                            let x = #[trigger] post.pcb(p).children@[k] as int;
                            &&& 0 <= x < post.procs@.len()
                            &&& post.procs@[x] is Some
                            &&& x != p
                            &&& x != post.init_pid
                        } by {}
                    }
                }
            }
            assert forall|x: usize, p1: int, p2: int|
                post.is_child_of(x, p1) && post.is_child_of(x, p2) implies p1 == p2 by {
                if x == child_pid {
                    // only the parent's list can hold the fresh pid
                    if p1 != cc {
                        assert(pre.live(p1));
                        assert(post.pcb(p1).children@ == pre.pcb(p1).children@);
                        assert(pre.pcb_ok(p1));
                        let m = choose|m: int| 0 <= m < pre.pcb(p1).children@.len()
                            && pre.pcb(p1).children@[m] == x;
                        assert((pre.pcb(p1).children@[m] as int) < pre.procs@.len());
                        assert(false);
                    }
                    if p2 != cc {
                        assert(pre.live(p2));
                        assert(post.pcb(p2).children@ == pre.pcb(p2).children@);
                        assert(pre.pcb_ok(p2));
                        let m = choose|m: int| 0 <= m < pre.pcb(p2).children@.len()
                            && pre.pcb(p2).children@[m] == x;
                        assert((pre.pcb(p2).children@[m] as int) < pre.procs@.len());
                        assert(false);
                    }
                } else {
                    assert forall|q: int| post.is_child_of(x, q) && x != child_pid
                        implies pre.is_child_of(x, q) by {
                        if q == cc {
                            let m = choose|m: int| 0 <= m < post.pcb(cc).children@.len()
                                && post.pcb(cc).children@[m] == x;
                            assert(m < pre.pcb(cc).children@.len());
                            assert(pre.pcb(cc).children@[m] == x);
                        } else if q == ch {
                            assert(post.pcb(ch).children@.len() == 0);
                            assert(false);
                        }
                    }
                }
            }
            assert forall|k: int| 0 <= k < post.ready@.len() implies {
                let q = #[trigger] post.ready@[k] as int;
                &&& post.live(q)
                &&& !post.pcb(q).zombie
                &&& (post.has_current() ==> q != post.cur())
            } by {
                if k < pre.ready@.len() {
                    assert(pre.ready@[k] == post.ready@[k]);
                } else {
                    assert(post.ready@[k] == child_pid);
                }
            }
            assert forall|k1: int, k2: int|
                0 <= k1 < k2 < post.ready@.len()
                implies #[trigger] post.ready@[k1] != #[trigger] post.ready@[k2] by {
                if k2 == post.ready@.len() - 1 {
                    assert(post.ready@[k2] == child_pid);
                    assert((pre.ready@[k1] as int) < pre.procs@.len());
                }
            }
            assert forall|o: int| 0 <= o < post.objects@.len()
                implies post.obj_ok(#[trigger] post.objects@[o]) by {
                assert(pre.obj_ok(pre.objects@[o]));
            }
        }
    }

    /// The fork syscall: duplicates the running process into a new sibling.
    /// The address space is copied, the descriptor table's slots are new but
    /// share the parent's objects, and the child's syscall-return register
    /// is patched to 0 — the one register that must differ between parent
    /// and child — once the control block is fully formed, just before the
    /// child is handed to the scheduler.
    pub fn sys_fork(&mut self) -> (r: isize)
        requires
            old(self).wf(),
            old(self).has_current(),
            old(self).procs@.len() < PID_LIMIT,
        ensures
            final(self).wf(),
            fork_rel(*old(self), *final(self), r),
    {
        let c = self.current.unwrap();
        proof {
            assert(old(self).pcb_ok(c as int));
        }
        let child_pid = self.procs.len();
        let child = match &self.procs[c] {
            Some(pcb) => Pcb {
                pid: child_pid,
                parent: Some(c),
                children: Vec::new(),
                zombie: false,
                exit_code: 0,
                fd_table: copy_fdt(&pcb.fd_table),
                mem: copy_mem(&pcb.mem),
                trap: TrapContext { x10: 0, ..pcb.trap },
                priority: pcb.priority,
            },
            None => { proof { assert(false); } unreached() },
        };
        self.adopt_child(child);
        child_pid as isize
    }

    /// The exec syscall: replaces the running process's address space and
    /// trap context with a fresh image, preserving its pid, descriptor
    /// table and tree links.  The image lookup happens before any mutation,
    /// so a missing image leaves the process untouched and returns -1.
    pub fn sys_exec(&mut self, path: &Vec<u8>) -> (r: isize)
        requires
            old(self).wf(),
            old(self).has_current(),
        ensures
            final(self).wf(),
            exec_rel(*old(self), *final(self), path@, r),
    {
        let c = self.current.unwrap();
        proof {
            assert(old(self).pcb_ok(c as int));
        }
        let n = self.programs.len();
        let mut i: usize = 0;
        let mut entry: usize = 0;
        let mut found: bool = false;
        while i < n && !found
            invariant
                *self == *old(self),
                n == self.programs@.len(),
                i <= n,
                !found ==> forall|j: int| 0 <= j < i ==> (#[trigger] self.programs@[j]).name@ != path@,
                found ==> i < n && self.programs@[i as int].name@ == path@
                    && entry == self.programs@[i as int].entry
                    && (forall|j: int| 0 <= j < i ==> (#[trigger] self.programs@[j]).name@ != path@),
            decreases n - i + (if found { 0int } else { 1int }),
        {
            if bytes_eq(&self.programs[i].name, path) {
                entry = self.programs[i].entry;
                found = true;
            } else {
                i += 1;
            }
        }
        proof {
            lemma_find_prog_skip(self.programs@, path@, i as int);
        }
        if !found {
            return -1;
        }
        match &mut self.procs[c] {
            Some(pcb) => {
                pcb.mem = MemorySet::new();
                pcb.trap = TrapContext { x10: 0, sepc: entry };
            },
            None => { proof { assert(false); } },
        }
        proof {
            lemma_wf_update_pcb(*old(self), *self, c as int);
        }
        0
    }

    /// The spawn syscall: materializes a brand-new process directly from a
    /// named image — as a fork followed by an exec, but with no parent
    /// memory copied — registers it as a child of the running process and
    /// returns its pid.  An unknown image gives -1 with no effect.
    pub fn sys_spawn(&mut self, path: &Vec<u8>) -> (r: isize)
        requires
            old(self).wf(),
            old(self).has_current(),
            old(self).procs@.len() < PID_LIMIT,
        ensures
            final(self).wf(),
            spawn_rel(*old(self), *final(self), path@, r),
    {
        let c = self.current.unwrap();
        proof {
            assert(old(self).pcb_ok(c as int));
        }
        let n = self.programs.len();
        let mut i: usize = 0;
        let mut entry: usize = 0;
        let mut found: bool = false;
        while i < n && !found
            invariant
                *self == *old(self),
                n == self.programs@.len(),
                i <= n,
                !found ==> forall|j: int| 0 <= j < i ==> (#[trigger] self.programs@[j]).name@ != path@,
                found ==> i < n && self.programs@[i as int].name@ == path@
                    && entry == self.programs@[i as int].entry
                    && (forall|j: int| 0 <= j < i ==> (#[trigger] self.programs@[j]).name@ != path@),
            decreases n - i + (if found { 0int } else { 1int }),
        {
            if bytes_eq(&self.programs[i].name, path) {
                entry = self.programs[i].entry;
                found = true;
            } else {
                i += 1;
            }
        }
        proof {
            lemma_find_prog_skip(self.programs@, path@, i as int);
        }
        if !found {
            return -1;
        }
        let child_pid = self.procs.len();
        let child = match &self.procs[c] {
            Some(pcb) => Pcb {
                pid: child_pid,
                parent: Some(c),
                children: Vec::new(),
                zombie: false,
                exit_code: 0,
                fd_table: copy_fdt(&pcb.fd_table),
                mem: MemorySet::new(),
                trap: TrapContext { x10: 0, sepc: entry },
                priority: pcb.priority,
            },
            None => { proof { assert(false); } unreached() },
        };
        self.adopt_child(child);
        child_pid as isize
    }
}


/// The two control blocks agree on everything but the parent link.
pub open spec fn pcb_same_except_parent(a: Pcb, b: Pcb) -> bool {
    &&& b.pid == a.pid
    &&& b.children == a.children
    &&& b.zombie == a.zombie
    &&& b.exit_code == a.exit_code
    &&& b.fd_table == a.fd_table
    &&& b.mem == a.mem
    &&& b.trap == a.trap
    &&& b.priority == a.priority
}

/// The exit syscall's effect: the running process becomes a Zombie with the
/// given exit code, its address space is released, its children are handed
/// to the designated long-lived ancestor so they stay reapable, and the
/// scheduler's next ready task (if any) becomes the running process.  The
/// exiting process stays in its own parent's child list: only a later
/// waitpid removes it.
pub open spec fn exit_rel(pre: Kernel, post: Kernel, code: i32) -> bool {
    let c = pre.cur();
    let init = pre.init_pid as int;
    let kids = pre.cur_pcb().children@;
    &&& post.procs@.len() == pre.procs@.len()
    &&& post.procs@[c] is Some
    &&& {
        let p1 = post.pcb(c);
        &&& p1.pid == pre.cur_pcb().pid
        &&& p1.parent == pre.cur_pcb().parent
        &&& p1.zombie
        &&& p1.exit_code == code
        &&& p1.children@.len() == 0
        &&& p1.fd_table@ == pre.fdt()
        &&& p1.mem.pages@.len() == 0
        &&& p1.trap == pre.cur_pcb().trap
        &&& p1.priority == pre.cur_pcb().priority
    }
    &&& forall|m: int| 0 <= m < kids.len() ==> {
        let k = #[trigger] kids[m] as int;
        &&& post.procs@[k] is Some
        &&& pcb_same_except_parent(pre.pcb(k), post.pcb(k))
        &&& post.pcb(k).parent == Some(pre.init_pid)
    }
    &&& post.procs@[init] is Some
    &&& pcb_same_except_children(pre.pcb(init), post.pcb(init))
    &&& post.pcb(init).children@ == pre.pcb(init).children@ + kids
    &&& forall|j: int| 0 <= j < pre.procs@.len() && j != c && j != init
        && !kids.contains(j as usize) ==> post.procs@[j] == pre.procs@[j]
    &&& post.current == (if pre.ready@.len() > 0 { Some(pre.ready@[0]) } else { None::<usize> })
    &&& post.ready@ == (if pre.ready@.len() > 0 { pre.ready@.skip(1) } else { pre.ready@ })
    &&& post.objects@ == pre.objects@
    &&& post.pipes@ == pre.pipes@
    &&& post.fs == pre.fs
    &&& post.programs@ == pre.programs@
    &&& post.init_pid == pre.init_pid
    &&& post.time_ms == pre.time_ms
    &&& post.stdin_data@ == pre.stdin_data@
    &&& post.stdout_data@ == pre.stdout_data@
}

impl Kernel {
    /// The exit syscall: terminal.  Marks the running process a Zombie with
    /// the given code, releases its address space, reparents its children to
    /// the designated ancestor, and lets the next ready task run.  The
    /// designated ancestor itself never exits.
    pub fn sys_exit(&mut self, code: i32)
        requires
            old(self).wf(),
            old(self).has_current(),
            old(self).cur() != old(self).init_pid,
        ensures
            final(self).wf(),
            exit_rel(*old(self), *final(self), code),
    {
        let c = self.current.unwrap();
        proof {
            assert(old(self).pcb_ok(c as int));
            assert(old(self).pcb_ok(old(self).init_pid as int));
        }
        let init = self.init_pid;
        let kids = match &self.procs[c] {
            Some(pcb) => copy_usizes(&pcb.children),
            None => { proof { assert(false); } unreached() },
        };
        match &mut self.procs[c] {
            Some(pcb) => {
                pcb.zombie = true;
                pcb.exit_code = code;
                pcb.children = Vec::new();
                pcb.mem = MemorySet::new();
            },
            None => { proof { assert(false); } },
        }
        let ghost after_c = *self;
        let nk = kids.len();
        let mut m: usize = 0;
        while m < nk
            invariant
                old(self).wf(),
                old(self).has_current(),
                old(self).cur() == c as int,
                old(self).pcb_ok(c as int),
                c as int != old(self).init_pid,
                init == old(self).init_pid,
                nk == kids@.len(),
                kids@ == old(self).cur_pcb().children@,
                m <= nk,
                self.procs@.len() == old(self).procs@.len(),
                self.procs@[c as int] == after_c.procs@[c as int],
                after_c.procs@[c as int] is Some,
                after_c.pcb(c as int).pid == old(self).cur_pcb().pid,
                after_c.pcb(c as int).parent == old(self).cur_pcb().parent,
                after_c.pcb(c as int).zombie,
                after_c.pcb(c as int).exit_code == code,
                after_c.pcb(c as int).children@.len() == 0,
                after_c.pcb(c as int).fd_table@ == old(self).fdt(),
                after_c.pcb(c as int).mem.pages@.len() == 0,
                after_c.pcb(c as int).trap == old(self).cur_pcb().trap,
                after_c.pcb(c as int).priority == old(self).cur_pcb().priority,
                forall|j: int| 0 <= j < old(self).procs@.len() && j != c
                    && !kids@.contains(j as usize) ==> self.procs@[j] == old(self).procs@[j],
                forall|q: int| 0 <= q < m ==> {
                    let k = #[trigger] kids@[q] as int;
                    &&& self.procs@[k] is Some
                    &&& pcb_same_except_parent(old(self).pcb(k), self.pcb(k))
                    &&& self.pcb(k).parent == Some(init)
                },
                forall|q: int| m <= q < nk
                    ==> self.procs@[#[trigger] kids@[q] as int] == old(self).procs@[kids@[q] as int],
                self.objects@ == old(self).objects@,
                self.pipes@ == old(self).pipes@,
                self.fs == old(self).fs,
                self.programs@ == old(self).programs@,
                self.current == old(self).current,
                self.ready@ == old(self).ready@,
                self.init_pid == old(self).init_pid,
                self.time_ms == old(self).time_ms,
                self.stdin_data@ == old(self).stdin_data@,
                self.stdout_data@ == old(self).stdout_data@,
            decreases nk - m,
        {
            let k = kids[m];
            proof {
                assert(kids@[m as int] == k);
                assert(old(self).cur_pcb().children@[m as int] == k);
                assert((k as int) < old(self).procs@.len() && old(self).procs@[k as int] is Some);
                assert(k != c);
                assert(kids@.contains(k));
            }
            match &mut self.procs[k] {
                Some(pcb) => {
                    pcb.parent = Some(init);
                },
                None => { proof { assert(false); } },
            }
            proof {
                assert forall|q: int| 0 <= q < m + 1 implies {
                    let x = #[trigger] kids@[q] as int;
                    &&& self.procs@[x] is Some
                    &&& pcb_same_except_parent(old(self).pcb(x), self.pcb(x))
                    &&& self.pcb(x).parent == Some(init)
                } by {
                    if q < m && kids@[q] == k {
                        assert(false);
                    }
                }
            }
            m += 1;
        }
        let mut m2: usize = 0;
        let ghost init_children0 = old(self).pcb(init as int).children@;
        proof {
            assert(!kids@.contains(init));
            assert(self.procs@[init as int] == old(self).procs@[init as int]);
        }
        while m2 < nk
            invariant
                old(self).wf(),
                old(self).has_current(),
                old(self).cur() == c as int,
                old(self).pcb_ok(c as int),
                c as int != old(self).init_pid,
                init == old(self).init_pid,
                nk == kids@.len(),
                kids@ == old(self).cur_pcb().children@,
                !kids@.contains(init),
                m2 <= nk,
                init_children0 == old(self).pcb(init as int).children@,
                self.procs@.len() == old(self).procs@.len(),
                self.procs@[c as int] == after_c.procs@[c as int],
                after_c.procs@[c as int] is Some,
                after_c.pcb(c as int).pid == old(self).cur_pcb().pid,
                after_c.pcb(c as int).parent == old(self).cur_pcb().parent,
                after_c.pcb(c as int).zombie,
                after_c.pcb(c as int).exit_code == code,
                after_c.pcb(c as int).children@.len() == 0,
                after_c.pcb(c as int).fd_table@ == old(self).fdt(),
                after_c.pcb(c as int).mem.pages@.len() == 0,
                after_c.pcb(c as int).trap == old(self).cur_pcb().trap,
                after_c.pcb(c as int).priority == old(self).cur_pcb().priority,
                forall|j: int| 0 <= j < old(self).procs@.len() && j != c && j != init
                    && !kids@.contains(j as usize) ==> self.procs@[j] == old(self).procs@[j],
                forall|q: int| 0 <= q < nk ==> {
                    let k = #[trigger] kids@[q] as int;
                    &&& self.procs@[k] is Some
                    &&& pcb_same_except_parent(old(self).pcb(k), self.pcb(k))
                    &&& self.pcb(k).parent == Some(init)
                },
                self.procs@[init as int] is Some,
                pcb_same_except_children(old(self).pcb(init as int), self.pcb(init as int)),
                self.pcb(init as int).children@ == init_children0 + kids@.take(m2 as int),
                self.objects@ == old(self).objects@,
                self.pipes@ == old(self).pipes@,
                self.fs == old(self).fs,
                self.programs@ == old(self).programs@,
                self.current == old(self).current,
                self.ready@ == old(self).ready@,
                self.init_pid == old(self).init_pid,
                self.time_ms == old(self).time_ms,
                self.stdin_data@ == old(self).stdin_data@,
                self.stdout_data@ == old(self).stdout_data@,
            decreases nk - m2,
        {
            let k = kids[m2];
            match &mut self.procs[init] {
                Some(pcb) => {
                    pcb.children.push(k);
                },
                None => { proof { assert(false); } },
            }
            proof {
                assert(self.pcb(init as int).children@
                    =~= init_children0 + kids@.take(m2 as int + 1));
            }
            m2 += 1;
        }
        proof {
            assert(kids@.take(nk as int) =~= kids@);
        }
        if self.ready.len() > 0 {
            let nxt = self.ready.remove(0);
            self.current = Some(nxt);
        } else {
            self.current = None;
        }
        proof {
            let pre = *old(self);
            let post = *self;
            let cc = c as int;
            let ii = init as int;
            assert(post.pcb(ii).children@ == init_children0 + kids@);
            // liveness is preserved slot for slot
            assert forall|j: int| post.live(j) == pre.live(j) by {
                if 0 <= j < pre.procs@.len() {
                    if j == cc || j == ii || kids@.contains(j as usize) {
                    } else {
                        assert(post.procs@[j] == pre.procs@[j]);
                    }
                }
            }
            // membership in the new child lists maps back to the old ones
            assert forall|x: usize, p: int| post.is_child_of(x, p)
                implies (pre.is_child_of(x, p) && p != cc)
                    || (p == ii && (pre.is_child_of(x, ii) || pre.is_child_of(x, cc))) by {
                if p == cc {
                    assert(post.pcb(cc).children@.len() == 0);
                } else if p == ii {
                    let q = choose|q: int| 0 <= q < post.pcb(ii).children@.len()
                        && post.pcb(ii).children@[q] == x;
                    if q < init_children0.len() {
                        assert(pre.pcb(ii).children@[q] == x);
                        assert(pre.is_child_of(x, ii));
                    } else {
                        assert(kids@[q - init_children0.len()] == x);
                        assert(pre.is_child_of(x, cc));
                    }
                } else {
                    if kids@.contains(x)  {
                    }
                    assert(post.pcb(p).children@ == pre.pcb(p).children@);
                }
            }
            assert forall|p: int| post.live(p) implies #[trigger] post.pcb_ok(p) by {
                assert(pre.pcb_ok(p));
                if p == cc {
                } else if p == ii {
                    assert forall|k: int| 0 <= k < post.pcb(p).children@.len() implies {
                        let x = #[trigger] post.pcb(p).children@[k] as int;
                        &&& 0 <= x < post.procs@.len()
                        &&& post.procs@[x] is Some
                        &&& x != p
                        &&& x != post.init_pid
                    } by {
                        if k < init_children0.len() {
                            assert(post.pcb(p).children@[k] == pre.pcb(ii).children@[k]);
                        } else {
                            assert(post.pcb(p).children@[k] == kids@[k - init_children0.len()]);
                            assert(pre.pcb_ok(cc));
                        }
                    }
                    assert forall|k1: int, k2: int|
                        0 <= k1 < k2 < post.pcb(p).children@.len()
                        implies post.pcb(p).children@[k1] != post.pcb(p).children@[k2] by {
                        let n0 = init_children0.len() as int;
                        if k1 < n0 && k2 >= n0 {
                            let x = kids@[k2 - n0];
                            assert(pre.is_child_of(x, cc));
                            if pre.pcb(ii).children@[k1] == x {
                                assert(pre.is_child_of(x, ii));
                            }
                        }
                    }
                } else if kids@.contains(p as usize) {
                    assert(pcb_same_except_parent(pre.pcb(p), post.pcb(p)));
                } else {
                    assert(post.procs@[p] == pre.procs@[p]);
                }
            }
            assert forall|x: usize, p1: int, p2: int|
                post.is_child_of(x, p1) && post.is_child_of(x, p2) implies p1 == p2 by {
                if p1 != p2 {
                    if (pre.is_child_of(x, p1) || p1 == ii && pre.is_child_of(x, cc))
                        && (pre.is_child_of(x, p2) || p2 == ii && pre.is_child_of(x, cc)) {
                        if pre.is_child_of(x, p1) && pre.is_child_of(x, p2) {
                            assert(p1 == p2);
                        } else if pre.is_child_of(x, p1) && p2 == ii {
                            assert(pre.is_child_of(x, cc));
                            assert(p1 == cc);
                            assert(!post.is_child_of(x, cc));
                        } else if pre.is_child_of(x, p2) && p1 == ii {
                            assert(pre.is_child_of(x, cc));
                            assert(p2 == cc);
                            assert(!post.is_child_of(x, cc));
                        }
                    }
                }
            }
            assert forall|k: int| 0 <= k < post.ready@.len() implies {
                let q = #[trigger] post.ready@[k] as int;
                &&& post.live(q)
                &&& !post.pcb(q).zombie
                &&& (post.has_current() ==> q != post.cur())
            } by {
                let q0 = if pre.ready@.len() > 0 { k + 1 } else { k };
                assert(post.ready@[k] == pre.ready@[q0]);
                let q = post.ready@[k] as int;
                assert(pre.live(q) && !pre.pcb(q).zombie);
                assert(q != pre.cur());
                if q == ii {
                } else if kids@.contains(q as usize) {
                    assert(pcb_same_except_parent(pre.pcb(q), post.pcb(q)));
                } else {
                    assert(post.procs@[q] == pre.procs@[q]);
                }
            }
            assert forall|k1: int, k2: int|
                0 <= k1 < k2 < post.ready@.len()
                implies #[trigger] post.ready@[k1] != #[trigger] post.ready@[k2] by {
                if pre.ready@.len() > 0 {
                    assert(post.ready@[k1] == pre.ready@[k1 + 1]);
                    assert(post.ready@[k2] == pre.ready@[k2 + 1]);
                }
            }
            if post.has_current() {
                let q = post.cur();
                assert(pre.ready@.len() > 0 && q == pre.ready@[0]);
                assert(pre.live(q) && !pre.pcb(q).zombie);
                if q == ii {
                } else if kids@.contains(q as usize) {
                    assert(pcb_same_except_parent(pre.pcb(q), post.pcb(q)));
                } else {
                    assert(post.procs@[q] == pre.procs@[q]);
                }
            }
            assert forall|o: int| 0 <= o < post.objects@.len()
                implies post.obj_ok(#[trigger] post.objects@[o]) by {
                assert(pre.obj_ok(pre.objects@[o]));
            }
            assert(post.pcb(ii).parent is None);
            assert(!post.pcb(ii).zombie);
        }
    }
}


/// A child pid satisfies the waitpid filter: -1 matches any child, a
/// non-negative value matches exactly that pid.
pub open spec fn pid_matches(k: usize, pid: int) -> bool {
    pid == -1 || k as int == pid
}

/// Some child in the list satisfies the filter.
pub open spec fn has_match(children: Seq<usize>, pid: int) -> bool {
    exists|m: int| 0 <= m < children.len() && pid_matches(#[trigger] children[m], pid)
}

/// Index of the first child, scanning from `i`, that satisfies the filter
/// and is a Zombie; -1 when there is none.
pub open spec fn first_zombie_at(k: Kernel, children: Seq<usize>, pid: int, i: int) -> int
    decreases children.len() - i when 0 <= i <= children.len()
{
    if i >= children.len() {
        -1
    } else if pid_matches(children[i], pid) && k.pcb(children[i] as int).zombie {
        i
    } else {
        first_zombie_at(k, children, pid, i + 1)
    }
}

/// Index in the running process's child list of the child a waitpid call
/// reaps: the first matching Zombie in list order.
pub open spec fn first_zombie_match(k: Kernel, pid: int) -> int {
    first_zombie_at(k, k.cur_pcb().children@, pid, 0)
}

/// Skipping known non-reapable children does not change the scan's result.
pub proof fn lemma_first_zombie_skip(k: Kernel, children: Seq<usize>, pid: int, i: int)
    requires
        0 <= i <= children.len(),
        forall|j: int| 0 <= j < i
            ==> !(pid_matches(#[trigger] children[j], pid) && k.pcb(children[j] as int).zombie),
    ensures
        first_zombie_at(k, children, pid, 0) == first_zombie_at(k, children, pid, i),
    decreases i,
{
    if i > 0 {
        lemma_first_zombie_skip(k, children, pid, i - 1);
    }
}

/// The four bytes of an exit code, least significant first.
pub open spec fn i32_le_bytes(x: i32) -> Seq<u8> {
    seq![
        (x as u32) as u8,
        ((x as u32) >> 8u32) as u8,
        ((x as u32) >> 16u32) as u8,
        ((x as u32) >> 24u32) as u8,
    ]
}

/// The waitpid syscall's effect.  With no child matching the filter at all,
/// -1 and no change.  With matching children but no Zombie among them, -2
/// and no change: the caller is expected to yield and retry.  With the
/// output location not writable in the caller's own address space, -1 and
/// no change.  Otherwise the first matching Zombie in child-list order is
/// reaped: removed from the child list and deallocated — its slot in the
/// pid table is cleared, which is only sound because the list held the sole
/// handle — its exit code written through the memory bridge, its pid
/// returned.
pub open spec fn waitpid_rel(pre: Kernel, post: Kernel, pid: int, out_ptr: usize, r: isize) -> bool {
    let c = pre.cur();
    let kids = pre.cur_pcb().children@;
    let idx = first_zombie_match(pre, pid);
    &&& (!has_match(kids, pid) ==> r == -1 && post == pre)
    &&& (has_match(kids, pid) && idx < 0 ==> r == -2 && post == pre)
    &&& (has_match(kids, pid) && idx >= 0
        && !transfer_ok(pre.cur_pcb().mem, out_ptr as int, 4, PTE_W | PTE_U | PTE_V)
        ==> r == -1 && post == pre)
    &&& (has_match(kids, pid) && idx >= 0
        && transfer_ok(pre.cur_pcb().mem, out_ptr as int, 4, PTE_W | PTE_U | PTE_V)
        ==> {
        let kid = kids[idx] as int;
        &&& r == kid
        &&& post.procs@.len() == pre.procs@.len()
        &&& post.procs@[kid] is None
        &&& post.procs@[c] is Some
        &&& {
            let p1 = post.pcb(c);
            &&& p1.pid == pre.cur_pcb().pid
            &&& p1.parent == pre.cur_pcb().parent
            &&& p1.zombie == pre.cur_pcb().zombie
            &&& p1.exit_code == pre.cur_pcb().exit_code
            &&& p1.children@ == kids.remove(idx)
            &&& p1.fd_table@ == pre.fdt()
            &&& p1.trap == pre.cur_pcb().trap
            &&& p1.priority == pre.cur_pcb().priority
            &&& ms_wf(p1.mem)
            &&& mem_unchanged_outside(pre.cur_pcb().mem, p1.mem, out_ptr as int, 4)
            &&& forall|q: int| 0 <= q < 4
                ==> #[trigger] byte_at(p1.mem, out_ptr + q)
                    == i32_le_bytes(pre.pcb(kid).exit_code)[q]
        }
        &&& forall|j: int| 0 <= j < pre.procs@.len() && j != c && j != kid
            ==> post.procs@[j] == pre.procs@[j]
        &&& world_unchanged(pre, post)
    })
}

impl Kernel {
    /// The waitpid syscall: reaps the first matching Zombie child, writing
    /// its exit code to `out_ptr` in the caller's address space.  Returns
    /// the reaped pid; -1 when no child ever matched the filter (or the
    /// output location is not writable); -2 when matching children exist
    /// but none has exited yet.  Never blocks: callers poll on -2.
    pub fn sys_waitpid(&mut self, pid: isize, out_ptr: usize) -> (r: isize)
        requires
            old(self).wf(),
            old(self).has_current(),
        ensures
            final(self).wf(),
            waitpid_rel(*old(self), *final(self), pid as int, out_ptr, r),
    {
        let c = self.current.unwrap();
        proof {
            assert(old(self).pcb_ok(c as int));
        }
        let kids = match &self.procs[c] {
            Some(pcb) => copy_usizes(&pcb.children),
            None => { proof { assert(false); } unreached() },
        };
        let nk = kids.len();
        proof {
            assert forall|q: int| 0 <= q < nk
                implies (#[trigger] kids@[q] as int) < old(self).procs@.len() by {
                assert(old(self).cur_pcb().children@[q] == kids@[q]);
            }
        }
        // first: does any child match the filter at all?
        let mut m: usize = 0;
        let mut matched: bool = false;
        while m < nk && !matched
            invariant
                *self == *old(self),
                old(self).wf(),
                old(self).has_current(),
                old(self).cur() == c as int,
                nk == kids@.len(),
                kids@ == old(self).cur_pcb().children@,
                m <= nk,
                !matched ==> forall|j: int| 0 <= j < m ==> !pid_matches(#[trigger] kids@[j], pid as int),
                matched ==> m < nk && pid_matches(kids@[m as int], pid as int),
                forall|q: int| 0 <= q < nk ==> (#[trigger] kids@[q] as int) < old(self).procs@.len(),
            decreases nk - m + (if matched { 0int } else { 1int }),
        {
            let k = kids[m];
            let hit = if pid == -1 {
                true
            } else {
                pid >= 0 && k as isize == pid
            };
            proof {
                assert((k as int) < old(self).procs@.len());
                assert(old(self).procs@.len() <= PID_LIMIT);
                assert(hit == pid_matches(k, pid as int));
            }
            if hit {
                matched = true;
            } else {
                m += 1;
            }
        }
        if !matched {
            proof {
                assert(!has_match(kids@, pid as int));
            }
            return -1;
        }
        // second: the first matching Zombie in child-list order
        let mut z: usize = 0;
        let mut zfound: bool = false;
        while z < nk && !zfound
            invariant
                *self == *old(self),
                nk == kids@.len(),
                kids@ == old(self).cur_pcb().children@,
                old(self).wf(),
                old(self).has_current(),
                old(self).cur() == c as int,
                z <= nk,
                !zfound ==> forall|j: int| 0 <= j < z
                    ==> !(pid_matches(#[trigger] kids@[j], pid as int)
                        && old(self).pcb(kids@[j] as int).zombie),
                zfound ==> z < nk && pid_matches(kids@[z as int], pid as int)
                    && old(self).pcb(kids@[z as int] as int).zombie
                    && (forall|j: int| 0 <= j < z
                        ==> !(pid_matches(#[trigger] kids@[j], pid as int)
                            && old(self).pcb(kids@[j] as int).zombie)),
            decreases nk - z + (if zfound { 0int } else { 1int }),
        {
            let k = kids[z];
            proof {
                assert(old(self).pcb_ok(c as int));
                assert(old(self).cur_pcb().children@[z as int] == k);
                assert((k as int) < old(self).procs@.len() && old(self).procs@[k as int] is Some);
            }
            let hit = if pid == -1 {
                true
            } else {
                pid >= 0 && k as isize == pid
            };
            proof {
                assert((k as int) < old(self).procs@.len() <= PID_LIMIT);
                assert(hit == pid_matches(k, pid as int));
            }
            let zomb = match &self.procs[k] {
                Some(pcb) => pcb.zombie,
                None => { proof { assert(false); } false },
            };
            if hit && zomb {
                zfound = true;
            } else {
                z += 1;
            }
        }
        proof {
            lemma_first_zombie_skip(*old(self), kids@, pid as int, z as int);
        }
        if !zfound {
            proof {
                assert(first_zombie_match(*old(self), pid as int) == -1);
            }
            return -2;
        }
        // third: the output location must be writable before anything mutates
        let writable = match &self.procs[c] {
            Some(pcb) => check_range(&pcb.mem, out_ptr, 4, PTE_W | PTE_U | PTE_V),
            None => { proof { assert(false); } false },
        };
        if !writable {
            return -1;
        }
        // reap: remove from the child list, read the code, free the slot
        let kid = kids[z];
        proof {
            assert(first_zombie_match(*old(self), pid as int) == z as int);
            assert(kids@[z as int] == kid);
            assert((kid as int) < old(self).procs@.len() && old(self).procs@[kid as int] is Some);
            assert(kid != c);
        }
        let code = match &self.procs[kid] {
            Some(pcb) => pcb.exit_code,
            None => { proof { assert(false); } 0 },
        };
        match &mut self.procs[c] {
            Some(pcb) => {
                pcb.children.remove(z);
            },
            None => { proof { assert(false); } },
        }
        self.procs[kid] = None;
        let cu: u32 = #[verifier::truncate] (code as u32);
        let mut le: Vec<u8> = Vec::new();
        le.push(#[verifier::truncate] (cu as u8));
        le.push(#[verifier::truncate] ((cu >> 8u32) as u8));
        le.push(#[verifier::truncate] ((cu >> 16u32) as u8));
        le.push(#[verifier::truncate] ((cu >> 24u32) as u8));
        proof {
            assert(le@ =~= i32_le_bytes(code));
        }
        let wrote = match &mut self.procs[c] {
            Some(pcb) => write_user_bytes(&mut pcb.mem, out_ptr, &le, PTE_W | PTE_U | PTE_V),
            None => { proof { assert(false); } false },
        };
        proof {
            assert(wrote);
            let pre = *old(self);
            let post = *self;
            let cc = c as int;
            let kk = kid as int;
            assert(post.procs@[kk] is None);
            assert(post.procs@[cc] is Some);
            assert(post.pcb(cc).children@ == kids@.remove(z as int));
            // well-formedness
            assert forall|p: int| post.live(p) implies #[trigger] post.pcb_ok(p) by {
                assert(p != kk);
                assert(pre.live(p));
                assert(pre.pcb_ok(p));
                if p == cc {
                    assert forall|k2: int| 0 <= k2 < post.pcb(p).children@.len() implies {
                        let x = #[trigger] post.pcb(p).children@[k2] as int;
                        &&& 0 <= x < post.procs@.len()
                        &&& post.procs@[x] is Some
                        &&& x != p
                        &&& x != post.init_pid
                    } by {
                        let q0 = if k2 < z { k2 } else { k2 + 1 };
                        assert(post.pcb(p).children@[k2] == kids@[q0]);
                        assert(q0 != z);
                        if kids@[q0] == kid {
                            assert(kids@[q0] != kids@[z as int]);
                        }
                        assert((kids@[q0] as int) != kk);
                    }
                    assert forall|k1: int, k2: int|
                        0 <= k1 < k2 < post.pcb(p).children@.len()
                        implies post.pcb(p).children@[k1] != post.pcb(p).children@[k2] by {
                        let q1 = if k1 < z { k1 } else { k1 + 1 };
                        let q2 = if k2 < z { k2 } else { k2 + 1 };
                        assert(post.pcb(p).children@[k1] == kids@[q1]);
                        assert(post.pcb(p).children@[k2] == kids@[q2]);
                    }
                } else {
                    assert(post.procs@[p] == pre.procs@[p]);
                    assert forall|k2: int| 0 <= k2 < post.pcb(p).children@.len() implies {
                        let x = #[trigger] post.pcb(p).children@[k2] as int;
                        &&& 0 <= x < post.procs@.len()
                        &&& post.procs@[x] is Some
                        &&& x != p
                        &&& x != post.init_pid
                    } by {
                        let x = post.pcb(p).children@[k2];
                        if x == kid {
                            assert(pre.is_child_of(x, p));
                            assert(pre.is_child_of(kid, cc));
                            assert(p == cc);
                            assert(false);
                        }
                    }
                }
            }
            assert forall|x: usize, p1: int, p2: int|
                post.is_child_of(x, p1) && post.is_child_of(x, p2) implies p1 == p2 by {
                assert forall|p: int| post.is_child_of(x, p) implies pre.is_child_of(x, p) by {
                    if p == cc {
                        let q = choose|q: int| 0 <= q < post.pcb(cc).children@.len()
                            && post.pcb(cc).children@[q] == x;
                        let q0 = if q < z { q } else { q + 1 };
                        assert(kids@[q0] == x);
                    } else {
                        assert(post.procs@[p] == pre.procs@[p]);
                    }
                }
            }
            assert forall|k2: int| 0 <= k2 < post.ready@.len() implies {
                let q = #[trigger] post.ready@[k2] as int;
                &&& post.live(q)
                &&& !post.pcb(q).zombie
                &&& (post.has_current() ==> q != post.cur())
            } by {
                let q = post.ready@[k2] as int;
                assert(pre.live(q) && !pre.pcb(q).zombie);
                assert(q != kk);
                if q != cc {
                    assert(post.procs@[q] == pre.procs@[q]);
                }
            }
            assert(cc != kk && post.init_pid as int != kk);
            assert(post.live(post.init_pid as int));
            assert forall|o: int| 0 <= o < post.objects@.len()
                implies post.obj_ok(#[trigger] post.objects@[o]) by {
                assert(pre.obj_ok(pre.objects@[o]));
            }
        }
        kid as isize
    }
}


/// Removes and returns the first `n` bytes of a buffer.
fn take_front(v: &mut Vec<u8>, n: usize) -> (r: Vec<u8>)
    requires
        n <= old(v)@.len(),
    ensures
        r@ == old(v)@.take(n as int),
        final(v)@ == old(v)@.skip(n as int),
{
    let mut out: Vec<u8> = Vec::new();
    let mut i: usize = 0;
    while i < n
        invariant
            v@ == old(v)@,
            n <= v@.len(),
            i <= n,
            out@ == v@.take(i as int),
        decreases n - i,
    {
        let b = v[i];
        out.push(b);
        proof {
            assert(out@ =~= v@.take(i + 1));
        }
        i += 1;
    }
    let len = v.len();
    let mut rest: Vec<u8> = Vec::new();
    let mut j: usize = n;
    while j < len
        invariant
            v@ == old(v)@,
            n <= v@.len(),
            len == v@.len(),
            n <= j <= len,
            rest@ == v@.subrange(n as int, j as int),
        decreases len - j,
    {
        let b = v[j];
        rest.push(b);
        proof {
            assert(rest@ =~= v@.subrange(n as int, j + 1));
        }
        j += 1;
    }
    proof {
        assert(rest@ =~= old(v)@.skip(n as int));
    }
    *v = rest;
    out
}

/// The eight bytes of a 64-bit value, least significant first.
pub open spec fn u64_le(x: u64) -> Seq<u8> {
    seq![
        x as u8,
        (x >> 8u64) as u8,
        (x >> 16u64) as u8,
        (x >> 24u64) as u8,
        (x >> 32u64) as u8,
        (x >> 40u64) as u8,
        (x >> 48u64) as u8,
        (x >> 56u64) as u8,
    ]
}

/// The four bytes of a 32-bit value, least significant first.
pub open spec fn u32_le(x: u32) -> Seq<u8> {
    seq![
        x as u8,
        (x >> 8u32) as u8,
        (x >> 16u32) as u8,
        (x >> 24u32) as u8,
    ]
}

/// Pushes the eight little-endian bytes of `x`.
fn push_u64_le(out: &mut Vec<u8>, x: u64)
    ensures
        final(out)@ == old(out)@ + u64_le(x),
{
    out.push(#[verifier::truncate] (x as u8));
    out.push(#[verifier::truncate] ((x >> 8u64) as u8));
    out.push(#[verifier::truncate] ((x >> 16u64) as u8));
    out.push(#[verifier::truncate] ((x >> 24u64) as u8));
    out.push(#[verifier::truncate] ((x >> 32u64) as u8));
    out.push(#[verifier::truncate] ((x >> 40u64) as u8));
    out.push(#[verifier::truncate] ((x >> 48u64) as u8));
    out.push(#[verifier::truncate] ((x >> 56u64) as u8));
    proof {
        assert(final(out)@ =~= old(out)@ + u64_le(x));
    }
}

/// Pushes the four little-endian bytes of `x`.
fn push_u32_le(out: &mut Vec<u8>, x: u32)
    ensures
        final(out)@ == old(out)@ + u32_le(x),
{
    out.push(#[verifier::truncate] (x as u8));
    out.push(#[verifier::truncate] ((x >> 8u32) as u8));
    out.push(#[verifier::truncate] ((x >> 16u32) as u8));
    out.push(#[verifier::truncate] ((x >> 24u32) as u8));
    proof {
        assert(final(out)@ =~= old(out)@ + u32_le(x));
    }
}

/// Bytes readable through a descriptor's object right now: the pending
/// console input, the pipe's buffered bytes, or the file's contents from
/// the object's offset on.
pub open spec fn read_src(k: Kernel, fd: int) -> Seq<u8> {
    match k.fd_obj(fd).kind {
        ObjKind::Stdin => k.stdin_data@,
        ObjKind::PipeRead { pipe } => k.pipes@[pipe as int].data@,
        ObjKind::File { inode, offset } => {
            if offset <= k.fs.inodes@[inode as int]@.len() {
                k.fs.inodes@[inode as int]@.skip(offset as int)
            } else {
                Seq::empty()
            }
        },
        _ => Seq::empty(),
    }
}

/// Required permissions on a read destination in user memory.
pub open spec fn read_perm() -> u8 {
    PTE_W | PTE_U | PTE_V
}

/// Required permissions on a write source in user memory.
pub open spec fn write_perm() -> u8 {
    PTE_R | PTE_U | PTE_V
}

/// The read syscall's effect.  A bad or non-readable descriptor, or a
/// destination range that fails translation anywhere, gives -1 with no
/// effect — no partial transfer ever happens.  Otherwise as many bytes as
/// the object holds, at most `len`, land at `buf` in the caller's address
/// space, the object's source advances past them, and their number comes
/// back.
pub open spec fn read_rel(pre: Kernel, post: Kernel, fd: usize, buf: usize, len: usize, r: isize) -> bool {
    let c = pre.cur();
    let denied = !pre.fd_ok(fd as int) || !pre.fd_obj(fd as int).readable;
    &&& (denied ==> r == -1 && post == pre)
    &&& (!denied && !transfer_ok(pre.cur_pcb().mem, buf as int, len as int, read_perm())
        ==> r == -1 && post == pre)
    &&& (!denied && transfer_ok(pre.cur_pcb().mem, buf as int, len as int, read_perm()) ==> {
        let src = read_src(pre, fd as int);
        let n = if len as int <= src.len() { len as int } else { src.len() as int };
        &&& r == n
        &&& post.procs@.len() == pre.procs@.len()
        &&& (forall|j: int| 0 <= j < pre.procs@.len() && j != c ==> post.procs@[j] == pre.procs@[j])
        &&& post.procs@[c] is Some
        &&& pcb_same_except_mem(pre.cur_pcb(), post.pcb(c))
        &&& ms_wf(post.pcb(c).mem)
        &&& mem_unchanged_outside(pre.cur_pcb().mem, post.pcb(c).mem, buf as int, n)
        &&& (forall|q: int| 0 <= q < n ==> #[trigger] byte_at(post.pcb(c).mem, buf + q) == src[q])
        &&& match pre.fd_obj(fd as int).kind {
            ObjKind::Stdin => post.stdin_data@ == pre.stdin_data@.skip(n)
                && post.objects@ == pre.objects@
                && post.pipes@ == pre.pipes@
                && post.fs == pre.fs,
            ObjKind::PipeRead { pipe } => {
                &&& post.pipes@.len() == pre.pipes@.len()
                &&& post.pipes@[pipe as int].data@ == pre.pipes@[pipe as int].data@.skip(n)
                &&& (forall|q: int| 0 <= q < pre.pipes@.len() && q != pipe
                    ==> post.pipes@[q] == pre.pipes@[q])
                &&& post.objects@ == pre.objects@
                &&& post.stdin_data@ == pre.stdin_data@
                &&& post.fs == pre.fs
            },
            ObjKind::File { inode, offset } => {
                let eo = if offset <= pre.fs.inodes@[inode as int]@.len() {
                    offset as int
                } else {
                    pre.fs.inodes@[inode as int]@.len() as int
                };
                &&& post.objects@ == pre.objects@.update(pre.fd_entry(fd as int).obj as int,
                    FileObject {
                        readable: pre.fd_obj(fd as int).readable,
                        writable: pre.fd_obj(fd as int).writable,
                        kind: ObjKind::File { inode, offset: (eo + n) as usize },
                    })
                &&& post.fs == pre.fs
                &&& post.pipes@ == pre.pipes@
                &&& post.stdin_data@ == pre.stdin_data@
            },
            _ => false,
        }
        &&& post.programs@ == pre.programs@
        &&& post.current == pre.current
        &&& post.ready@ == pre.ready@
        &&& post.init_pid == pre.init_pid
        &&& post.time_ms == pre.time_ms
        &&& post.stdout_data@ == pre.stdout_data@
    })
}

/// The write syscall's effect.  A bad or non-writable descriptor, or a
/// source range that fails translation anywhere, gives -1 with no effect.
/// Otherwise all `len` bytes read from the caller's memory land in the
/// object — appended to the console output or the pipe buffer, or spliced
/// into the file at its offset — and `len` comes back.
pub open spec fn write_rel(pre: Kernel, post: Kernel, fd: usize, buf: usize, len: usize, r: isize) -> bool {
    let c = pre.cur();
    let denied = !pre.fd_ok(fd as int) || !pre.fd_obj(fd as int).writable;
    let data = user_bytes(pre.cur_pcb().mem, buf as int, len as int);
    &&& (denied ==> r == -1 && post == pre)
    &&& (!denied && !transfer_ok(pre.cur_pcb().mem, buf as int, len as int, write_perm())
        ==> r == -1 && post == pre)
    &&& (!denied && transfer_ok(pre.cur_pcb().mem, buf as int, len as int, write_perm()) ==> {
        &&& match pre.fd_obj(fd as int).kind {
            ObjKind::Stdout => {
                &&& r == len as int
                &&& post.stdout_data@ == pre.stdout_data@ + data
                &&& post.procs@ == pre.procs@
                &&& post.objects@ == pre.objects@
                &&& post.pipes@ == pre.pipes@
                &&& post.fs == pre.fs
                &&& post.stdin_data@ == pre.stdin_data@
            },
            ObjKind::PipeWrite { pipe } => {
                &&& r == len as int
                &&& post.pipes@.len() == pre.pipes@.len()
                &&& post.pipes@[pipe as int].data@ == pre.pipes@[pipe as int].data@ + data
                &&& (forall|q: int| 0 <= q < pre.pipes@.len() && q != pipe
                    ==> post.pipes@[q] == pre.pipes@[q])
                &&& post.procs@ == pre.procs@
                &&& post.objects@ == pre.objects@
                &&& post.fs == pre.fs
                &&& post.stdin_data@ == pre.stdin_data@
                &&& post.stdout_data@ == pre.stdout_data@
            },
            ObjKind::File { inode, offset } => {
                let flen = pre.fs.inodes@[inode as int]@.len() as int;
                let eo = if offset <= flen { offset as int } else { flen };
                &&& (eo + len > usize::MAX ==> r == -1 && post == pre)
                &&& (eo + len <= usize::MAX ==> {
                    &&& r == len as int
                    &&& post.fs.names@ == pre.fs.names@
                    &&& post.fs.inodes@.len() == pre.fs.inodes@.len()
                    &&& (forall|q: int| 0 <= q < pre.fs.inodes@.len() && q != inode
                        ==> post.fs.inodes@[q] == pre.fs.inodes@[q])
                    &&& post.fs.inodes@[inode as int]@
                        == splice_bytes(pre.fs.inodes@[inode as int]@, eo, data)
                    &&& post.objects@ == pre.objects@.update(pre.fd_entry(fd as int).obj as int,
                        FileObject {
                            readable: pre.fd_obj(fd as int).readable,
                            writable: pre.fd_obj(fd as int).writable,
                            kind: ObjKind::File { inode, offset: (eo + len) as usize },
                        })
                    &&& post.procs@ == pre.procs@
                    &&& post.pipes@ == pre.pipes@
                    &&& post.stdin_data@ == pre.stdin_data@
                    &&& post.stdout_data@ == pre.stdout_data@
                })
            },
            _ => false,
        }
        &&& post.programs@ == pre.programs@
        &&& post.current == pre.current
        &&& post.ready@ == pre.ready@
        &&& post.init_pid == pre.init_pid
        &&& post.time_ms == pre.time_ms
    })
}

impl Kernel {
    /// The read syscall: moves up to `len` bytes from the object behind
    /// `fd` into the caller's memory at `buf`.  The whole destination range
    /// is checked through the memory bridge before anything is consumed, so
    /// a range that spans an unmapped or non-writable page gives -1 and no
    /// partial transfer.
    pub fn sys_read(&mut self, fd: usize, buf: usize, len: usize) -> (r: isize)
        requires
            old(self).wf(),
            old(self).has_current(),
            len <= 0x3FFF_FFFF,
        ensures
            final(self).wf(),
            read_rel(*old(self), *final(self), fd, buf, len, r),
    {
        let c = self.current.unwrap();
        proof {
            assert(old(self).pcb_ok(c as int));
        }
        let e = match &self.procs[c] {
            Some(pcb) => {
                if fd < pcb.fd_table.len() {
                    pcb.fd_table[fd]
                } else {
                    None
                }
            },
            None => None,
        };
        let e = match e {
            Some(e) => e,
            None => {
                return -1;
            },
        };
        let obj = self.objects[e.obj];
        proof {
            assert(old(self).obj_ok(old(self).objects@[e.obj as int]));
        }
        if !obj.readable {
            return -1;
        }
        let ok = match &self.procs[c] {
            Some(pcb) => check_range(&pcb.mem, buf, len, PTE_W | PTE_U | PTE_V),
            None => { proof { assert(false); } false },
        };
        if !ok {
            return -1;
        }
        let bytes: Vec<u8> = match obj.kind {
            ObjKind::Stdin => {
                let avail = self.stdin_data.len();
                let n = if len <= avail { len } else { avail };
                let b = take_front(&mut self.stdin_data, n);
                proof {
                    assert(b@ =~= read_src(*old(self), fd as int).take(
                        if len as int <= read_src(*old(self), fd as int).len() { len as int }
                        else { read_src(*old(self), fd as int).len() as int }));
                }
                b
            },
            ObjKind::PipeRead { pipe } => {
                let avail = self.pipes[pipe].data.len();
                let n = if len <= avail { len } else { avail };
                let b = take_front(&mut self.pipes[pipe].data, n);
                proof {
                    assert(b@ =~= read_src(*old(self), fd as int).take(
                        if len as int <= read_src(*old(self), fd as int).len() { len as int }
                        else { read_src(*old(self), fd as int).len() as int }));
                }
                b
            },
            ObjKind::File { inode, offset } => {
                let dlen = self.fs.inodes[inode].len();
                let eo = if offset <= dlen { offset } else { dlen };
                let b = self.fs.read_at(inode, eo, len);
                let n = b.len();
                self.objects[e.obj] = FileObject {
                    readable: obj.readable,
                    writable: obj.writable,
                    kind: ObjKind::File { inode, offset: eo + n },
                };
                proof {
                    let src = read_src(*old(self), fd as int);
                    assert(b@ =~= src.take(
                        if len as int <= src.len() { len as int } else { src.len() as int }));
                }
                b
            },
            ObjKind::Stdout => { proof { assert(false); } unreached() },
            ObjKind::PipeWrite { pipe } => { proof { assert(false); } unreached() },
        };
        let n = bytes.len();
        proof {
            crate::mem::lemma_transfer_prefix(old(self).cur_pcb().mem, buf as int, len as int,
                n as int, PTE_W | PTE_U | PTE_V);
        }
        let wrote = match &mut self.procs[c] {
            Some(pcb) => write_user_bytes(&mut pcb.mem, buf, &bytes, PTE_W | PTE_U | PTE_V),
            None => { proof { assert(false); } false },
        };
        proof {
            assert(wrote);
            assert forall|o: int| 0 <= o < self.objects@.len()
                implies self.obj_ok(#[trigger] self.objects@[o]) by {
                assert(old(self).obj_ok(old(self).objects@[o]));
            }
            lemma_wf_update_pcb(*old(self), *self, c as int);
        }
        n as isize
    }

    /// The write syscall: moves `len` bytes from the caller's memory at
    /// `buf` into the object behind `fd`.  The whole source range is
    /// checked through the memory bridge first, so a range that spans an
    /// unmapped or non-readable page gives -1 and no partial transfer.
    pub fn sys_write(&mut self, fd: usize, buf: usize, len: usize) -> (r: isize)
        requires
            old(self).wf(),
            old(self).has_current(),
            len <= 0x3FFF_FFFF,
        ensures
            final(self).wf(),
            write_rel(*old(self), *final(self), fd, buf, len, r),
    {
        let c = self.current.unwrap();
        proof {
            assert(old(self).pcb_ok(c as int));
        }
        let e = match &self.procs[c] {
            Some(pcb) => {
                if fd < pcb.fd_table.len() {
                    pcb.fd_table[fd]
                } else {
                    None
                }
            },
            None => None,
        };
        let e = match e {
            Some(e) => e,
            None => {
                return -1;
            },
        };
        let obj = self.objects[e.obj];
        proof {
            assert(old(self).obj_ok(old(self).objects@[e.obj as int]));
        }
        if !obj.writable {
            return -1;
        }
        let bytes = match &self.procs[c] {
            Some(pcb) => read_user_bytes(&pcb.mem, buf, len, PTE_R | PTE_U | PTE_V),
            None => { proof { assert(false); } None },
        };
        let bytes = match bytes {
            Some(b) => b,
            None => {
                return -1;
            },
        };
        match obj.kind {
            ObjKind::Stdout => {
                let blen = bytes.len();
                let mut i: usize = 0;
                while i < blen
                    invariant
                        blen == bytes@.len(),
                        i <= blen,
                        self.stdout_data@ == old(self).stdout_data@ + bytes@.take(i as int),
                        self.procs@ == old(self).procs@,
                        self.objects@ == old(self).objects@,
                        self.pipes@ == old(self).pipes@,
                        self.fs == old(self).fs,
                        self.programs@ == old(self).programs@,
                        self.current == old(self).current,
                        self.ready@ == old(self).ready@,
                        self.init_pid == old(self).init_pid,
                        self.time_ms == old(self).time_ms,
                        self.stdin_data@ == old(self).stdin_data@,
                        old(self).wf(),
                    decreases blen - i,
                {
                    let b = bytes[i];
                    self.stdout_data.push(b);
                    proof {
                        assert(self.stdout_data@ =~= old(self).stdout_data@ + bytes@.take(i + 1));
                    }
                    i += 1;
                }
                proof {
                    assert(bytes@.take(blen as int) =~= bytes@);
                    lemma_wf_frame(*old(self), *self);
                }
                len as isize
            },
            ObjKind::PipeWrite { pipe } => {
                let blen = bytes.len();
                let mut i: usize = 0;
                while i < blen
                    invariant
                        blen == bytes@.len(),
                        i <= blen,
                        (pipe as int) < self.pipes@.len(),
                        self.pipes@.len() == old(self).pipes@.len(),
                        self.pipes@[pipe as int].data@
                            == old(self).pipes@[pipe as int].data@ + bytes@.take(i as int),
                        forall|q: int| 0 <= q < old(self).pipes@.len() && q != pipe
                            ==> self.pipes@[q] == old(self).pipes@[q],
                        self.procs@ == old(self).procs@,
                        self.objects@ == old(self).objects@,
                        self.fs == old(self).fs,
                        self.programs@ == old(self).programs@,
                        self.current == old(self).current,
                        self.ready@ == old(self).ready@,
                        self.init_pid == old(self).init_pid,
                        self.time_ms == old(self).time_ms,
                        self.stdin_data@ == old(self).stdin_data@,
                        self.stdout_data@ == old(self).stdout_data@,
                        old(self).wf(),
                    decreases blen - i,
                {
                    let b = bytes[i];
                    self.pipes[pipe].data.push(b);
                    proof {
                        assert(self.pipes@[pipe as int].data@
                            =~= old(self).pipes@[pipe as int].data@ + bytes@.take(i + 1));
                    }
                    i += 1;
                }
                proof {
                    assert(bytes@.take(blen as int) =~= bytes@);
                    lemma_wf_frame(*old(self), *self);
                }
                len as isize
            },
            ObjKind::File { inode, offset } => {
                let dlen = self.fs.inodes[inode].len();
                let eo = if offset <= dlen { offset } else { dlen };
                if len > usize::MAX - eo {
                    return -1;
                }
                self.fs.write_at(inode, eo, &bytes);
                self.objects[e.obj] = FileObject {
                    readable: obj.readable,
                    writable: obj.writable,
                    kind: ObjKind::File { inode, offset: eo + len },
                };
                proof {
                    assert forall|o: int| 0 <= o < self.objects@.len()
                        implies self.obj_ok(#[trigger] self.objects@[o]) by {
                        assert(old(self).obj_ok(old(self).objects@[o]));
                    }
                    assert forall|p: int| self.live(p) implies #[trigger] self.pcb_ok(p) by {
                        assert(old(self).pcb_ok(p));
                        assert(self.pcb(p) == old(self).pcb(p));
                    }
                    assert forall|x: usize, p1: int, p2: int|
                        self.is_child_of(x, p1) && self.is_child_of(x, p2) implies p1 == p2 by {
                        assert(old(self).is_child_of(x, p1) && old(self).is_child_of(x, p2));
                    }
                }
                len as isize
            },
            ObjKind::Stdin => { proof { assert(false); } unreached() },
            ObjKind::PipeRead { pipe } => { proof { assert(false); } unreached() },
        }
    }
}


/// The open flags are a combination of the known bits, and not both
/// write-only and read-write at once.
pub open spec fn open_flags_ok(flags: u32) -> bool {
    flags & !(OPEN_WRONLY | OPEN_RDWR | OPEN_CREATE | OPEN_TRUNC) == 0 && flags & 3u32 != 3u32
}

/// Reading is permitted under these open flags.
pub open spec fn open_readable(flags: u32) -> bool {
    flags & 3u32 == 0u32 || flags & 3u32 == 2u32
}

/// Writing is permitted under these open flags.
pub open spec fn open_writable(flags: u32) -> bool {
    flags & 3u32 == 1u32 || flags & 3u32 == 2u32
}

/// The open syscall's effect.  Unknown or contradictory flags, or a path
/// that does not resolve and is not being created, give -1 with no effect.
/// Otherwise a new object is bound to the file — created fresh, or
/// truncated when the create or truncate flag says so — and installed in
/// the lowest free descriptor slot, whose number comes back.
pub open spec fn open_rel(pre: Kernel, post: Kernel, path: Seq<u8>, flags: u32, r: isize) -> bool {
    let c = pre.cur();
    let looked = name_lookup(pre.fs, path);
    let create = flags & OPEN_CREATE != 0;
    let trunc = flags & OPEN_TRUNC != 0;
    &&& (!open_flags_ok(flags) ==> r == -1 && post == pre)
    &&& (open_flags_ok(flags) && looked == -1 && !create ==> r == -1 && post == pre)
    &&& (open_flags_ok(flags) && (looked >= 0 || create) ==> {
        let ino = if looked >= 0 {
            pre.fs.names@[looked].inode as int
        } else {
            pre.fs.inodes@.len() as int
        };
        &&& r == lowest_free(pre.fdt())
        &&& post.procs@.len() == pre.procs@.len()
        &&& (forall|j: int| 0 <= j < pre.procs@.len() && j != c ==> post.procs@[j] == pre.procs@[j])
        &&& post.procs@[c] is Some
        &&& pcb_same_except_fdt(pre.cur_pcb(), post.pcb(c))
        &&& post.pcb(c).fd_table@ == fdt_after_alloc(pre.fdt(),
            FdEntry { obj: pre.objects@.len() as usize, backing: ino as usize })
        &&& post.objects@ == pre.objects@.push(FileObject {
            readable: open_readable(flags),
            writable: open_writable(flags),
            kind: ObjKind::File { inode: ino as usize, offset: 0 },
        })
        &&& post.fs.names@.len() == (if looked >= 0 { pre.fs.names@.len() as int } else { pre.fs.names@.len() as int + 1 })
        &&& (forall|j: int| 0 <= j < pre.fs.names@.len() ==> post.fs.names@[j] == pre.fs.names@[j])
        &&& (looked == -1 ==> post.fs.names@[pre.fs.names@.len() as int].path@ == path
            && post.fs.names@[pre.fs.names@.len() as int].inode as int == ino
            && nlink_of(post.fs, ino) == 1)
        &&& post.fs.inodes@.len() == (if looked >= 0 { pre.fs.inodes@.len() as int } else { pre.fs.inodes@.len() as int + 1 })
        &&& (forall|j: int| 0 <= j < pre.fs.inodes@.len() && j != ino
            ==> post.fs.inodes@[j] == pre.fs.inodes@[j])
        &&& ((looked == -1 || create || trunc) ==> post.fs.inodes@[ino]@.len() == 0)
        &&& (looked >= 0 && !create && !trunc ==> post.fs == pre.fs)
        &&& post.pipes@ == pre.pipes@
        &&& post.programs@ == pre.programs@
        &&& post.current == pre.current
        &&& post.ready@ == pre.ready@
        &&& post.init_pid == pre.init_pid
        &&& post.time_ms == pre.time_ms
        &&& post.stdin_data@ == pre.stdin_data@
        &&& post.stdout_data@ == pre.stdout_data@
    })
}

/// The pipe syscall's effect.  When the two-word output buffer is writable,
/// a fresh pipe and its two endpoint objects come into being, the read and
/// write ends land in the two lowest free descriptor slots, the two
/// descriptor numbers are written to the buffer as 64-bit little-endian
/// words, and 0 comes back; otherwise -1, with no effect.
pub open spec fn pipe_rel(pre: Kernel, post: Kernel, out_ptr: usize, r: isize) -> bool {
    let c = pre.cur();
    let fd_r = lowest_free(pre.fdt());
    let t1 = fdt_after_alloc(pre.fdt(), FdEntry { obj: pre.objects@.len() as usize, backing: ANON_BACKING });
    let fd_w = lowest_free(t1);
    &&& (!transfer_ok(pre.cur_pcb().mem, out_ptr as int, 16, read_perm()) ==> r == -1 && post == pre)
    &&& (transfer_ok(pre.cur_pcb().mem, out_ptr as int, 16, read_perm()) ==> {
        &&& r == 0
        &&& post.pipes@.len() == pre.pipes@.len() + 1
        &&& (forall|q: int| 0 <= q < pre.pipes@.len() ==> post.pipes@[q] == pre.pipes@[q])
        &&& post.pipes@[pre.pipes@.len() as int].data@.len() == 0
        &&& post.objects@ == pre.objects@
            .push(FileObject { readable: true, writable: false,
                kind: ObjKind::PipeRead { pipe: pre.pipes@.len() as usize } })
            .push(FileObject { readable: false, writable: true,
                kind: ObjKind::PipeWrite { pipe: pre.pipes@.len() as usize } })
        &&& post.procs@.len() == pre.procs@.len()
        &&& (forall|j: int| 0 <= j < pre.procs@.len() && j != c ==> post.procs@[j] == pre.procs@[j])
        &&& post.procs@[c] is Some
        &&& post.pcb(c).fd_table@ == fdt_after_alloc(t1,
            FdEntry { obj: (pre.objects@.len() + 1) as usize, backing: ANON_BACKING })
        &&& post.pcb(c).pid == pre.cur_pcb().pid
        &&& post.pcb(c).parent == pre.cur_pcb().parent
        &&& post.pcb(c).children == pre.cur_pcb().children
        &&& post.pcb(c).zombie == pre.cur_pcb().zombie
        &&& post.pcb(c).exit_code == pre.cur_pcb().exit_code
        &&& post.pcb(c).trap == pre.cur_pcb().trap
        &&& post.pcb(c).priority == pre.cur_pcb().priority
        &&& ms_wf(post.pcb(c).mem)
        &&& mem_unchanged_outside(pre.cur_pcb().mem, post.pcb(c).mem, out_ptr as int, 16)
        &&& user_bytes(post.pcb(c).mem, out_ptr as int, 16)
            == u64_le(fd_r as u64) + u64_le(fd_w as u64)
        &&& post.fs == pre.fs
        &&& post.programs@ == pre.programs@
        &&& post.current == pre.current
        &&& post.ready@ == pre.ready@
        &&& post.init_pid == pre.init_pid
        &&& post.time_ms == pre.time_ms
        &&& post.stdin_data@ == pre.stdin_data@
        &&& post.stdout_data@ == pre.stdout_data@
    })
}

/// The record the stat syscall writes: device 0, the backing identifier as
/// the inode number, the regular-file tag, the hard-link count, and
/// reserved padding, 80 bytes in all.
pub open spec fn stat_bytes(k: Kernel, fd: int) -> Seq<u8> {
    u64_le(0u64)
        + u64_le(k.fd_entry(fd).backing as u64)
        + u32_le(crate::flags::STAT_MODE_FILE)
        + u32_le(nlink_of(k.fs, k.fd_entry(fd).backing as int) as u32)
        + Seq::new(56, |i: int| 0u8)
}

/// The fstat syscall's effect: a bad descriptor or an unwritable output
/// range gives -1 with no effect; otherwise the 80-byte record lands at
/// `out_ptr` in the caller's address space and 0 comes back.
pub open spec fn fstat_rel(pre: Kernel, post: Kernel, fd: usize, out_ptr: usize, r: isize) -> bool {
    let c = pre.cur();
    &&& (!pre.fd_ok(fd as int) ==> r == -1 && post == pre)
    &&& (pre.fd_ok(fd as int)
        && !transfer_ok(pre.cur_pcb().mem, out_ptr as int, 80, read_perm())
        ==> r == -1 && post == pre)
    &&& (pre.fd_ok(fd as int)
        && transfer_ok(pre.cur_pcb().mem, out_ptr as int, 80, read_perm()) ==> {
        &&& r == 0
        &&& post.procs@.len() == pre.procs@.len()
        &&& (forall|j: int| 0 <= j < pre.procs@.len() && j != c ==> post.procs@[j] == pre.procs@[j])
        &&& post.procs@[c] is Some
        &&& pcb_same_except_mem(pre.cur_pcb(), post.pcb(c))
        &&& ms_wf(post.pcb(c).mem)
        &&& mem_unchanged_outside(pre.cur_pcb().mem, post.pcb(c).mem, out_ptr as int, 80)
        &&& user_bytes(post.pcb(c).mem, out_ptr as int, 80) == stat_bytes(pre, fd as int)
        &&& world_unchanged(pre, post)
    })
}

/// The link syscall's effect.  Identical paths are refused with -1 before
/// the filesystem collaborator is ever consulted.  Otherwise the
/// collaborator adds the link when the old path exists and the new one does
/// not, bumping the inode's hard-link count by one; any failure gives -1
/// with no effect.
pub open spec fn linkat_rel(pre: Kernel, post: Kernel, oldp: Seq<u8>, newp: Seq<u8>, r: isize) -> bool {
    &&& (oldp == newp ==> r == -1 && post == pre)
    &&& (oldp != newp ==> {
        &&& (r == 0) <==> (name_lookup(pre.fs, oldp) >= 0 && name_lookup(pre.fs, newp) == -1)
        &&& (r == -1 ==> post == pre)
        &&& (r == 0 ==> {
            let idx = name_lookup(pre.fs, oldp);
            let ino = pre.fs.names@[idx].inode as int;
            &&& post.fs.inodes@ == pre.fs.inodes@
            &&& post.fs.names@.len() == pre.fs.names@.len() + 1
            &&& (forall|j: int| 0 <= j < pre.fs.names@.len()
                ==> post.fs.names@[j] == pre.fs.names@[j])
            &&& post.fs.names@[pre.fs.names@.len() as int].path@ == newp
            &&& post.fs.names@[pre.fs.names@.len() as int].inode as int == ino
            &&& nlink_of(post.fs, ino) == nlink_of(pre.fs, ino) + 1
            &&& (forall|other: int| other != ino
                ==> nlink_of(post.fs, other) == nlink_of(pre.fs, other))
            &&& post.procs@ == pre.procs@
            &&& post.objects@ == pre.objects@
            &&& post.pipes@ == pre.pipes@
            &&& post.programs@ == pre.programs@
            &&& post.current == pre.current
            &&& post.ready@ == pre.ready@
            &&& post.init_pid == pre.init_pid
            &&& post.time_ms == pre.time_ms
            &&& post.stdin_data@ == pre.stdin_data@
            &&& post.stdout_data@ == pre.stdout_data@
        })
    })
}

/// The unlink syscall's effect: removes the link when the path exists,
/// dropping the inode's hard-link count by one (the contents stay, reachable
/// through other links); a missing path gives -1 with no effect.
pub open spec fn unlinkat_rel(pre: Kernel, post: Kernel, path: Seq<u8>, r: isize) -> bool {
    &&& (r == 0) <==> name_lookup(pre.fs, path) >= 0
    &&& (r == -1 ==> post == pre)
    &&& (r == 0 ==> {
        let idx = name_lookup(pre.fs, path);
        let ino = pre.fs.names@[idx].inode as int;
        &&& post.fs.inodes@ == pre.fs.inodes@
        &&& post.fs.names@ == pre.fs.names@.remove(idx)
        &&& nlink_of(post.fs, ino) == nlink_of(pre.fs, ino) - 1
        &&& (forall|other: int| other != ino
            ==> nlink_of(post.fs, other) == nlink_of(pre.fs, other))
        &&& post.procs@ == pre.procs@
        &&& post.objects@ == pre.objects@
        &&& post.pipes@ == pre.pipes@
        &&& post.programs@ == pre.programs@
        &&& post.current == pre.current
        &&& post.ready@ == pre.ready@
        &&& post.init_pid == pre.init_pid
        &&& post.time_ms == pre.time_ms
        &&& post.stdin_data@ == pre.stdin_data@
        &&& post.stdout_data@ == pre.stdout_data@
    })
}

impl Kernel {
    /// The open syscall: resolves `path` under the given flags through the
    /// filesystem collaborator, binds a fresh object to the result and
    /// installs it in the lowest free descriptor slot.
    pub fn sys_open(&mut self, path: &Vec<u8>, flags: u32) -> (r: isize)
        requires
            old(self).wf(),
            old(self).has_current(),
            old(self).fdt().len() < FD_LIMIT,
            old(self).fs.names@.len() < NAME_LIMIT,
        ensures
            final(self).wf(),
            open_rel(*old(self), *final(self), path@, flags, r),
    {
        let c = self.current.unwrap();
        proof {
            assert(old(self).pcb_ok(c as int));
        }
        if flags & !(OPEN_WRONLY | OPEN_RDWR | OPEN_CREATE | OPEN_TRUNC) != 0 || flags & 3u32 == 3u32 {
            return -1;
        }
        let create = flags & OPEN_CREATE != 0;
        let trunc = flags & OPEN_TRUNC != 0;
        let readable = flags & 3u32 == 0u32 || flags & 3u32 == 2u32;
        let writable = flags & 3u32 == 1u32 || flags & 3u32 == 2u32;
        proof {
            crate::vfs::lemma_find_props(old(self).fs.names@, path@, 0);
        }
        let ino = match self.fs.open_by_path(path, create, trunc) {
            Some(ino) => ino,
            None => {
                proof {
                    assert(name_lookup(old(self).fs, path@) == -1 && !create);
                    assert(*self == *old(self));
                }
                return -1;
            },
        };
        let obj_id = self.objects.len();
        self.objects.push(FileObject {
            readable,
            writable,
            kind: ObjKind::File { inode: ino, offset: 0 },
        });
        let fd = match &mut self.procs[c] {
            Some(pcb) => alloc_fd(&mut pcb.fd_table, FdEntry { obj: obj_id, backing: ino }),
            None => { proof { assert(false); } 0 },
        };
        proof {
            lemma_find_free_props(old(self).fdt(), 0);
            assert((ino as int) < self.fs.inodes@.len()) by {
                let looked = name_lookup(old(self).fs, path@);
                if looked >= 0 {
                    crate::vfs::lemma_find_props(old(self).fs.names@, path@, 0);
                    assert(old(self).fs.names@[looked].inode < old(self).fs.inodes@.len());
                }
            }
            assert forall|o: int| 0 <= o < self.objects@.len()
                implies self.obj_ok(#[trigger] self.objects@[o]) by {
                if o < old(self).objects@.len() {
                    assert(old(self).obj_ok(old(self).objects@[o]));
                    assert(self.objects@[o] == old(self).objects@[o]);
                    assert(self.fs.inodes@.len() >= old(self).fs.inodes@.len());
                } else {
                    assert(self.objects@[o] == FileObject {
                        readable,
                        writable,
                        kind: ObjKind::File { inode: ino, offset: 0 },
                    });
                }
            }
            lemma_wf_update_pcb(*old(self), *self, c as int);
        }
        fd as isize
    }

    /// The pipe syscall: creates a connected read/write object pair with no
    /// filesystem identity, installs both ends as new descriptors, and
    /// reports the two descriptor numbers through the output buffer.
    pub fn sys_pipe(&mut self, out_ptr: usize) -> (r: isize)
        requires
            old(self).wf(),
            old(self).has_current(),
            old(self).fdt().len() + 1 < FD_LIMIT,
        ensures
            final(self).wf(),
            pipe_rel(*old(self), *final(self), out_ptr, r),
    {
        let c = self.current.unwrap();
        proof {
            assert(old(self).pcb_ok(c as int));
        }
        let ok = match &self.procs[c] {
            Some(pcb) => check_range(&pcb.mem, out_ptr, 16, PTE_W | PTE_U | PTE_V),
            None => { proof { assert(false); } false },
        };
        if !ok {
            return -1;
        }
        let pipe_id = self.pipes.len();
        self.pipes.push(Pipe { data: Vec::new() });
        let obj_r = self.objects.len();
        self.objects.push(FileObject { readable: true, writable: false,
            kind: ObjKind::PipeRead { pipe: pipe_id } });
        let obj_w = self.objects.len();
        self.objects.push(FileObject { readable: false, writable: true,
            kind: ObjKind::PipeWrite { pipe: pipe_id } });
        let (fd_r, fd_w) = match &mut self.procs[c] {
            Some(pcb) => {
                let fd_r = alloc_fd(&mut pcb.fd_table, FdEntry { obj: obj_r, backing: ANON_BACKING });
                let fd_w = alloc_fd(&mut pcb.fd_table, FdEntry { obj: obj_w, backing: ANON_BACKING });
                (fd_r, fd_w)
            },
            None => { proof { assert(false); } (0, 0) },
        };
        let mut words: Vec<u8> = Vec::new();
        push_u64_le(&mut words, fd_r as u64);
        push_u64_le(&mut words, fd_w as u64);
        let wrote = match &mut self.procs[c] {
            Some(pcb) => write_user_bytes(&mut pcb.mem, out_ptr, &words, PTE_W | PTE_U | PTE_V),
            None => { proof { assert(false); } false },
        };
        proof {
            assert(wrote);
            assert forall|o: int| 0 <= o < self.objects@.len()
                implies self.obj_ok(#[trigger] self.objects@[o]) by {
                if o < old(self).objects@.len() {
                    assert(old(self).obj_ok(old(self).objects@[o]));
                }
            }
            lemma_wf_update_pcb(*old(self), *self, c as int);
            assert(user_bytes(self.pcb(c as int).mem, out_ptr as int, 16)
                =~= u64_le(fd_r as u64) + u64_le(fd_w as u64));
        }
        0
    }

    /// The fstat syscall: reports device 0, the backing identifier as the
    /// inode number, the regular-file tag and the inode's hard-link count,
    /// written as an 80-byte record through the memory bridge.
    pub fn sys_fstat(&mut self, fd: usize, out_ptr: usize) -> (r: isize)
        requires
            old(self).wf(),
            old(self).has_current(),
        ensures
            final(self).wf(),
            fstat_rel(*old(self), *final(self), fd, out_ptr, r),
    {
        let c = self.current.unwrap();
        proof {
            assert(old(self).pcb_ok(c as int));
        }
        let e = match &self.procs[c] {
            Some(pcb) => {
                if fd < pcb.fd_table.len() {
                    pcb.fd_table[fd]
                } else {
                    None
                }
            },
            None => None,
        };
        let e = match e {
            Some(e) => e,
            None => {
                return -1;
            },
        };
        let ok = match &self.procs[c] {
            Some(pcb) => check_range(&pcb.mem, out_ptr, 80, PTE_W | PTE_U | PTE_V),
            None => { proof { assert(false); } false },
        };
        if !ok {
            return -1;
        }
        let nlink = self.fs.count_hardlinks(e.backing);
        let zero64: u64 = 0;
        let mut rec: Vec<u8> = Vec::new();
        push_u64_le(&mut rec, zero64);
        push_u64_le(&mut rec, e.backing as u64);
        push_u32_le(&mut rec, crate::flags::STAT_MODE_FILE);
        push_u32_le(&mut rec, nlink);
        let mut i: usize = 0;
        while i < 56
            invariant
                i <= 56,
                rec@.len() == 24 + i,
                rec@.take(24) == u64_le(0u64) + u64_le(e.backing as u64)
                    + u32_le(crate::flags::STAT_MODE_FILE) + u32_le(nlink),
                forall|q: int| 24 <= q < 24 + i ==> rec@[q] == 0u8,
            decreases 56 - i,
        {
            rec.push(0u8);
            proof {
                assert(rec@.take(24) =~= u64_le(0u64) + u64_le(e.backing as u64)
                    + u32_le(crate::flags::STAT_MODE_FILE) + u32_le(nlink));
            }
            i += 1;
        }
        proof {
            assert(rec@ =~= stat_bytes(*old(self), fd as int));
        }
        let wrote = match &mut self.procs[c] {
            Some(pcb) => write_user_bytes(&mut pcb.mem, out_ptr, &rec, PTE_W | PTE_U | PTE_V),
            None => { proof { assert(false); } false },
        };
        proof {
            assert(wrote);
            assert forall|o: int| 0 <= o < self.objects@.len()
                implies self.obj_ok(#[trigger] self.objects@[o]) by {
                assert(old(self).obj_ok(old(self).objects@[o]));
            }
            lemma_wf_update_pcb(*old(self), *self, c as int);
            assert(user_bytes(self.pcb(c as int).mem, out_ptr as int, 80)
                =~= stat_bytes(*old(self), fd as int));
        }
        0
    }

    /// The link syscall: adds a second path for an existing file.  Two
    /// identical paths are refused up front, before the filesystem
    /// collaborator is consulted at all.
    pub fn sys_linkat(&mut self, oldp: &Vec<u8>, newp: &Vec<u8>) -> (r: isize)
        requires
            old(self).wf(),
            old(self).has_current(),
            old(self).fs.names@.len() < NAME_LIMIT,
        ensures
            final(self).wf(),
            linkat_rel(*old(self), *final(self), oldp@, newp@, r),
    {
        if bytes_eq(oldp, newp) {
            return -1;
        }
        let r = self.fs.link_path(oldp, newp);
        proof {
            lemma_wf_frame(*old(self), *self);
        }
        r
    }

    /// The unlink syscall: removes one path.  The contents stay reachable
    /// through any remaining links.
    pub fn sys_unlinkat(&mut self, path: &Vec<u8>) -> (r: isize)
        requires
            old(self).wf(),
            old(self).has_current(),
        ensures
            final(self).wf(),
            unlinkat_rel(*old(self), *final(self), path@, r),
    {
        let r = self.fs.unlink_path(path);
        proof {
            lemma_wf_frame(*old(self), *self);
        }
        r
    }
}

} // verus!





