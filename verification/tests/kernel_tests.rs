use proc_core::console::{value_of_log_level, color_id_of_log_level, LogLevel};
use proc_core::flags::Stat;
use proc_core::flags::{STAT_MODE_FILE, OPEN_CREATE, OPEN_RDWR, OPEN_RDONLY};
use proc_core::kernel::Kernel;
use proc_core::mem::{read_user_bytes, write_user_bytes, MemorySet};

const PAGE: usize = 4096;
const BUF: usize = 0x1000;

/// A booted kernel whose initial process has two read-write pages mapped at
/// BUF.
fn setup() -> Kernel {
    let mut k = Kernel::boot();
    assert_eq!(k.sys_mmap(BUF, 2 * PAGE, 3), 0);
    k
}

fn poke(k: &mut Kernel, ptr: usize, bytes: &[u8]) {
    let pcb = k.procs[k.current.unwrap()].as_mut().unwrap();
    assert!(write_user_bytes(&mut pcb.mem, ptr, &bytes.to_vec(), 0));
}

fn peek(k: &Kernel, ptr: usize, len: usize) -> Vec<u8> {
    let pcb = k.procs[k.current.unwrap()].as_ref().unwrap();
    read_user_bytes(&pcb.mem, ptr, len, 0).unwrap()
}

fn le64(bytes: &[u8]) -> u64 {
    let mut v: u64 = 0;
    for i in 0..8 {
        v |= (bytes[i] as u64) << (8 * i);
    }
    v
}

fn le32(bytes: &[u8]) -> u32 {
    let mut v: u32 = 0;
    for i in 0..4 {
        v |= (bytes[i] as u32) << (8 * i);
    }
    v
}

#[test]
fn log_level_values_and_colors() {
    assert_eq!(value_of_log_level(LogLevel::TRACE), 1);
    assert_eq!(value_of_log_level(LogLevel::DEBUG), 2);
    assert_eq!(value_of_log_level(LogLevel::INFO), 3);
    assert_eq!(value_of_log_level(LogLevel::WARN), 4);
    assert_eq!(value_of_log_level(LogLevel::ERROR), 5);
    assert_eq!(color_id_of_log_level(LogLevel::TRACE), 90);
    assert_eq!(color_id_of_log_level(LogLevel::DEBUG), 32);
    assert_eq!(color_id_of_log_level(LogLevel::INFO), 34);
    assert_eq!(color_id_of_log_level(LogLevel::WARN), 93);
    assert_eq!(color_id_of_log_level(LogLevel::ERROR), 31);
}

#[test]
fn stat_new_is_fresh_regular_file() {
    let s = Stat::new();
    assert_eq!(s.dev, 0);
    assert_eq!(s.ino, 0);
    assert_eq!(s.mode, STAT_MODE_FILE);
    assert_eq!(s.nlink, 1);
}

#[test]
fn close_then_read_and_write_fail() {
    let mut k = setup();
    let fd = k.sys_open(&b"file".to_vec(), OPEN_CREATE | OPEN_RDWR);
    assert!(fd >= 0);
    let fd = fd as usize;
    assert_eq!(k.sys_close(fd), 0);
    assert_eq!(k.sys_read(fd, BUF, 4), -1);
    assert_eq!(k.sys_write(fd, BUF, 4), -1);
    // a second close also fails
    assert_eq!(k.sys_close(fd), -1);
}

#[test]
fn close_rejects_out_of_range_descriptor() {
    let mut k = setup();
    assert_eq!(k.sys_close(99), -1);
    assert_eq!(k.sys_dup(99), -1);
}

#[test]
fn file_write_then_read_round_trip() {
    let mut k = setup();
    let fd = k.sys_open(&b"notes".to_vec(), OPEN_CREATE | OPEN_RDWR) as usize;
    poke(&mut k, BUF, b"hello");
    assert_eq!(k.sys_write(fd, BUF, 5), 5);
    assert_eq!(k.sys_close(fd), 0);
    let fd2 = k.sys_open(&b"notes".to_vec(), OPEN_RDONLY) as usize;
    assert_eq!(k.sys_read(fd2, BUF + 16, 5), 5);
    assert_eq!(peek(&k, BUF + 16, 5), b"hello".to_vec());
    // the offset advanced: nothing more to read
    assert_eq!(k.sys_read(fd2, BUF + 16, 5), 0);
}

#[test]
fn open_missing_file_fails() {
    let mut k = setup();
    assert_eq!(k.sys_open(&b"absent".to_vec(), OPEN_RDONLY), -1);
    // contradictory access bits are refused too
    assert_eq!(k.sys_open(&b"x".to_vec(), 3), -1);
}

#[test]
fn dup_then_close_keeps_object_usable() {
    let mut k = setup();
    assert_eq!(k.sys_pipe(BUF), 0);
    let fds = peek(&k, BUF, 16);
    let rfd = le64(&fds[0..8]) as usize;
    let wfd = le64(&fds[8..16]) as usize;
    poke(&mut k, BUF + 32, b"ping");
    assert_eq!(k.sys_write(wfd, BUF + 32, 4), 4);
    let dup_fd = k.sys_dup(rfd);
    assert!(dup_fd >= 0);
    assert_eq!(k.sys_close(rfd), 0);
    // the duplicate still reads the same underlying pipe
    assert_eq!(k.sys_read(dup_fd as usize, BUF + 64, 4), 4);
    assert_eq!(peek(&k, BUF + 64, 4), b"ping".to_vec());
}

#[test]
fn fork_gives_independent_tables_over_shared_objects() {
    let mut k = setup();
    assert_eq!(k.sys_pipe(BUF), 0);
    let fds = peek(&k, BUF, 16);
    let rfd = le64(&fds[0..8]) as usize;
    let wfd = le64(&fds[8..16]) as usize;
    poke(&mut k, BUF + 32, b"shared");
    assert_eq!(k.sys_write(wfd, BUF + 32, 6), 6);
    let child = k.sys_fork();
    assert!(child > 0);
    let child = child as usize;
    // the child closes its copy of the read end
    assert_eq!(k.switch_to(child), 0);
    assert_eq!(k.sys_close(rfd), 0);
    assert_eq!(k.sys_read(rfd, BUF + 64, 6), -1);
    // the parent's slot is unaffected and the buffered data is still there
    assert_eq!(k.switch_to(0), 0);
    assert_eq!(k.sys_read(rfd, BUF + 64, 6), 6);
    assert_eq!(peek(&k, BUF + 64, 6), b"shared".to_vec());
}

#[test]
fn waitpid_reports_not_ready_then_reaps_then_nothing() {
    let mut k = setup();
    let child = k.sys_fork();
    assert!(child > 0);
    let child = child as usize;
    // one live child, none exited: -2
    assert_eq!(k.sys_waitpid(-1, BUF), -2);
    // the child runs and exits with code 42
    assert_eq!(k.switch_to(child), 0);
    k.sys_exit(42);
    // back in the parent: the reap returns the pid and the exact code
    assert_eq!(k.current.unwrap(), 0);
    assert_eq!(k.sys_waitpid(-1, BUF), child as isize);
    assert_eq!(le32(&peek(&k, BUF, 4)), 42);
    // no children remain: -1
    assert_eq!(k.sys_waitpid(-1, BUF), -1);
}

#[test]
fn waitpid_for_stranger_pid_fails_regardless_of_children() {
    let mut k = setup();
    let child = k.sys_fork();
    assert!(child > 0);
    // pid 999 never was a child: -1, even with a live child around
    assert_eq!(k.sys_waitpid(999, BUF), -1);
}

#[test]
fn link_same_path_fails_without_touching_filesystem() {
    let mut k = setup();
    let fd = k.sys_open(&b"a".to_vec(), OPEN_CREATE | OPEN_RDWR);
    assert!(fd >= 0);
    let names_before = k.fs.names.len();
    assert_eq!(k.sys_linkat(&b"a".to_vec(), &b"a".to_vec()), -1);
    assert_eq!(k.fs.names.len(), names_before);
    // a path that does not even exist is refused the same way
    assert_eq!(k.sys_linkat(&b"zz".to_vec(), &b"zz".to_vec()), -1);
}

#[test]
fn fstat_counts_hard_links() {
    let mut k = setup();
    let fd = k.sys_open(&b"one".to_vec(), OPEN_CREATE | OPEN_RDWR) as usize;
    assert_eq!(k.sys_fstat(fd, BUF), 0);
    let rec = peek(&k, BUF, 80);
    assert_eq!(le64(&rec[0..8]), 0); // dev
    let ino = le64(&rec[8..16]);
    assert_eq!(le32(&rec[16..20]), STAT_MODE_FILE);
    assert_eq!(le32(&rec[20..24]), 1); // nlink of a fresh file
    assert_eq!(k.sys_linkat(&b"one".to_vec(), &b"two".to_vec()), 0);
    assert_eq!(k.sys_fstat(fd, BUF), 0);
    let rec2 = peek(&k, BUF, 80);
    assert_eq!(le64(&rec2[8..16]), ino);
    assert_eq!(le32(&rec2[20..24]), 2); // both paths now link the inode
    // opening through the second path reaches the same inode
    let fd2 = k.sys_open(&b"two".to_vec(), OPEN_RDONLY) as usize;
    assert_eq!(k.sys_fstat(fd2, BUF), 0);
    let rec3 = peek(&k, BUF, 80);
    assert_eq!(le64(&rec3[8..16]), ino);
    assert_eq!(le32(&rec3[20..24]), 2);
    // unlinking one path drops the count back to 1
    assert_eq!(k.sys_unlinkat(&b"two".to_vec()), 0);
    assert_eq!(k.sys_fstat(fd, BUF), 0);
    let rec4 = peek(&k, BUF, 80);
    assert_eq!(le32(&rec4[20..24]), 1);
    assert_eq!(k.sys_unlinkat(&b"two".to_vec()), -1);
}

#[test]
fn transfer_spanning_unmapped_page_fails_whole() {
    let mut k = Kernel::boot();
    // exactly one page mapped: [BUF, BUF + PAGE)
    assert_eq!(k.sys_mmap(BUF, PAGE, 3), 0);
    let fd = k.sys_open(&b"f".to_vec(), OPEN_CREATE | OPEN_RDWR) as usize;
    poke(&mut k, BUF, b"xy");
    assert_eq!(k.sys_write(fd, BUF, 2), 2);
    // a buffer whose tail crosses into the unmapped page
    let edge = BUF + PAGE - 1;
    assert_eq!(k.sys_write(fd, edge, 2), -1);
    assert_eq!(k.sys_read(fd, edge, 2), -1);
    // no partial transfer happened: the file still holds exactly "xy"
    assert_eq!(k.fs.inodes[0].len(), 2);
    // and the mapped byte at the edge is untouched
    assert_eq!(peek(&k, edge, 1), vec![0]);
}

#[test]
fn mmap_and_munmap_validate_requests() {
    let mut k = Kernel::boot();
    assert_eq!(k.sys_mmap(BUF + 1, PAGE, 3), -1); // misaligned
    assert_eq!(k.sys_mmap(BUF, PAGE, 0), -1); // no permission bits
    assert_eq!(k.sys_mmap(BUF, PAGE, 8), -1); // unknown permission bits
    assert_eq!(k.sys_mmap(BUF, PAGE, 3), 0);
    assert_eq!(k.sys_mmap(BUF, PAGE, 3), -1); // overlap
    assert_eq!(k.sys_munmap(BUF, 2 * PAGE), -1); // partly unmapped
    assert_eq!(k.sys_munmap(BUF, PAGE), 0);
    assert_eq!(k.sys_munmap(BUF, PAGE), -1); // already gone
}

#[test]
fn end_to_end_fork_exec_wait() {
    let mut k = setup();
    k.register_program(b"echo".to_vec(), 0x8040_0000);
    // process A forks into B
    let b = k.sys_fork();
    assert!(b > 0);
    let b = b as usize;
    // A polls while B is still running: not ready
    assert_eq!(k.sys_waitpid(b as isize, BUF), -2);
    // B runs: exec replaces its image, then it exits with 7
    assert_eq!(k.switch_to(b), 0);
    assert_eq!(k.sys_exec(&b"echo".to_vec()), 0);
    assert_eq!(k.sys_exec(&b"missing".to_vec()), -1);
    assert_eq!(k.sys_getpid(), b as isize);
    k.sys_exit(7);
    // A reaps B and sees the exact exit code
    assert_eq!(k.current.unwrap(), 0);
    assert_eq!(k.sys_waitpid(b as isize, BUF), b as isize);
    assert_eq!(le32(&peek(&k, BUF, 4)), 7);
}

#[test]
fn exit_reparents_grandchildren_to_init() {
    let mut k = setup();
    let b = k.sys_fork() as usize;
    assert_eq!(k.switch_to(b), 0);
    let c = k.sys_fork() as usize;
    // B exits while its child C is alive; C is handed to init (pid 0)
    k.sys_exit(1);
    assert_eq!(k.current.unwrap(), 0);
    assert_eq!(k.procs[c].as_ref().unwrap().parent, Some(0));
    // init can reap B, and later C
    assert_eq!(k.sys_waitpid(b as isize, BUF), b as isize);
    assert_eq!(k.switch_to(c), 0);
    k.sys_exit(3);
    assert_eq!(k.sys_waitpid(-1, BUF), c as isize);
    assert_eq!(le32(&peek(&k, BUF, 4)), 3);
}

#[test]
fn spawn_starts_fresh_process_from_image() {
    let mut k = setup();
    k.register_program(b"shell".to_vec(), 0x100);
    let pid = k.sys_spawn(&b"shell".to_vec());
    assert!(pid > 0);
    assert_eq!(k.sys_spawn(&b"ghost".to_vec()), -1);
    let p = k.procs[pid as usize].as_ref().unwrap();
    assert_eq!(p.parent, Some(0));
    assert_eq!(p.trap.sepc, 0x100);
    assert_eq!(p.trap.x10, 0);
    assert_eq!(p.mem.pages.len(), 0);
}

#[test]
fn scheduling_syscalls_answer_as_specified() {
    let mut k = setup();
    assert_eq!(k.sys_getpid(), 0);
    assert_eq!(k.sys_set_priority(5), 5);
    assert_eq!(k.sys_set_priority(1), -1);
    let t0 = k.sys_get_time();
    assert_eq!(k.sys_yield(), 0);
    assert!(k.sys_get_time() > t0);
}

#[test]
fn stdin_feeds_reads_and_stdout_collects_writes() {
    let mut k = setup();
    k.feed_stdin(&b"abc".to_vec());
    assert_eq!(k.sys_read(0, BUF, 2), 2);
    assert_eq!(peek(&k, BUF, 2), b"ab".to_vec());
    // writing to standard input is refused; reading standard output too
    assert_eq!(k.sys_write(0, BUF, 1), -1);
    assert_eq!(k.sys_read(1, BUF, 1), -1);
    poke(&mut k, BUF + 8, b"out!");
    assert_eq!(k.sys_write(1, BUF + 8, 4), 4);
    assert_eq!(k.stdout_data, b"out!".to_vec());
}

#[test]
fn user_wrappers_drive_the_same_syscalls() {
    let mut k = setup();
    k.feed_stdin(&b"Z".to_vec());
    assert_eq!(proc_core::user::getpid(&k), 0);
    assert_eq!(proc_core::user::getchar(&mut k, BUF), b'Z');
    let t0 = proc_core::user::get_time(&k);
    proc_core::user::sleep(&mut k, 5);
    assert!(proc_core::user::get_time(&k) >= t0 + 5);
    let fd = proc_core::user::open(&mut k, &b"w".to_vec(), OPEN_CREATE | OPEN_RDWR);
    assert!(fd >= 0);
    poke(&mut k, BUF + 8, b"hi");
    assert_eq!(proc_core::user::write(&mut k, fd as usize, BUF + 8, 2), 2);
    assert_eq!(proc_core::user::close(&mut k, fd as usize), 0);
    // a child that has already exited is reaped without polling forever
    let b = proc_core::user::fork(&mut k);
    assert!(b > 0);
    k.switch_to(b as usize);
    proc_core::user::exit(&mut k, 9);
    let r = proc_core::user::waitpid(&mut k, b as usize, BUF);
    assert_eq!(r, b);
    assert_eq!(le32(&peek(&k, BUF, 4)), 9);
    assert_eq!(proc_core::user::wait(&mut k, BUF), -1);
}

#[test]
fn bridge_is_all_or_nothing() {
    let mut ms = MemorySet::new();
    assert_eq!(ms.mmap(0, PAGE, 1), 0);
    // the mapped page reads back as zeroes
    let v = read_user_bytes(&ms, 0, 8, 0).unwrap();
    assert_eq!(v, vec![0; 8]);
    // a range crossing past the mapping fails as a whole
    assert!(read_user_bytes(&ms, PAGE - 4, 8, 0).is_none());
    // writing requires the write bit, which this page lacks
    assert!(!write_user_bytes(&mut ms, 0, &vec![1, 2], 4));
    assert_eq!(read_user_bytes(&ms, 0, 2, 0).unwrap(), vec![0, 0]);
}
