use thread_db::error::PsErr;
use thread_db::handle::ProcHandle;
use thread_db::memory::{ps_pdread, ps_pdwrite};
use thread_db::process::{ps_getpid, ps_pglobal_lookup};
use thread_db::regs::{ps_get_thread_area, ps_lgetfpregs, ps_lsetfpregs};
use thread_db::symbols::{lookup_symbol, ObjectSymbols, SymbolEntry};
use thread_db::words::{append_word_prefix, merge_partial_word, word_from_bytes};

// A process id that no process has: Linux pids stay below 2^22.
const NO_SUCH_PID: i32 = i32::MAX;

fn entry(name: &str, addr: usize) -> SymbolEntry {
    SymbolEntry { name: name.to_string(), addr }
}

fn sample_tables() -> Vec<ObjectSymbols> {
    vec![
        ObjectSymbols {
            object: "libc.so.6".to_string(),
            symbols: vec![entry("malloc", 0x1000), entry("_thread_db_sizeof_pthread", 0x2000)],
        },
        ObjectSymbols {
            object: "libpthread.so.0".to_string(),
            symbols: vec![entry("_thread_db_sizeof_pthread", 0x3000), entry("nptl_version", 0x4000)],
        },
    ]
}

#[test]
fn status_from_result() {
    assert_eq!(PsErr::from(Ok::<u32, ()>(7)), PsErr::Success);
    assert_eq!(PsErr::from(Err::<(), u8>(1)), PsErr::Error);
}

#[test]
fn word_from_bytes_is_little_endian() {
    let bytes = [1u8, 2, 3, 4, 5, 6, 7, 8, 9, 10];
    assert_eq!(word_from_bytes(&bytes, 0), 0x0807060504030201);
    assert_eq!(word_from_bytes(&bytes, 2), 0x0a09080706050403);
}

#[test]
fn merge_keeps_bytes_past_the_tail() {
    let existing = 0x1122334455667788u64;
    let src = [0xaau8, 0xbb, 0xcc];
    assert_eq!(merge_partial_word(existing, &src, 0, 2), 0x112233445566bbaa);
    assert_eq!(merge_partial_word(existing, &src, 1, 2), 0x112233445566ccbb);
    assert_eq!(merge_partial_word(existing, &src, 0, 0), existing);
}

#[test]
fn append_word_prefix_appends_only_the_prefix() {
    let mut target = vec![0xffu8];
    append_word_prefix(&mut target, 0x0807060504030201, 3);
    assert_eq!(target, vec![0xff, 1, 2, 3]);
    append_word_prefix(&mut target, 0x1122334455667788, 8);
    assert_eq!(target, vec![0xff, 1, 2, 3, 0x88, 0x77, 0x66, 0x55, 0x44, 0x33, 0x22, 0x11]);
    append_word_prefix(&mut target, 0x1122334455667788, 0);
    assert_eq!(target.len(), 12);
}

#[test]
fn lookup_takes_the_first_object_that_defines_the_symbol() {
    let tables = sample_tables();
    assert_eq!(lookup_symbol(&tables, &"_thread_db_sizeof_pthread".to_string()), Some(0x2000));
    assert_eq!(lookup_symbol(&tables, &"nptl_version".to_string()), Some(0x4000));
    assert_eq!(lookup_symbol(&tables, &"missing".to_string()), None);
    assert_eq!(lookup_symbol(&Vec::new(), &"malloc".to_string()), None);
}

#[test]
fn pglobal_lookup_stores_the_address() {
    let handle = ProcHandle::new(42, sample_tables());
    let mut addr = 0usize;
    assert_eq!(ps_pglobal_lookup(&handle, "libpthread.so.0", "nptl_version", &mut addr), PsErr::Success);
    assert_eq!(addr, 0x4000);
    // the object name does not narrow the search
    assert_eq!(ps_pglobal_lookup(&handle, "libpthread.so.0", "malloc", &mut addr), PsErr::Success);
    assert_eq!(addr, 0x1000);
}

#[test]
fn pglobal_lookup_reports_missing_symbol() {
    let handle = ProcHandle::new(42, sample_tables());
    let mut addr = 0x77usize;
    assert_eq!(ps_pglobal_lookup(&handle, "libc.so.6", "nothing_here", &mut addr), PsErr::NoSym);
    assert_eq!(addr, 0x77);
}

#[test]
fn getpid_returns_the_handle_pid() {
    let handle = ProcHandle::new(1234, Vec::new());
    assert_eq!(ps_getpid(&handle), 1234);
}

#[test]
fn thread_area_rejects_other_indexes() {
    let mut handle = ProcHandle::new(NO_SUCH_PID, Vec::new());
    let mut addr = 5usize;
    assert_eq!(ps_get_thread_area(&mut handle, NO_SUCH_PID, 0, &mut addr), PsErr::NoFRegs);
    assert_eq!(ps_get_thread_area(&mut handle, NO_SUCH_PID, 27, &mut addr), PsErr::NoFRegs);
    assert_eq!(addr, 5);
}

#[test]
fn thread_area_of_missing_thread_is_bad_lid() {
    let mut handle = ProcHandle::new(NO_SUCH_PID, Vec::new());
    let mut addr = 5usize;
    assert_eq!(ps_get_thread_area(&mut handle, NO_SUCH_PID, nix::libc::FS, &mut addr), PsErr::BadLID);
    assert_eq!(ps_get_thread_area(&mut handle, NO_SUCH_PID, nix::libc::GS, &mut addr), PsErr::BadLID);
    assert_eq!(addr, 5);
}

#[test]
fn pdread_from_missing_process_fails_and_copies_nothing() {
    let mut handle = ProcHandle::new(NO_SUCH_PID, Vec::new());
    let mut buf = vec![9u8; 2];
    assert_eq!(ps_pdread(&mut handle, 0x1000, &mut buf, 12), PsErr::Error);
    assert_eq!(buf, vec![9u8; 2]);
    // even an empty read peeks one word
    assert_eq!(ps_pdread(&mut handle, 0x1000, &mut buf, 0), PsErr::Error);
}

#[test]
fn pdwrite_of_nothing_makes_no_request() {
    let mut handle = ProcHandle::new(NO_SUCH_PID, Vec::new());
    assert_eq!(ps_pdwrite(&mut handle, 0x1000, &[], 0), PsErr::Success);
}

#[test]
fn pdwrite_to_missing_process_fails() {
    let mut handle = ProcHandle::new(NO_SUCH_PID, Vec::new());
    let data = [1u8, 2, 3];
    assert_eq!(ps_pdwrite(&mut handle, 0x1000, &data, 3), PsErr::Error);
    let words = [0u8; 16];
    assert_eq!(ps_pdwrite(&mut handle, 0x1000, &words, 16), PsErr::Error);
}

#[test]
fn fpregs_status_follows_the_request_return() {
    assert_eq!(ps_lgetfpregs(-1), PsErr::Error);
    assert_eq!(ps_lgetfpregs(0), PsErr::Success);
    assert_eq!(ps_lsetfpregs(-1), PsErr::Error);
    assert_eq!(ps_lsetfpregs(0), PsErr::Success);
}
