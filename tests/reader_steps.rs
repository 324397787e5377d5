use passarg::{Error, Reader, Source, Step};
use std::io::{BufRead, Cursor};

/// Plays the part of the I/O layer: the file handles, slot by slot, with
/// canonicalisation given as a fixed table of spellings.
struct Files {
    reader: Reader,
    handles: Vec<Cursor<Vec<u8>>>,
}

impl Files {
    fn new() -> Files {
        Files { reader: Reader::new(), handles: Vec::new() }
    }

    fn resolve(&mut self, arg: &str, content: &str) -> String {
        match self.reader.read_pass_arg(arg) {
            Ok(Step::File(path)) => {
                let canonical = if path == "./a.txt" { "/abs/path/to/a.txt".to_string() } else { path };
                let slot = match self.reader.file_slot(&canonical) {
                    Some(i) => i,
                    None => {
                        let i = self.reader.add_file(canonical);
                        assert_eq!(i, self.handles.len());
                        self.handles.push(Cursor::new(content.as_bytes().to_vec()));
                        i
                    }
                };
                let mut line = String::new();
                self.handles[slot].read_line(&mut line).unwrap();
                passarg::trim_line(&line)
            }
            other => panic!("{other:?}"),
        }
    }
}

#[test]
fn file_lines_follow_call_order() {
    let mut f = Files::new();
    let content = "alpha\nbeta\n";
    assert_eq!(f.resolve("file:/abs/path/to/a.txt", content), "alpha");
    assert_eq!(f.resolve("file:/abs/path/to/a.txt", content), "beta");
    assert_eq!(f.resolve("file:/abs/path/to/a.txt", content), "");
}

#[test]
fn two_spellings_share_one_entry() {
    let mut f = Files::new();
    let content = "alpha\nbeta\n";
    assert_eq!(f.resolve("file:./a.txt", content), "alpha");
    assert_eq!(f.resolve("file:/abs/path/to/a.txt", content), "beta");
    assert_eq!(f.handles.len(), 1);
    assert_eq!(f.reader.file_slot("/abs/path/to/a.txt"), Some(0));
}

#[test]
fn readers_do_not_share_state() {
    let content = "alpha\nbeta\n";
    let mut one = Files::new();
    let mut two = Files::new();
    assert_eq!(one.resolve("file:/abs/path/to/a.txt", content), "alpha");
    assert_eq!(two.resolve("file:/abs/path/to/a.txt", content), "alpha");
    assert_eq!(one.resolve("file:/abs/path/to/a.txt", content), "beta");
    assert_eq!(two.reader.file_slot("/other"), None);
}

#[test]
fn literal_is_returned_every_time() {
    let r = Reader::new();
    for _ in 0..3 {
        assert_eq!(r.read_pass_arg("pass:literal-value").unwrap(), Step::Secret("literal-value".into()));
    }
    assert_eq!(r.file_slot("literal-value"), None);
    assert_eq!(r.fd_slot(0), None);
    assert!(!r.stdin_held());
}

#[test]
fn env_prompt_and_stdin_steps() {
    let mut r = Reader::new();
    assert_eq!(r.read_pass_arg("env:SECRET_X").unwrap(), Step::Env("SECRET_X".into()));
    assert_eq!(r.read_pass_arg("prompt").unwrap(), Step::Prompt("Password: ".into()));
    assert_eq!(r.read_source(Source::Stdin), Step::Stdin { held: false });
    r.hold_stdin();
    assert!(r.stdin_held());
    assert_eq!(r.read_source(Source::Stdin), Step::Stdin { held: true });
}

#[test]
fn descriptors_get_stable_slots() {
    let mut r = Reader::new();
    assert_eq!(r.read_pass_arg("fd:3").unwrap(), Step::Fd { fd: 3, slot: None });
    assert_eq!(r.add_fd(3), 0);
    assert_eq!(r.add_fd(7), 1);
    assert_eq!(r.read_pass_arg("fd:3").unwrap(), Step::Fd { fd: 3, slot: Some(0) });
    assert_eq!(r.read_source(Source::Fd(7)), Step::Fd { fd: 7, slot: Some(1) });
    assert_eq!(r.add_file("/x".into()), 0);
    assert_eq!(r.add_file("/y".into()), 1);
    assert_eq!(r.file_slot("/x"), Some(0));
    assert_eq!(r.file_slot("/y"), Some(1));
}

#[test]
fn bad_arguments_reach_the_caller() {
    let r = Reader::new();
    assert!(matches!(r.read_pass_arg("bogus:x"), Err(Error::InvalidType(t)) if t == "bogus"));
    assert!(matches!(r.read_pass_arg("fd:x"), Err(Error::FdLiteral(t)) if t == "x"));
}

#[test]
fn failed_first_read_records_nothing() {
    let mut r = Reader::new();
    assert_eq!(r.record_file_read("/a".into(), false), None);
    assert_eq!(r.file_slot("/a"), None);
    assert_eq!(r.record_file_read("/a".into(), true), Some(0));
    assert_eq!(r.file_slot("/a"), Some(0));
    assert_eq!(r.record_fd_read(5, false), None);
    assert_eq!(r.fd_slot(5), None);
    assert_eq!(r.record_fd_read(5, true), Some(0));
    assert_eq!(r.read_source(Source::Fd(5)), Step::Fd { fd: 5, slot: Some(0) });
}
