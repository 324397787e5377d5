//! The password argument reader's cache of open sources, and the decision of
//! what each source needs in order to yield a secret.
//!
//! A reader keeps, for the life of the reader, one open line reader per
//! canonical file path and per descriptor number, plus at most one handle on
//! the standard input. The handles themselves are held by the caller, slot
//! by slot, in the order in which the reader records them: the slot of a key
//! is its position in the reader's table, and it never changes.
use vstd::prelude::*;

use crate::source::{spec_parse, Error, ErrorView, Source, SourceView};
use crate::text::text_eq;

verus! {

/// The position of `k` in `keys`, if it is there.
pub open spec fn spec_slot<K>(keys: Seq<K>, k: K) -> Option<int> {
    if keys.contains(k) {
        Some(choose|i: int| 0 <= i < keys.len() && keys[i] == k)
    } else {
        None
    }
}

/// In a table without repeated keys, the slot of a key is its one position.
pub proof fn lemma_slot_unique<K>(keys: Seq<K>, k: K, i: int)
    requires
        keys.no_duplicates(),
        0 <= i < keys.len(),
        keys[i] == k,
    ensures
        spec_slot(keys, k) == Some(i),
{
    assert(keys.contains(k));
    let j = choose|j: int| 0 <= j < keys.len() && keys[j] == k;
    assert(j == i);
}

/// Recording a new key leaves the slot of every key already recorded where
/// it was, and gives the new key the next slot.
pub proof fn lemma_slot_stable<K>(keys: Seq<K>, k: K, added: K)
    requires
        keys.no_duplicates(),
        !keys.contains(added),
    ensures
        keys.push(added).no_duplicates(),
        spec_slot(keys.push(added), added) == Some(keys.len() as int),
        keys.contains(k) ==> spec_slot(keys.push(added), k) == spec_slot(keys, k),
{
    let grown = keys.push(added);
    assert forall|i: int, j: int| 0 <= i < grown.len() && 0 <= j < grown.len() && i != j
        implies grown[i] != grown[j] by {
        if i == keys.len() {
            assert(keys.contains(grown[j]));
        } else if j == keys.len() {
            assert(keys.contains(grown[i]));
        }
    }
    lemma_slot_unique(grown, added, keys.len() as int);
    if keys.contains(k) {
        let i = choose|i: int| 0 <= i < keys.len() && keys[i] == k;
        lemma_slot_unique(keys, k, i);
        lemma_slot_unique(grown, k, i);
    }
}

/// What is left to do, outside the reader, to obtain a secret.
#[derive(Debug, Clone, PartialEq)]
pub enum Step {
    /// The secret itself: nothing is left to do.
    Secret(String),
    /// Look up this environment variable.
    Env(String),
    /// Canonicalise this path, then find its slot with [`Reader::file_slot`].
    File(String),
    /// Read one line from the descriptor `fd`. `slot` is the slot of its open
    /// reader; `None` when the descriptor is to be adopted and recorded first.
    Fd { fd: i32, slot: Option<usize> },
    /// Read one line from the standard input. `held` tells whether the
    /// reader already holds its handle.
    Stdin { held: bool },
    /// Ask the user, showing this text.
    Prompt(String),
}

/// A [`Step`] with its texts as character sequences.
pub ghost enum StepView {
    Secret(Seq<char>),
    Env(Seq<char>),
    File(Seq<char>),
    Fd { fd: int, slot: Option<int> },
    Stdin { held: bool },
    Prompt(Seq<char>),
}

impl View for Step {
    type V = StepView;

    open spec fn view(&self) -> StepView {
        match self {
            Step::Secret(s) => StepView::Secret(s@),
            Step::Env(v) => StepView::Env(v@),
            Step::File(p) => StepView::File(p@),
            Step::Fd { fd, slot } => StepView::Fd {
                fd: *fd as int,
                slot: match slot {
                    Some(i) => Some(*i as int),
                    None => None,
                },
            },
            Step::Stdin { held } => StepView::Stdin { held: *held },
            Step::Prompt(p) => StepView::Prompt(p@),
        }
    }
}

/// The state of a [`Reader`]: the canonical paths and the descriptor numbers
/// that have an open reader, slot by slot, and whether the standard input's
/// handle is held.
pub ghost struct ReaderView {
    pub files: Seq<Seq<char>>,
    pub fds: Seq<int>,
    pub stdin: bool,
}

/// What a reader in state `r` leaves to do for the source `v`.
pub open spec fn spec_step(r: ReaderView, v: SourceView) -> StepView {
    match v {
        SourceView::Pass(p) => StepView::Secret(p),
        SourceView::Env(n) => StepView::Env(n),
        SourceView::File(p) => StepView::File(p),
        SourceView::Fd(n) => StepView::Fd { fd: n, slot: spec_slot(r.fds, n) },
        SourceView::Stdin => StepView::Stdin { held: r.stdin },
        SourceView::Prompt(p) => StepView::Prompt(p),
    }
}

/// A literal source yields its own text as the secret, whatever the reader
/// holds and however often it is read.
pub proof fn lemma_pass_is_constant(r1: ReaderView, r2: ReaderView, p: Seq<char>)
    ensures
        spec_step(r1, SourceView::Pass(p)) == StepView::Secret(p),
        spec_step(r1, SourceView::Pass(p)) == spec_step(r2, SourceView::Pass(p)),
{
}

/// A reader that has opened nothing has no slot for any path or descriptor,
/// so its first read of any file-like source starts at that source's start.
pub proof fn lemma_fresh_reader(r: ReaderView, path: Seq<char>, fd: int)
    requires
        r.files.len() == 0,
        r.fds.len() == 0,
    ensures
        spec_slot(r.files, path) is None,
        spec_slot(r.fds, fd) is None,
{
    assert(!r.files.contains(path));
    assert(!r.fds.contains(fd));
}

/// Password argument reader.
///
/// It reads one password per call, and remembers which files and descriptors
/// it has opened so that several arguments naming one file-like source read
/// its successive lines.
pub struct Reader {
    files: Vec<String>,
    fds: Vec<i32>,
    stdin: bool,
}

impl View for Reader {
    type V = ReaderView;

    closed spec fn view(&self) -> ReaderView {
        ReaderView {
            files: self.files@.map_values(|p: String| p@),
            fds: self.fds@.map_values(|n: i32| n as int),
            stdin: self.stdin,
        }
    }
}

impl Reader {
    /// Each path and each descriptor has at most one slot.
    pub open spec fn wf(&self) -> bool {
        &&& self@.files.no_duplicates()
        &&& self@.fds.no_duplicates()
    }

    /// A reader with nothing open.
    pub fn new() -> (r: Reader)
        ensures
            r.wf(),
            r@.files.len() == 0,
            r@.fds.len() == 0,
            !r@.stdin,
    {
        let r = Reader { files: Vec::new(), fds: Vec::new(), stdin: false };
        assert(r@.files =~= Seq::<Seq<char>>::empty());
        assert(r@.fds =~= Seq::<int>::empty());
        r
    }

    /// What is left to do to read a password from `source`. Only a source
    /// that needs a file-like stream depends on what the reader holds.
    pub fn read_source(&self, source: Source) -> (r: Step)
        requires
            self.wf(),
        ensures
            r@ == spec_step(self@, source@),
    {
        match source {
            Source::Pass(p) => Step::Secret(p),
            Source::Env(n) => Step::Env(n),
            Source::File(p) => Step::File(p),
            Source::Fd(n) => {
                let slot = self.fd_slot(n);
                Step::Fd { fd: n, slot }
            },
            Source::Stdin => Step::Stdin { held: self.stdin },
            Source::Prompt(p) => Step::Prompt(p),
        }
    }

    /// Reads the argument `arg`, then tells what is left to do to read the
    /// password it names.
    pub fn read_pass_arg(&self, arg: &str) -> (r: Result<Step, Error>)
        requires
            self.wf(),
        ensures
            match r {
                Ok(st) => spec_parse(arg@) is Ok && st@ == spec_step(self@, spec_parse(arg@)->Ok_0),
                Err(e) => spec_parse(arg@) == Err::<SourceView, ErrorView>(e@),
            },
    {
        match Source::parse(arg) {
            Ok(src) => Ok(self.read_source(src)),
            Err(e) => Err(e),
        }
    }

    /// The slot of the open reader of the canonical path `path`, if any.
    pub fn file_slot(&self, path: &str) -> (r: Option<usize>)
        requires
            self.wf(),
        ensures
            match r {
                Some(i) => spec_slot(self@.files, path@) == Some(i as int),
                None => spec_slot(self@.files, path@) is None,
            },
    {
        let mut i: usize = 0;
        while i < self.files.len()
            invariant
                self.wf(),
                i <= self.files@.len(),
                forall|j: int| 0 <= j < i ==> self@.files[j] != path@,
            decreases self.files@.len() - i,
        {
            if text_eq(self.files[i].as_str(), path) {
                proof {
                    lemma_slot_unique(self@.files, path@, i as int);
                }
                return Some(i);
            }
            i = i + 1;
        }
        None
    }

    /// Records that the canonical path `path`, which had no slot, now has an
    /// open reader; returns its slot, the next one.
    pub fn add_file(&mut self, path: String) -> (slot: usize)
        requires
            old(self).wf(),
            !old(self)@.files.contains(path@),
        ensures
            final(self).wf(),
            final(self)@ == (ReaderView { files: old(self)@.files.push(path@), ..old(self)@ }),
            slot == old(self)@.files.len(),
            spec_slot(final(self)@.files, path@) == Some(slot as int),
    {
        let ghost before = self@;
        let slot = self.files.len();
        self.files.push(path);
        proof {
            lemma_slot_stable(before.files, path@, path@);
            assert(self@.files =~= before.files.push(path@));
        }
        slot
    }

    /// Ends the first read of the canonical path `path`, which had no slot:
    /// when the read succeeded (`ok`) the path is recorded and gets the next
    /// slot; when it failed, nothing is recorded, so a later read opens the
    /// file afresh.
    pub fn record_file_read(&mut self, path: String, ok: bool) -> (slot: Option<usize>)
        requires
            old(self).wf(),
            !old(self)@.files.contains(path@),
        ensures
            final(self).wf(),
            ok ==> final(self)@ == (ReaderView { files: old(self)@.files.push(path@), ..old(self)@ })
                && slot == Some(old(self)@.files.len() as usize),
            !ok ==> final(self)@ == old(self)@ && slot is None,
    {
        if ok {
            Some(self.add_file(path))
        } else {
            None
        }
    }

    /// Ends the first read of descriptor `fd`, which had no slot: when the
    /// read succeeded (`ok`) the descriptor is recorded and gets the next
    /// slot; when it failed, nothing is recorded.
    pub fn record_fd_read(&mut self, fd: i32, ok: bool) -> (slot: Option<usize>)
        requires
            old(self).wf(),
            !old(self)@.fds.contains(fd as int),
        ensures
            final(self).wf(),
            ok ==> final(self)@ == (ReaderView { fds: old(self)@.fds.push(fd as int), ..old(self)@ })
                && slot == Some(old(self)@.fds.len() as usize),
            !ok ==> final(self)@ == old(self)@ && slot is None,
    {
        if ok {
            Some(self.add_fd(fd))
        } else {
            None
        }
    }

    /// The slot of the open reader of descriptor `fd`, if any.
    pub fn fd_slot(&self, fd: i32) -> (r: Option<usize>)
        requires
            self.wf(),
        ensures
            match r {
                Some(i) => spec_slot(self@.fds, fd as int) == Some(i as int),
                None => spec_slot(self@.fds, fd as int) is None,
            },
    {
        let mut i: usize = 0;
        while i < self.fds.len()
            invariant
                self.wf(),
                i <= self.fds@.len(),
                forall|j: int| 0 <= j < i ==> self@.fds[j] != fd as int,
            decreases self.fds@.len() - i,
        {
            if self.fds[i] == fd {
                proof {
                    lemma_slot_unique(self@.fds, fd as int, i as int);
                }
                return Some(i);
            }
            i = i + 1;
        }
        None
    }

    /// Records that descriptor `fd`, which had no slot, is now owned through
    /// an open reader; returns its slot, the next one.
    pub fn add_fd(&mut self, fd: i32) -> (slot: usize)
        requires
            old(self).wf(),
            !old(self)@.fds.contains(fd as int),
        ensures
            final(self).wf(),
            final(self)@ == (ReaderView { fds: old(self)@.fds.push(fd as int), ..old(self)@ }),
            slot == old(self)@.fds.len(),
            spec_slot(final(self)@.fds, fd as int) == Some(slot as int),
    {
        let ghost before = self@;
        let slot = self.fds.len();
        self.fds.push(fd);
        proof {
            lemma_slot_stable(before.fds, fd as int, fd as int);
            assert(self@.fds =~= before.fds.push(fd as int));
        }
        slot
    }

    /// Whether the reader holds the standard input's handle.
    pub fn stdin_held(&self) -> (r: bool)
        ensures
            r == self@.stdin,
    {
        self.stdin
    }

    /// Records that the reader now holds the standard input's handle.
    pub fn hold_stdin(&mut self)
        ensures
            final(self)@ == (ReaderView { stdin: true, ..old(self)@ }),
    {
        self.stdin = true;
    }
}

} // verus!
