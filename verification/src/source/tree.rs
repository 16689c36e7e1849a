//! Walking a directory tree for candidate source files.
//!
//! The walker holds the traversal state and takes all its decisions: which
//! entries the ignore pattern prunes, which directories are descended into,
//! which files are collected. The directory reads themselves are I/O and are
//! performed by the caller, which asks the walker what to read next and
//! hands the listing back. Since a pruned directory is never asked for,
//! nothing beneath it is ever visited.

use vstd::prelude::*;

use crate::cli::Args;
use crate::ignore::regex_matches;
use crate::ignore::regex_valid;
use crate::ignore::Matcher;
use crate::ScanError;

verus! {

/// One directory entry as the platform reports it.
pub struct Entry {
    /// Base name of the entry.
    pub name: String,
    /// Full path of the entry.
    pub path: String,
    /// The entry is a directory.
    pub is_dir: bool,
    /// The entry is a regular file.
    pub is_file: bool,
}

/// The mathematical content of an `Entry`.
pub ghost struct EntryView {
    pub name: Seq<char>,
    pub path: Seq<char>,
    pub is_dir: bool,
    pub is_file: bool,
}

impl View for Entry {
    type V = EntryView;

    open spec fn view(&self) -> EntryView {
        EntryView {
            name: self.name@,
            path: self.path@,
            is_dir: self.is_dir,
            is_file: self.is_file,
        }
    }
}

impl DeepView for Entry {
    type V = EntryView;

    open spec fn deep_view(&self) -> EntryView {
        self.view()
    }
}

/// Whether a base name is pruned by the ignore pattern, when one is present.
pub open spec fn ignored(pattern: Option<Seq<char>>, name: Seq<char>) -> bool {
    match pattern {
        Some(p) => regex_matches(p, name),
        None => false,
    }
}

/// Whether a base name carries the `rs` extension: it ends in `.rs`, and the
/// dot is not its first character (a bare `.rs` is a hidden file with no
/// extension).
pub open spec fn has_rs_extension(name: Seq<char>) -> bool {
    name.len() >= 4 && name.subrange(name.len() - 3, name.len() as int) == seq!['.', 'r', 's']
}

/// An entry the walk collects: a regular file with the `rs` extension whose
/// name the ignore pattern does not prune.
pub open spec fn collectible(pattern: Option<Seq<char>>, e: EntryView) -> bool {
    &&& !e.is_dir
    &&& e.is_file
    &&& has_rs_extension(e.name)
    &&& !ignored(pattern, e.name)
}

fn name_has_rs_extension(name: &String) -> (r: bool)
    ensures
        r == has_rs_extension(name@),
{
    let n = name.as_str().unicode_len();
    if n < 4 {
        return false;
    }
    let s = name.as_str();
    let r = s.get_char(n - 3) == '.' && s.get_char(n - 2) == 'r' && s.get_char(n - 1) == 's';
    proof {
        let sub = name@.subrange(name@.len() - 3, name@.len() as int);
        if r {
            assert(sub =~= seq!['.', 'r', 's']);
        } else {
            if sub == seq!['.', 'r', 's'] {
                assert(sub[0] == name@[n - 3]);
                assert(sub[1] == name@[n - 2]);
                assert(sub[2] == name@[n - 1]);
            }
        }
    }
    r
}

struct Frame {
    entries: Vec<Entry>,
    next: usize,
}

impl Frame {
    /// The entries of this listing not yet decided on, in listing order.
    spec fn remaining(&self) -> Seq<EntryView> {
        self.entries.deep_view().skip(self.next as int)
    }

    spec fn wf(&self) -> bool {
        self.next <= self.entries@.len()
    }
}

/// What one step of the walk asks of the caller.
#[derive(Debug, PartialEq, Eq)]
pub enum Step {
    /// Read this directory and hand its listing back through `supply`.
    Read(String),
    /// A decision was taken; step again.
    Progress,
    /// The walk is complete.
    Done,
}

/// The state of one tree walk.
///
/// The caller drives it: while `pending_dir` names a directory, read that
/// directory and `supply` its entries; otherwise `step` until `Done`. Every
/// decision in between is the walker's own.
pub struct Walker {
    matcher: Option<Matcher>,
    pending: Option<String>,
    frames: Vec<Frame>,
    files: Vec<String>,
}

impl Walker {
    /// The ignore pattern of this walk, when one was given.
    pub closed spec fn pattern_spec(&self) -> Option<Seq<char>> {
        match self.matcher {
            Some(m) => Some(m.pattern_spec()),
            None => None,
        }
    }

    /// The directory whose listing the walk awaits, if any.
    pub closed spec fn pending_spec(&self) -> Option<Seq<char>> {
        match self.pending {
            Some(p) => Some(p@),
            None => None,
        }
    }

    /// The undecided tails of the supplied directory listings, outermost
    /// directory first.
    pub closed spec fn frames_spec(&self) -> Seq<Seq<EntryView>> {
        self.frames@.map_values(|f: Frame| f.remaining())
    }

    /// The paths collected so far, in discovery order.
    pub closed spec fn files_spec(&self) -> Seq<Seq<char>> {
        self.files.deep_view()
    }

    /// Validity: every frame's cursor is in bounds.
    pub closed spec fn wf(&self) -> bool {
        forall|i: int| 0 <= i < self.frames@.len() ==> (#[trigger] self.frames@[i]).wf()
    }

    /// Starts a walk at `args.path` under `args.ignore_regex`. The pattern
    /// is compiled once, before anything is read, and the root is the first
    /// directory the caller is asked to read; the walk fails up front, and
    /// exactly, when the pattern does not compile.
    pub fn new(args: &Args) -> (r: Result<Walker, ScanError>)
        ensures
            match r {
                Ok(w) => {
                    &&& w.wf()
                    &&& match args.ignore_regex {
                        Some(p) => w.pattern_spec() == Some(p@) && regex_valid(p@),
                        None => w.pattern_spec() is None,
                    }
                    &&& w.pending_spec() == Some(args.path@)
                    &&& w.frames_spec() == Seq::<Seq<EntryView>>::empty()
                    &&& w.files_spec() == Seq::<Seq<char>>::empty()
                },
                Err(e) => {
                    &&& e == ScanError::InvalidPattern
                    &&& args.ignore_regex matches Some(p) && !regex_valid(p@)
                },
            },
    {
        let matcher = match &args.ignore_regex {
            Some(p) => match Matcher::new(p.as_str()) {
                Some(m) => Some(m),
                None => {
                    return Err(ScanError::InvalidPattern);
                },
            },
            None => None,
        };
        let w = Walker {
            matcher,
            pending: Some(args.path.clone()),
            frames: Vec::new(),
            files: Vec::new(),
        };
        proof {
            assert(w.frames_spec() =~= Seq::<Seq<EntryView>>::empty());
            assert(w.files_spec() =~= Seq::<Seq<char>>::empty());
        }
        Ok(w)
    }

    /// The directory the walk is waiting on, to be read and supplied.
    pub fn pending_dir(&self) -> (r: Option<String>)
        ensures
            match r {
                Some(p) => self.pending_spec() == Some(p@),
                None => self.pending_spec() is None,
            },
    {
        match &self.pending {
            Some(p) => Some(p.clone()),
            None => None,
        }
    }

    /// Hands the walker the listing of the directory it asked for. The
    /// listing becomes the innermost frame; no decision is taken yet.
    pub fn supply(&mut self, entries: Vec<Entry>)
        requires
            old(self).wf(),
            old(self).pending_spec() is Some,
        ensures
            final(self).wf(),
            final(self).pattern_spec() == old(self).pattern_spec(),
            final(self).pending_spec() is None,
            final(self).frames_spec() == old(self).frames_spec().push(entries.deep_view()),
            final(self).files_spec() == old(self).files_spec(),
    {
        let ghost ev = entries.deep_view();
        let ghost fs0 = self.frames_spec();
        self.pending = None;
        self.frames.push(Frame { entries, next: 0 });
        proof {
            assert(self.frames@[self.frames@.len() - 1].remaining() =~= ev);
            assert(self.frames_spec() =~= fs0.push(ev));
        }
    }

    /// Takes the next decision of the walk, on the first undecided entry of
    /// the innermost listing:
    ///
    /// - an entry whose name the ignore pattern matches is pruned: it adds
    ///   no file, and for a directory nothing beneath it will be read;
    /// - a directory is descended into: its path is handed back to be read;
    /// - a regular file with the `rs` extension is collected;
    /// - anything else is passed over.
    ///
    /// An exhausted listing is discarded; once no listing remains the walk
    /// is done.
    pub fn step(&mut self) -> (r: Step)
        requires
            old(self).wf(),
            old(self).pending_spec() is None,
        ensures
            final(self).wf(),
            final(self).pattern_spec() == old(self).pattern_spec(),
            ({
                let fs = old(self).frames_spec();
                if fs.len() == 0 {
                    &&& r is Done
                    &&& final(self).frames_spec() == fs
                    &&& final(self).files_spec() == old(self).files_spec()
                    &&& final(self).pending_spec() is None
                } else if fs.last().len() == 0 {
                    &&& r is Progress
                    &&& final(self).frames_spec() == fs.drop_last()
                    &&& final(self).files_spec() == old(self).files_spec()
                    &&& final(self).pending_spec() is None
                } else {
                    let e = fs.last().first();
                    let stepped = fs.update(fs.len() - 1, fs.last().drop_first());
                    &&& final(self).frames_spec() == stepped
                    &&& if ignored(old(self).pattern_spec(), e.name) {
                        &&& r is Progress
                        &&& final(self).files_spec() == old(self).files_spec()
                        &&& final(self).pending_spec() is None
                    } else if e.is_dir {
                        &&& r matches Step::Read(p) && p@ == e.path
                        &&& final(self).pending_spec() == Some(e.path)
                        &&& final(self).files_spec() == old(self).files_spec()
                    } else if collectible(old(self).pattern_spec(), e) {
                        &&& r is Progress
                        &&& final(self).files_spec() == old(self).files_spec().push(e.path)
                        &&& final(self).pending_spec() is None
                    } else {
                        &&& r is Progress
                        &&& final(self).files_spec() == old(self).files_spec()
                        &&& final(self).pending_spec() is None
                    }
                }
            }),
    {
        let ghost fs = self.frames_spec();
        if self.frames.len() == 0 {
            return Step::Done;
        }
        let mut frame = match self.frames.pop() {
            Some(f) => f,
            None => {
                return Step::Done;
            },
        };
        proof {
            assert(fs.last() == frame.remaining());
        }
        if frame.next == frame.entries.len() {
            proof {
                assert(self.frames_spec() =~= fs.drop_last());
            }
            return Step::Progress;
        }
        let e = frame.entries.remove(frame.next);
        let ghost ev = e@;
        proof {
            assert(ev == fs.last().first());
            assert(frame.remaining() =~= fs.last().drop_first());
        }
        self.frames.push(frame);
        proof {
            assert(self.frames_spec() =~= fs.update(fs.len() - 1, fs.last().drop_first()));
        }
        let is_ignored = match &self.matcher {
            Some(m) => m.is_match(e.name.as_str()),
            None => false,
        };
        if is_ignored {
            return Step::Progress;
        }
        if e.is_dir {
            self.pending = Some(e.path.clone());
            return Step::Read(e.path);
        }
        if e.is_file && name_has_rs_extension(&e.name) {
            let ghost files0 = self.files_spec();
            self.files.push(e.path);
            proof {
                assert(self.files_spec() =~= files0.push(ev.path));
            }
            return Step::Progress;
        }
        Step::Progress
    }

    /// Ends the walk and hands over the collected paths, in discovery order.
    pub fn finish(self) -> (r: Vec<String>)
        ensures
            r.deep_view() == self.files_spec(),
    {
        let Walker { matcher: _, pending: _, frames: _, files } = self;
        files
    }
}

/// The set of files a walk discovered, in discovery order.
pub struct Tree {
    pub entries: Vec<String>,
}

impl Tree {
    /// A tree with no discovered files yet.
    pub fn new() -> (r: Tree)
        ensures
            r.entries@.len() == 0,
    {
        Tree { entries: Vec::new() }
    }

    /// Appends the files a walk collected, in discovery order.
    pub fn traverse(&mut self, walker: Walker)
        ensures
            final(self).entries.deep_view() == old(self).entries.deep_view()
                + walker.files_spec(),
    {
        let ghost e0 = self.entries.deep_view();
        let ghost w = walker.files_spec();
        let mut found = walker.finish();
        self.entries.append(&mut found);
        proof {
            assert(self.entries.deep_view() =~= e0 + w);
        }
    }
}

} // verus!
