//! Collecting the files of a directory: which entries are entered, which
//! files are admitted, and the two lists that come out.

use vstd::prelude::*;
use vstd::string::*;
use vstd::utf8::valid_utf8;
use vstd::utf8::decode_utf8;
use crate::order::compare_text;
use crate::order::Relation;
use crate::path::to_relative;
use crate::path::relative_text;
use crate::path::stripped;
use crate::records::FileDump;
use crate::records::FileRecord;
use crate::records::Reason;
use crate::records::SkipReason;
use crate::records::SkippedFile;
use crate::records::SkippedRecord;
use crate::sort::is_sorting_of;
use crate::sort::sort_by_path;
use crate::text::text_of_bytes;

verus! {

/// The names of the directories that are never entered.
pub open spec fn ignored_dir_names() -> Seq<Seq<char>> {
    seq![".git"@, "node_modules"@, "target"@, ".venv"@, "venv"@]
}

/// Tells whether `name` is one of the directory names that are never
/// entered.
pub fn is_ignored_dir_name(name: &str) -> (r: bool)
    ensures
        r == ignored_dir_names().contains(name@),
{
    let r = compare_text(name, ".git") == Relation::Equal || compare_text(name, "node_modules")
        == Relation::Equal || compare_text(name, "target") == Relation::Equal || compare_text(
        name,
        ".venv",
    ) == Relation::Equal || compare_text(name, "venv") == Relation::Equal;
    proof {
        let names = ignored_dir_names();
        assert(names[0] == ".git"@ && names[1] == "node_modules"@ && names[2] == "target"@
            && names[3] == ".venv"@ && names[4] == "venv"@);
    }
    r
}

/// Whether the walk goes on with an entry: the root always, a file always,
/// a directory unless its name is one of those never entered. `name` is the
/// entry's base name, where it is valid UTF-8.
pub open spec fn is_included(depth: usize, is_dir: bool, name: Option<Seq<char>>) -> bool {
    depth == 0 || !is_dir || match name {
        Some(n) => !ignored_dir_names().contains(n),
        None => true,
    }
}

/// Decides whether the walk goes on with an entry, and so, for a directory,
/// whether it is entered.
pub fn should_include(depth: usize, is_dir: bool, name: Option<&str>) -> (r: bool)
    ensures
        r == is_included(
            depth,
            is_dir,
            match name {
                Some(n) => Some(n@),
                None => None,
            },
        ),
{
    if depth == 0 {
        return true;
    }
    if is_dir {
        if let Some(n) = name {
            return !is_ignored_dir_name(n);
        }
    }
    true
}

/// Below the root, a directory is left out exactly where its name is one of
/// `.git`, `node_modules`, `target`, `.venv` and `venv`; nothing else is.
pub proof fn lemma_default_ignored_dirs(depth: usize, is_dir: bool, name: Seq<char>)
    ensures
        !is_included(depth, is_dir, Some(name)) <==> depth > 0 && is_dir && (name == ".git"@
            || name == "node_modules"@ || name == "target"@ || name == ".venv"@ || name
            == "venv"@),
        is_included(depth, is_dir, None),
{
    let names = ignored_dir_names();
    assert(names[0] == ".git"@ && names[1] == "node_modules"@ && names[2] == "target"@ && names[3]
        == ".venv"@ && names[4] == "venv"@);
}

/// What the file system tells of an entry that is no directory.
#[derive(Clone, Debug, PartialEq, Eq)]
pub enum Probe {
    /// Its metadata could not be had; the message of the failure.
    Failed(String),
    /// It is no regular file.
    NotAFile,
    /// It is a regular file of this many bytes.
    File(u64),
}

/// What is done with an entry once the file system has told of it.
pub enum Step {
    /// Nothing: it is no file.
    Pass,
    /// It is listed as skipped, for this reason.
    Skip(Reason),
    /// It is read.
    Read,
}

/// What is done with an entry: a file is read unless it is larger than
/// `limit` bytes; what could not be probed is skipped; what is no regular
/// file is passed over.
pub open spec fn verdict(probe: Probe, limit: usize) -> Step {
    match probe {
        Probe::Failed(message) => Step::Skip(Reason::Io(message@)),
        Probe::NotAFile => Step::Pass,
        Probe::File(len) => if len > limit {
            Step::Skip(Reason::TooLarge(len as nat))
        } else {
            Step::Read
        },
    }
}

/// The limit is inclusive: a file of exactly `limit` bytes is read, a file
/// of one byte more is skipped as too large.
pub proof fn lemma_limit_is_inclusive(limit: usize, len: u64)
    ensures
        len <= limit ==> verdict(Probe::File(len), limit) == Step::Read,
        len > limit ==> verdict(Probe::File(len), limit) == Step::Skip(
            Reason::TooLarge(len as nat),
        ),
{
}

/// What reading a file gave, as the text to include or the reason to skip:
/// a failure to read is an I/O error, bytes that are not valid UTF-8 are
/// skipped as such, and valid bytes are decoded as they are.
pub open spec fn admitted(read: Result<Vec<u8>, String>) -> Result<Seq<char>, Reason> {
    match read {
        Err(message) => Err(Reason::Io(message@)),
        Ok(bytes) => if valid_utf8(bytes@) {
            Ok(decode_utf8(bytes@))
        } else {
            Err(Reason::NonUtf8)
        },
    }
}

/// Bytes that are not valid UTF-8 are never admitted, and valid bytes are
/// admitted as the text they encode.
pub proof fn lemma_admission_by_encoding(bytes: Vec<u8>)
    ensures
        !valid_utf8(bytes@) ==> admitted(Ok(bytes)) == Err::<Seq<char>, Reason>(Reason::NonUtf8),
        valid_utf8(bytes@) ==> admitted(Ok(bytes)) == Ok::<Seq<char>, Reason>(
            decode_utf8(bytes@),
        ),
{
}

/// The path under which failures of the walk itself are listed.
pub open spec fn walker_path() -> Seq<char> {
    "<walker>"@
}

/// Whether an entry that the walk yields is looked at: the root is not, and
/// directories are not.
pub fn is_candidate(depth: usize, is_dir: bool) -> (r: bool)
    ensures
        r == (depth != 0 && !is_dir),
{
    depth != 0 && !is_dir
}

/// `items` is `before` with one more item at the end, whose view is `last`.
pub open spec fn grown_by<T: View>(items: Seq<T>, before: Seq<T>, last: T::V) -> bool {
    &&& items.len() == before.len() + 1
    &&& items.drop_last() == before
    &&& items.last()@ == last
}

/// The files and the skipped files of a run, as they come in.
pub struct Collector {
    root: String,
    max_file_size: usize,
    files: Vec<FileDump>,
    skipped: Vec<SkippedFile>,
}

impl Collector {
    /// The root that the listed paths are relative to.
    pub closed spec fn root(&self) -> Seq<char> {
        self.root@
    }

    /// The largest admissible file size in bytes.
    pub closed spec fn limit(&self) -> usize {
        self.max_file_size
    }

    /// The files admitted so far, in the order of their arrival.
    pub closed spec fn files(&self) -> Seq<FileDump> {
        self.files@
    }

    /// The files skipped so far, in the order of their arrival.
    pub closed spec fn skipped(&self) -> Seq<SkippedFile> {
        self.skipped@
    }

    /// The path under which this collector lists the entry at `path`.
    pub open spec fn listed_path(&self, path: Seq<char>) -> Seq<char> {
        relative_text(path, stripped(path, self.root()))
    }

    /// Root and limit are those of `old`.
    pub open spec fn same_run(&self, old: &Collector) -> bool {
        self.root() == old.root() && self.limit() == old.limit()
    }

    /// A collector that has seen nothing yet.
    pub fn new(root: String, max_file_size: usize) -> (c: Collector)
        ensures
            c.root() == root@,
            c.limit() == max_file_size,
            c.files() == Seq::<FileDump>::empty(),
            c.skipped() == Seq::<SkippedFile>::empty(),
    {
        Collector { root, max_file_size, files: Vec::new(), skipped: Vec::new() }
    }

    /// Takes note of what the file system told of the candidate at `path`,
    /// and says whether the file is to be read and handed to `accept`. A
    /// file that is too large, or an entry that could not be probed, is
    /// listed as skipped.
    pub fn examine(&mut self, path: &str, probe: Probe) -> (read: bool)
        ensures
            final(self).same_run(old(self)),
            final(self).files() == old(self).files(),
            read == (verdict(probe, old(self).limit()) is Read),
            match verdict(probe, old(self).limit()) {
                Step::Skip(reason) => grown_by(
                    final(self).skipped(),
                    old(self).skipped(),
                    SkippedRecord { path: old(self).listed_path(path@), reason },
                ),
                _ => final(self).skipped() == old(self).skipped(),
            },
    {
        match probe {
            Probe::Failed(message) => {
                let relative_path = to_relative(self.root.as_str(), path);
                self.skipped.push(SkippedFile { relative_path, reason: SkipReason::Io(message) });
                assert(self.skipped@.drop_last() =~= old(self).skipped@);
                false
            },
            Probe::NotAFile => false,
            Probe::File(len) => {
                if len > self.max_file_size as u64 {
                    let relative_path = to_relative(self.root.as_str(), path);
                    self.skipped.push(
                        SkippedFile { relative_path, reason: SkipReason::TooLarge(len) },
                    );
                    assert(self.skipped@.drop_last() =~= old(self).skipped@);
                    false
                } else {
                    true
                }
            },
        }
    }

    /// Takes what reading the file at `path` gave: its text is admitted
    /// where the bytes are valid UTF-8; else the file is listed as skipped.
    pub fn accept(&mut self, path: &str, read: Result<Vec<u8>, String>)
        ensures
            final(self).same_run(old(self)),
            match admitted(read) {
                Ok(contents) => {
                    &&& grown_by(
                        final(self).files(),
                        old(self).files(),
                        FileRecord { path: old(self).listed_path(path@), contents },
                    )
                    &&& final(self).skipped() == old(self).skipped()
                },
                Err(reason) => {
                    &&& grown_by(
                        final(self).skipped(),
                        old(self).skipped(),
                        SkippedRecord { path: old(self).listed_path(path@), reason },
                    )
                    &&& final(self).files() == old(self).files()
                },
            },
    {
        let relative_path = to_relative(self.root.as_str(), path);
        match read {
            Err(message) => {
                self.skipped.push(SkippedFile { relative_path, reason: SkipReason::Io(message) });
                assert(self.skipped@.drop_last() =~= old(self).skipped@);
            },
            Ok(bytes) => {
                match text_of_bytes(bytes) {
                    Some(contents) => {
                        self.files.push(FileDump { relative_path, contents });
                        assert(self.files@.drop_last() =~= old(self).files@);
                    },
                    None => {
                        self.skipped.push(
                            SkippedFile { relative_path, reason: SkipReason::NonUtf8 },
                        );
                        assert(self.skipped@.drop_last() =~= old(self).skipped@);
                    },
                }
            },
        }
    }

    /// Takes note of a failure of the walk that belongs to no entry: it is
    /// listed as skipped under `<walker>`.
    pub fn walker_failed(&mut self, message: String)
        ensures
            final(self).same_run(old(self)),
            final(self).files() == old(self).files(),
            grown_by(
                final(self).skipped(),
                old(self).skipped(),
                SkippedRecord { path: walker_path(), reason: Reason::Io(message@) },
            ),
    {
        self.skipped.push(
            SkippedFile { relative_path: "<walker>".to_owned(), reason: SkipReason::Io(message) },
        );
        assert(self.skipped@.drop_last() =~= old(self).skipped@);
    }

    /// Ends the run: the admitted files and the skipped files, each list
    /// sorted by path.
    pub fn finish(self) -> (lists: (Vec<FileDump>, Vec<SkippedFile>))
        ensures
            is_sorting_of(lists.0@, self.files()),
            is_sorting_of(lists.1@, self.skipped()),
    {
        let mut files = self.files;
        let mut skipped = self.skipped;
        sort_by_path(&mut files);
        sort_by_path(&mut skipped);
        (files, skipped)
    }
}

} // verus!
