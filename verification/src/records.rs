//! What a run collects: the files whose text goes into the prompt, and the
//! files left out, each with the reason.

use vstd::prelude::*;
use vstd::string::*;
use crate::text::decimal;
use crate::text::push_decimal;

verus! {

/// Why a file was left out, as a mathematical value.
pub enum Reason {
    /// The file is larger than the limit; its length in bytes.
    TooLarge(nat),
    /// The file's bytes are not valid UTF-8.
    NonUtf8,
    /// The file could not be read; the message of the failure.
    Io(Seq<char>),
}

impl Reason {
    /// The reason in words.
    pub open spec fn text(self) -> Seq<char> {
        match self {
            Reason::TooLarge(len) => "exceeds size limit ("@ + decimal(len) + " bytes)"@,
            Reason::NonUtf8 => "non-UTF-8 content"@,
            Reason::Io(message) => "I/O error: "@ + message,
        }
    }
}

/// An included file as a mathematical value.
pub struct FileRecord {
    pub path: Seq<char>,
    pub contents: Seq<char>,
}

/// A skipped file as a mathematical value.
pub struct SkippedRecord {
    pub path: Seq<char>,
    pub reason: Reason,
}

/// Why a file was left out.
#[derive(Clone, Debug, PartialEq, Eq)]
pub enum SkipReason {
    /// The file is larger than the limit; its length in bytes.
    TooLarge(u64),
    /// The file's bytes are not valid UTF-8.
    NonUtf8,
    /// The file could not be read; the message of the failure.
    Io(String),
}

impl View for SkipReason {
    type V = Reason;

    open spec fn view(&self) -> Reason {
        match self {
            SkipReason::TooLarge(len) => Reason::TooLarge(*len as nat),
            SkipReason::NonUtf8 => Reason::NonUtf8,
            SkipReason::Io(message) => Reason::Io(message@),
        }
    }
}

impl SkipReason {
    /// The reason in words.
    pub fn describe(&self) -> (text: String)
        ensures
            text@ == self@.text(),
    {
        match self {
            SkipReason::TooLarge(len) => {
                let mut text = "exceeds size limit (".to_owned();
                push_decimal(&mut text, *len as u128);
                text.append(" bytes)");
                text
            },
            SkipReason::NonUtf8 => "non-UTF-8 content".to_owned(),
            SkipReason::Io(message) => {
                let mut text = "I/O error: ".to_owned();
                text.append(message.as_str());
                text
            },
        }
    }
}

/// A file whose text goes into the prompt.
#[derive(Clone, Debug, PartialEq, Eq)]
pub struct FileDump {
    /// The file's path, relative to the root of the run.
    pub relative_path: String,
    /// The file's text.
    pub contents: String,
}

impl View for FileDump {
    type V = FileRecord;

    open spec fn view(&self) -> FileRecord {
        FileRecord { path: self.relative_path@, contents: self.contents@ }
    }
}

/// A file that was left out.
#[derive(Clone, Debug, PartialEq, Eq)]
pub struct SkippedFile {
    /// The file's path, relative to the root of the run.
    pub relative_path: String,
    /// Why it was left out.
    pub reason: SkipReason,
}

impl View for SkippedFile {
    type V = SkippedRecord;

    open spec fn view(&self) -> SkippedRecord {
        SkippedRecord { path: self.relative_path@, reason: self.reason@ }
    }
}

/// Something that is listed under a path.
pub trait Listed {
    /// The path it is listed under.
    spec fn path_text(&self) -> Seq<char>;

    /// The path it is listed under.
    fn path(&self) -> (p: &str)
        ensures
            p@ == self.path_text(),
    ;
}

impl Listed for FileDump {
    open spec fn path_text(&self) -> Seq<char> {
        self.relative_path@
    }

    fn path(&self) -> (p: &str) {
        self.relative_path.as_str()
    }
}

impl Listed for SkippedFile {
    open spec fn path_text(&self) -> Seq<char> {
        self.relative_path@
    }

    fn path(&self) -> (p: &str) {
        self.relative_path.as_str()
    }
}

} // verus!
