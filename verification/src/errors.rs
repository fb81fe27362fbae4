use vstd::prelude::*;

use crate::util::clone_bytes;

verus! {

// The unified error type of a preprocessing run.
//
// A run either produces the whole flattened text or one of these: an I/O
// failure (a file that cannot be read), an include whose target no search
// location resolves, a line that the grammar cannot classify, or an
// include cycle, reported when the replay would re-enter a file still
// open on the descent without a once-guard suppressing the re-entry.
// With no guard anywhere in the cycle such a replay would never end;
// with a guard elsewhere it would end after repeating the re-entered
// file, but the engine refuses the re-entry either way.

/// An include target that no candidate location resolved.
#[derive(Debug)]
pub struct FileNotFoundError {
    included_path: Vec<u8>,
    source_file: Vec<u8>,
    source: Vec<u8>,
    line_number: usize,
}

/// The mathematical content of a `FileNotFoundError`.
pub struct FileNotFoundView {
    pub included_path: Seq<u8>,
    pub source_file: Seq<u8>,
    pub source: Seq<u8>,
    pub line_number: int,
}

impl View for FileNotFoundError {
    type V = FileNotFoundView;

    closed spec fn view(&self) -> FileNotFoundView {
        FileNotFoundView {
            included_path: self.included_path@,
            source_file: self.source_file@,
            source: self.source@,
            line_number: self.line_number as int,
        }
    }
}

impl FileNotFoundError {
    /// Builds the error from its parts.
    pub fn new(included_path: Vec<u8>, source_file: Vec<u8>, source: Vec<u8>, line_number: usize) -> (r: Self)
        ensures
            r@ == (FileNotFoundView {
                included_path: included_path@,
                source_file: source_file@,
                source: source@,
                line_number: line_number as int,
            }),
    {
        FileNotFoundError { included_path, source_file, source, line_number }
    }

    /// The unresolved target, as it stood in the directive.
    pub fn included_path(&self) -> (r: &Vec<u8>)
        ensures
            r@ == self@.included_path,
    {
        &self.included_path
    }

    /// The file whose directive failed to resolve.
    pub fn source_file(&self) -> (r: &Vec<u8>)
        ensures
            r@ == self@.source_file,
    {
        &self.source_file
    }

    /// The full text of that file.
    pub fn source(&self) -> (r: &Vec<u8>)
        ensures
            r@ == self@.source,
    {
        &self.source
    }

    /// The 0-based line of the failing directive.
    pub fn line_number(&self) -> (r: usize)
        ensures
            r as int == self@.line_number,
    {
        self.line_number
    }
}

/// A line that the grammar could not classify.
#[derive(Debug)]
pub struct ParseError {
    message: Vec<u8>,
    source_file: Vec<u8>,
    source: Vec<u8>,
    line_number: usize,
}

/// The mathematical content of a `ParseError`.
pub struct ParseErrorView {
    pub message: Seq<u8>,
    pub source_file: Seq<u8>,
    pub source: Seq<u8>,
    pub line_number: int,
}

impl View for ParseError {
    type V = ParseErrorView;

    closed spec fn view(&self) -> ParseErrorView {
        ParseErrorView {
            message: self.message@,
            source_file: self.source_file@,
            source: self.source@,
            line_number: self.line_number as int,
        }
    }
}

/// The one message the grammar reports: a line that no class matches —
/// directive-shaped lines that fail to parse are text, so in practice a
/// bare carriage return that no line feed follows.
pub open spec fn malformed_directive_message() -> Seq<u8> {
    seq![
        109u8, 97u8, 108u8, 102u8, 111u8, 114u8, 109u8, 101u8, 100u8, 32u8, 100u8, 105u8, 114u8,
        101u8, 99u8, 116u8, 105u8, 118u8, 101u8,
    ]
}

impl ParseError {
    /// Builds the error for the malformed line at `line_number`.
    pub fn new(source_file: Vec<u8>, source: Vec<u8>, line_number: usize) -> (r: Self)
        ensures
            r@ == (ParseErrorView {
                message: malformed_directive_message(),
                source_file: source_file@,
                source: source@,
                line_number: line_number as int,
            }),
    {
        // "malformed directive"
        let msg: [u8; 19] = [
            109, 97, 108, 102, 111, 114, 109, 101, 100, 32, 100, 105, 114, 101, 99, 116, 105, 118,
            101,
        ];
        let mut message: Vec<u8> = Vec::new();
        let mut i: usize = 0;
        while i < 19
            invariant
                0 <= i <= 19,
                message@ =~= msg@.subrange(0, i as int),
            decreases 19 - i,
        {
            message.push(msg[i]);
            assert(message@ =~= msg@.subrange(0, i + 1));
            i += 1;
        }
        proof {
            assert(message@ =~= malformed_directive_message());
        }
        ParseError { message, source_file, source, line_number }
    }

    /// What was wrong with the line.
    pub fn message(&self) -> (r: &Vec<u8>)
        ensures
            r@ == self@.message,
    {
        &self.message
    }

    /// The file holding the malformed line.
    pub fn source_file(&self) -> (r: &Vec<u8>)
        ensures
            r@ == self@.source_file,
    {
        &self.source_file
    }

    /// The full text of that file.
    pub fn source(&self) -> (r: &Vec<u8>)
        ensures
            r@ == self@.source,
    {
        &self.source
    }

    /// The 0-based line that failed.
    pub fn line_number(&self) -> (r: usize)
        ensures
            r as int == self@.line_number,
    {
        self.line_number
    }
}

/// A file that could not be read.
#[derive(Debug)]
pub struct IoError {
    path: Vec<u8>,
}

impl View for IoError {
    type V = Seq<u8>;

    closed spec fn view(&self) -> Seq<u8> {
        self.path@
    }
}

impl IoError {
    /// Builds the error for the unreadable `path`.
    pub fn new(path: Vec<u8>) -> (r: Self)
        ensures
            r@ == path@,
    {
        IoError { path }
    }

    /// The path that could not be read.
    pub fn path(&self) -> (r: &Vec<u8>)
        ensures
            r@ == self@,
    {
        &self.path
    }
}

/// An include cycle: the replay would have re-entered a file still open
/// on the descent, and no once-guard suppressed the re-entry.
#[derive(Debug)]
pub struct CycleError {
    path: Vec<u8>,
}

impl View for CycleError {
    type V = Seq<u8>;

    closed spec fn view(&self) -> Seq<u8> {
        self.path@
    }
}

impl CycleError {
    /// Builds the error for the re-entered `path`.
    pub fn new(path: Vec<u8>) -> (r: Self)
        ensures
            r@ == path@,
    {
        CycleError { path }
    }

    /// The canonical path whose re-entry closed the cycle.
    pub fn path(&self) -> (r: &Vec<u8>)
        ensures
            r@ == self@,
    {
        &self.path
    }
}

/// The unified error result of a run.
#[derive(Debug)]
pub enum Error {
    FileNotFound(FileNotFoundError),
    IO(IoError),
    Parse(ParseError),
    Cycle(CycleError),
}

/// The mathematical content of an `Error`.
pub enum ErrorView {
    FileNotFound(FileNotFoundView),
    IO(Seq<u8>),
    Parse(ParseErrorView),
    Cycle(Seq<u8>),
}

impl View for Error {
    type V = ErrorView;

    open spec fn view(&self) -> ErrorView {
        match self {
            Error::FileNotFound(e) => ErrorView::FileNotFound(e@),
            Error::IO(e) => ErrorView::IO(e@),
            Error::Parse(e) => ErrorView::Parse(e@),
            Error::Cycle(e) => ErrorView::Cycle(e@),
        }
    }
}

impl Error {
    /// The I/O error for an unreadable `path`, with the path copied.
    pub fn io_for(path: &Vec<u8>) -> (r: Self)
        ensures
            r@ == ErrorView::IO(path@),
    {
        Error::IO(IoError::new(clone_bytes(path)))
    }
}

} // verus!
