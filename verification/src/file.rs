//! A mock file: a named byte buffer that must be opened before it can be
//! read, whose open and close calls fail once in a great while.

use vstd::prelude::*;

verus! {

/// Whether a file is open for reading.
#[derive(Clone, Copy, Debug, PartialEq, Eq, Structural)]
pub enum FileState {
    Open,
    Closed,
}

/// A named, stateful byte buffer.
#[derive(Debug)]
pub struct File {
    name: String,
    data: Vec<u8>,
    state: FileState,
}

/// What a file looks like to a specification.
pub struct FileView {
    pub name: Seq<char>,
    pub data: Seq<u8>,
    pub state: FileState,
}

impl View for File {
    type V = FileView;

    closed spec fn view(&self) -> FileView {
        FileView { name: self.name@, data: self.data@, state: self.state }
    }
}

/// Relies on `rand::Rng::gen_ratio` on the generator `rand::thread_rng`
/// returns: true with probability `1/d`; nothing is assumed of the outcome.
/// It panics when the denominator is zero, so zero is excluded.
#[verifier::external_body]
fn one_in(d: u32) -> bool
    requires
        d >= 1,
{
    rand::Rng::gen_ratio(&mut rand::thread_rng(), 1, d)
}

impl File {
    /// A new, empty, closed file with the given name.
    pub fn new(name: &str) -> (f: File)
        ensures
            f@.name == name@,
            f@.data == Seq::<u8>::empty(),
            f@.state == FileState::Closed,
    {
        File { name: name.to_owned(), data: Vec::new(), state: FileState::Closed }
    }

    /// A new, closed file holding a copy of the given bytes.
    pub fn new_with_data(name: &str, data: &Vec<u8>) -> (f: File)
        ensures
            f@.name == name@,
            f@.data == data@,
            f@.state == FileState::Closed,
    {
        let mut f = File::new(name);
        f.data = vstd::slice::slice_to_vec(data.as_slice());
        f
    }

    /// How many bytes the file holds.
    pub fn len(&self) -> (r: usize)
        ensures
            r == self@.data.len(),
    {
        self.data.len()
    }

    /// The file's name.
    pub fn name(&self) -> (r: String)
        ensures
            r@ == self@.name,
    {
        self.name.clone()
    }

    /// Appends the whole contents to `save_to` and returns how many bytes
    /// were read. Fails, changing nothing, when the file is not open.
    pub fn read(&self, save_to: &mut Vec<u8>) -> (r: Result<usize, String>)
        requires
            old(save_to)@.len() + self@.data.len() <= usize::MAX,
        ensures
            self@.state == FileState::Open ==> {
                &&& r == Ok::<usize, String>(self@.data.len() as usize)
                &&& final(save_to)@ == old(save_to)@ + self@.data
            },
            self@.state != FileState::Open ==> {
                &&& r matches Err(m) && m@ == "File must be open for reading"@
                &&& final(save_to)@ == old(save_to)@
            },
    {
        if !matches!(self.state, FileState::Open) {
            return Err("File must be open for reading".to_owned());
        }
        let read_length = self.data.len();
        save_to.extend_from_slice(self.data.as_slice());
        Ok(read_length)
    }
}

/// Marks the file open. Once in about ten thousand calls it fails instead,
/// consuming the file and reporting a permission error.
pub fn open(f: File) -> (r: Result<File, String>)
    ensures
        r matches Ok(g) ==> g@ == (FileView { state: FileState::Open, ..f@ }),
        r matches Err(m) ==> m@ == "permission denied"@,
{
    let mut f = f;
    f.state = FileState::Open;
    if one_in(10_000) {
        let err_msg = "permission denied".to_owned();
        return Err(err_msg);
    }
    Ok(f)
}

/// Marks the file closed. Once in about a hundred thousand calls it fails
/// instead, consuming the file and reporting an interrupt.
pub fn close(f: File) -> (r: Result<File, String>)
    ensures
        r matches Ok(g) ==> g@ == (FileView { state: FileState::Closed, ..f@ }),
        r matches Err(m) ==> m@ == "Interrput by signal"@,
{
    let mut f = f;
    f.state = FileState::Closed;
    if one_in(100_000) {
        let err_msg = "Interrput by signal".to_owned();
        return Err(err_msg);
    }
    Ok(f)
}

} // verus!
