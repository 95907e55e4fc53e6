//! A generated seed and the files that belong to it.

use vstd::prelude::*;
use vstd::string::StringExecFns;

verus! {

/// A seed: its name and its files.
pub struct Seed {
    pub name: String,
    pub files: Vec<SeedFile>,
}

/// One file of a seed.
pub struct SeedFile {
    filename: String,
    data: Vec<u8>,
}

impl SeedFile {
    /// The name of the file.
    pub closed spec fn name(&self) -> Seq<char> {
        self.filename@
    }

    /// What the file holds.
    pub closed spec fn contents(&self) -> Seq<u8> {
        self.data@
    }

    /// A file named `filename` that holds `data`.
    pub fn new(filename: &str, data: Vec<u8>) -> (file: Self)
        ensures
            file.name() == filename@,
            file.contents() == data@,
    {
        SeedFile { filename: filename.to_owned(), data }
    }

    /// The name of the file.
    pub fn filename(&self) -> (filename: &str)
        ensures
            filename@ == self.name(),
    {
        self.filename.as_str()
    }

    /// What the file holds.
    pub fn data(&self) -> (data: &Vec<u8>)
        ensures
            data@ == self.contents(),
    {
        &self.data
    }

    /// Gives up the file for its name and what it holds.
    pub fn into_parts(self) -> (parts: (String, Vec<u8>))
        ensures
            parts.0@ == self.name(),
            parts.1@ == self.contents(),
    {
        (self.filename, self.data)
    }
}

/// Where a file of a seed is kept: under `base_path`, in a directory named
/// after the seed, with the ending of a compressed file.
pub fn seed_file_path(base_path: &str, seed_name: &str, filename: &str) -> (path: String)
    ensures
        path@ == base_path@ + seed_name@ + "/"@ + filename@ + ".zstd"@,
{
    let mut path: String = base_path.to_owned();
    path.append(seed_name);
    path.append("/");
    path.append(filename);
    path.append(".zstd");
    path
}

} // verus!
