use vstd::prelude::*;

use std::path::PathBuf;

use vstd::string::StringExecFns;

use crate::decode::same_bytes;
use crate::value::Benc;

verus! {

/// A file-system path, carried through as it is.
#[verifier::external_type_specification]
#[verifier::external_body]
pub struct ExPathBuf(std::path::PathBuf);

/// Relies on `std::path::Path::is_absolute`. What counts as absolute differs
/// between platforms, so nothing is stated of the result.
#[verifier::external_body]
fn is_absolute(p: &PathBuf) -> (r: bool) {
    p.is_absolute()
}

/// The text that `String::from_utf8` makes of the bytes `b`: `None` where
/// they are not valid UTF-8.
pub uninterp spec fn utf8_text(b: Seq<u8>) -> Option<Seq<char>>;

/// Relies on `std::str::from_utf8`: decodes UTF-8, refusing invalid input.
#[verifier::external_body]
fn text_of(b: &Vec<u8>) -> (r: Option<String>)
    ensures
        match r {
            Some(t) => utf8_text(b@) == Some(t@),
            None => utf8_text(b@) is None,
        },
{
    std::str::from_utf8(b).ok().map(|t| t.to_owned())
}

/// Relies on `std::path::PathBuf::push`: appends `part` to the path.
#[verifier::external_body]
fn push_component(p: &mut PathBuf, part: &str) {
    p.push(part)
}

/// Relies on `Clone` for `std::path::PathBuf`: a second, equal path.
#[verifier::external_body]
fn copy_path(p: &PathBuf) -> (r: PathBuf) {
    p.clone()
}

/// The key `name`.
pub open spec fn name_key() -> Seq<u8> {
    seq![110, 97, 109, 101]
}

/// The key `length`.
pub open spec fn length_key() -> Seq<u8> {
    seq![108, 101, 110, 103, 116, 104]
}

/// The key `md5sum`.
pub open spec fn md5sum_key() -> Seq<u8> {
    seq![109, 100, 53, 115, 117, 109]
}

/// The key `files`.
pub open spec fn files_key() -> Seq<u8> {
    seq![102, 105, 108, 101, 115]
}

/// The index of the first entry from `i` on whose key is `k`.
pub open spec fn key_position(d: Seq<(Vec<u8>, Benc)>, k: Seq<u8>, i: int) -> Option<int>
    decreases d.len() - i,
{
    if i < 0 || i >= d.len() {
        None
    } else if d[i].0@ == k {
        Some(i)
    } else {
        key_position(d, k, i + 1)
    }
}

/// The value of the first entry whose key is `k`.
pub open spec fn lookup(d: Seq<(Vec<u8>, Benc)>, k: Seq<u8>) -> Option<Benc> {
    match key_position(d, k, 0) {
        Some(i) => Some(d[i].1),
        None => None,
    }
}

/// `d` without its first entry whose key is `k`.
pub open spec fn without(d: Seq<(Vec<u8>, Benc)>, k: Seq<u8>) -> Seq<(Vec<u8>, Benc)> {
    match key_position(d, k, 0) {
        Some(i) => d.remove(i),
        None => d,
    }
}

/// The texts of the byte strings `parts`, joined; `None` where one of them
/// is not a byte string of valid UTF-8.
pub open spec fn joined_text(parts: Seq<Benc>) -> Option<Seq<char>>
    decreases parts.len(),
{
    if parts.len() == 0 {
        Some(Seq::empty())
    } else {
        match (joined_text(parts.subrange(0, parts.len() - 1)), parts[parts.len() - 1]) {
            (Some(t), Benc::String(b)) => match utf8_text(b@) {
                Some(x) => Some(t + x),
                None => None,
            },
            _ => None,
        }
    }
}

/// The md5sum of a file entry: the text of its `md5sum` byte string, if it
/// has one that is valid UTF-8.
pub open spec fn md5sum_text(d: Seq<(Vec<u8>, Benc)>) -> Option<Seq<char>> {
    match lookup(d, md5sum_key()) {
        Some(Benc::String(b)) => utf8_text(b@),
        _ => None,
    }
}

/// What a file entry of a torrent describes, where it is well formed: its
/// name (the parts of its `name` list, joined), its `length`, which must not
/// be negative, and its md5sum.
pub open spec fn file_fields(d: Seq<(Vec<u8>, Benc)>) -> Option<
    (Seq<char>, u64, Option<Seq<char>>),
> {
    match (lookup(d, name_key()), lookup(d, length_key())) {
        (Some(Benc::List(parts)), Some(Benc::Int(n))) => match joined_text(parts@) {
            Some(t) => if n >= 0 {
                Some((t, n as u64, md5sum_text(d)))
            } else {
                None
            },
            None => None,
        },
        _ => None,
    }
}

pub open spec fn text_view(t: Option<String>) -> Option<Seq<char>> {
    match t {
        Some(s) => Some(s@),
        None => None,
    }
}

/// Whether every item is a well-formed file entry.
pub open spec fn file_entries_ok(items: Seq<Benc>) -> bool {
    forall|i: int|
        0 <= i < items.len() ==> (#[trigger] items[i] matches Benc::Dict(d) && file_fields(d@)
            is Some)
}

/// Whether `f` is the file that the entry `item` describes.
pub open spec fn file_matches(item: Benc, f: File) -> bool {
    item matches Benc::Dict(e) && file_fields(e@) == Some(
        (f.spec_name()@, f.spec_length(), text_view(f.spec_md5sum())),
    )
}

/// Whether `files` are the files that the entries `items` describe, in order.
pub open spec fn files_match(items: Seq<Benc>, files: Seq<File>) -> bool {
    items.len() == files.len() && forall|i: int|
        0 <= i < items.len() ==> file_matches(#[trigger] items[i], files[i])
}

proof fn lemma_joined_text_prefix(parts: Seq<Benc>, j: int)
    requires
        0 <= j <= parts.len(),
        joined_text(parts.subrange(0, j)) is None,
    ensures
        joined_text(parts) is None,
    decreases parts.len() - j,
{
    if j < parts.len() {
        assert(parts.subrange(0, j + 1).subrange(0, j) =~= parts.subrange(0, j));
        lemma_joined_text_prefix(parts, j + 1);
    } else {
        assert(parts.subrange(0, j) =~= parts);
    }
}

/// The index of the first entry of `d` whose key is `k`.
fn key_index(d: &Vec<(Vec<u8>, Benc)>, k: &Vec<u8>) -> (r: Option<usize>)
    ensures
        match r {
            Some(i) => key_position(d@, k@, 0) == Some(i as int) && i < d@.len(),
            None => key_position(d@, k@, 0) is None,
        },
{
    let mut i: usize = 0;
    while i < d.len()
        invariant
            i <= d@.len(),
            key_position(d@, k@, 0) == key_position(d@, k@, i as int),
        decreases d.len() - i,
    {
        if same_bytes(&d[i].0, k) {
            return Some(i);
        }
        i = i + 1;
    }
    None
}

/// Removes the first entry of `d` whose key is `k`.
fn remove_key(d: &mut Vec<(Vec<u8>, Benc)>, k: &Vec<u8>)
    ensures
        final(d)@ == without(old(d)@, k@),
{
    match key_index(d, k) {
        Some(i) => {
            let _ = d.remove(i);
        },
        None => {},
    }
}

fn name_key_bytes() -> (r: Vec<u8>)
    ensures
        r@ == name_key(),
{
    let r = vec![110, 97, 109, 101];
    assert(r@ =~= name_key());
    r
}

fn length_key_bytes() -> (r: Vec<u8>)
    ensures
        r@ == length_key(),
{
    let r = vec![108, 101, 110, 103, 116, 104];
    assert(r@ =~= length_key());
    r
}

fn md5sum_key_bytes() -> (r: Vec<u8>)
    ensures
        r@ == md5sum_key(),
{
    let r = vec![109, 100, 53, 115, 117, 109];
    assert(r@ =~= md5sum_key());
    r
}

fn files_key_bytes() -> (r: Vec<u8>)
    ensures
        r@ == files_key(),
{
    let r = vec![102, 105, 108, 101, 115];
    assert(r@ =~= files_key());
    r
}

const SLASH: u8 = 47;

const DOT: u8 = 46;

/// Pushes the component `name[start..end]` onto `path` where it is `.` or
/// `..`.
fn push_if_dots(path: &mut PathBuf, name: &Vec<u8>, start: usize, end: usize)
    requires
        start <= end <= name@.len(),
{
    let len = end - start;
    if len == 1 && name[start] == DOT {
        push_component(path, ".");
    } else if len == 2 && name[start] == DOT && name[start + 1] == DOT {
        push_component(path, "..");
    }
}

/// Where a file or directory stands in its download.
#[derive(Debug, Clone, PartialEq, Eq)]
pub enum Status {
    NotCreated,
    Downloading,
    Stopped,
    Seeding,
    Skip,
    Done,
    /// Can contain the last known location of the file
    Missing(Option<PathBuf>),
    /// An optional string describing the error
    Other(Option<String>),
}

impl Default for Status {
    fn default() -> (r: Status)
        ensures
            r == Status::NotCreated,
    {
        Status::NotCreated
    }
}

/// What can go wrong while moving files.
#[derive(Debug)]
pub enum MvError<'a> {
    /// A generic I/O error
    Io(std::io::Error),
    /// Errors while moving `File`s: each file that failed, with its error
    MoveErrors(Vec<(&'a File, std::io::Error)>),
}

/// Single file
#[derive(Debug, PartialEq, Eq)]
pub struct File {
    /// Filename as described in the torrent file
    name: String,
    /// Download location as an absolute path. The file might not exist, see
    /// `status` for more information
    path: PathBuf,
    /// Size of file in bytes
    length: u64,
    /// Optional md5sum of the file
    pub md5sum: Option<String>,
    /// Status of the file
    pub status: Status,
}

impl File {
    /// Creates a `File` named `name`, to be stored at `path`, `length` bytes
    /// long, not yet created and without an md5sum. Gives `None` where
    /// `path` is not absolute.
    pub fn new(name: String, path: PathBuf, length: u64) -> (r: Option<File>)
        ensures
            r matches Some(f) ==> f.spec_name() == name && f.spec_path() == path
                && f.spec_length() == length && f.spec_md5sum() is None && f.spec_status() == Status::NotCreated,
    {
        if !is_absolute(&path) {
            return None;
        }
        Some(File { name, path, length, md5sum: None, status: Status::NotCreated })
    }

    /// Creates a `File` from a file entry of a torrent: its `name` list of
    /// path parts, its `length` and its optional `md5sum`. The file is to be
    /// stored at `base` followed by the name's parts. Gives `None` where the
    /// entry is not well formed; `d` is left as it is.
    pub fn from_entries(d: &Vec<(Vec<u8>, Benc)>, base: PathBuf) -> (r: Option<File>)
        ensures
            r is Some <==> file_fields(d@) is Some,
            r matches Some(f) ==> file_fields(d@) == Some(
                (f.spec_name()@, f.spec_length(), text_view(f.spec_md5sum())),
            ) && f.spec_status() == Status::NotCreated,
    {
        let length = match key_index(d, &length_key_bytes()) {
            Some(i) => match &d[i].1 {
                Benc::Int(n) => *n,
                _ => return None,
            },
            None => return None,
        };
        let parts = match key_index(d, &name_key_bytes()) {
            Some(i) => match &d[i].1 {
                Benc::List(l) => l,
                _ => return None,
            },
            None => return None,
        };
        let mut name = String::new();
        let mut path = base;
        let mut j: usize = 0;
        while j < parts.len()
            invariant
                j <= parts@.len(),
                joined_text(parts@.subrange(0, j as int)) == Some(name@),
                lookup(d@, name_key()) == Some(Benc::List(*parts)),
                lookup(d@, length_key()) == Some(Benc::Int(length)),
            decreases parts.len() - j,
        {
            assert(parts@.subrange(0, j + 1).subrange(0, j as int) =~= parts@.subrange(
                0,
                j as int,
            ));
            match &parts[j] {
                Benc::String(b) => match text_of(b) {
                    Some(t) => {
                        name.append(t.as_str());
                        push_component(&mut path, t.as_str());
                    },
                    None => {
                        proof {
                            lemma_joined_text_prefix(parts@, j + 1);
                        }
                        return None;
                    },
                },
                _ => {
                    proof {
                        lemma_joined_text_prefix(parts@, j + 1);
                    }
                    return None;
                },
            }
            j = j + 1;
        }
        assert(parts@.subrange(0, parts@.len() as int) =~= parts@);
        if length < 0 {
            return None;
        }
        let md5sum = match key_index(d, &md5sum_key_bytes()) {
            Some(i) => match &d[i].1 {
                Benc::String(b) => text_of(b),
                _ => None,
            },
            None => None,
        };
        Some(File { name, path, length: length as u64, md5sum, status: Status::NotCreated })
    }

    /// Creates a `File` from a file entry of a torrent, as `from_entries`
    /// does, and takes the entry's `md5sum`, `name` and `length` out of `d`.
    /// Where the entry is not well formed, gives `None` and leaves `d` as it
    /// is.
    pub fn from_dict(d: &mut Vec<(Vec<u8>, Benc)>, base: PathBuf) -> (r: Option<File>)
        ensures
            r is Some <==> file_fields(old(d)@) is Some,
            r matches Some(f) ==> file_fields(old(d)@) == Some(
                (f.spec_name()@, f.spec_length(), text_view(f.spec_md5sum())),
            ) && f.spec_status() == Status::NotCreated,
            r is Some ==> final(d)@ == without(
                without(without(old(d)@, md5sum_key()), name_key()),
                length_key(),
            ),
            r is None ==> final(d)@ == old(d)@,
    {
        let r = File::from_entries(d, base);
        if r.is_some() {
            remove_key(d, &md5sum_key_bytes());
            remove_key(d, &name_key_bytes());
            remove_key(d, &length_key_bytes());
        }
        r
    }

    pub closed spec fn spec_name(&self) -> String {
        self.name
    }

    pub closed spec fn spec_path(&self) -> PathBuf {
        self.path
    }

    pub closed spec fn spec_length(&self) -> u64 {
        self.length
    }

    pub closed spec fn spec_md5sum(&self) -> Option<String> {
        self.md5sum
    }

    pub closed spec fn spec_status(&self) -> Status {
        self.status
    }

    /// The file's name.
    pub fn name(&self) -> (r: &String)
        ensures
            *r == self.spec_name(),
    {
        &self.name
    }

    /// Where the file should be stored on disk.
    pub fn path(&self) -> (r: &PathBuf)
        ensures
            *r == self.spec_path(),
    {
        &self.path
    }

    /// The size of the file in bytes.
    pub fn length(&self) -> (r: u64)
        ensures
            r == self.spec_length(),
    {
        self.length
    }

    /// Whether moving this file means moving it on disk: a file not yet
    /// created, or missing, only has its path changed.
    pub fn is_on_disk(&self) -> (r: bool)
        ensures
            r == !(self.spec_status() is NotCreated || self.spec_status() is Missing),
    {
        match self.status {
            Status::NotCreated | Status::Missing(_) => false,
            _ => true,
        }
    }

    /// Records that the file now stands at `p`. The caller has checked that
    /// `p` is absolute.
    pub fn set_path(&mut self, p: PathBuf)
        ensures
            final(self).spec_path() == p,
            final(self).spec_name() == old(self).spec_name(),
            final(self).spec_length() == old(self).spec_length(),
            final(self).spec_md5sum() == old(self).spec_md5sum(),
            final(self).spec_status() == old(self).spec_status(),
    {
        self.path = p;
    }
}

/// Multi-file structure
#[derive(Debug, PartialEq, Eq)]
pub struct Directory {
    /// Root directory that all `files` are under. This must be an absolute path.
    path: PathBuf,
    /// The files of the directory
    files: Vec<File>,
    /// Status of the directory, independent from the files it owns
    pub status: Status,
}

impl Directory {
    /// Creates an empty `Directory` at `path`, not yet created. Gives `None`
    /// where `path` is not absolute.
    pub fn new(path: PathBuf) -> (r: Option<Directory>)
        ensures
            r matches Some(d) ==> d.spec_path() == path && d.spec_files().len() == 0 && d.spec_status()
                == Status::NotCreated,
    {
        Directory::with_capacity(path, 0)
    }

    /// Creates an empty `Directory` at `path` with room for `cap` files.
    /// Gives `None` where `path` is not absolute.
    pub fn with_capacity(path: PathBuf, cap: usize) -> (r: Option<Directory>)
        ensures
            r matches Some(d) ==> d.spec_path() == path && d.spec_files().len() == 0 && d.spec_status()
                == Status::NotCreated,
    {
        if !is_absolute(&path) {
            return None;
        }
        Some(Directory { path, files: Vec::with_capacity(cap), status: Status::NotCreated })
    }

    /// Creates a `Directory` from the info dictionary of a multi-file
    /// torrent: its `name` byte string and its `files` list of file entries.
    /// The root is `base` followed by the `.` and `..` components of the
    /// slash-separated name; each file is stored at `base` followed by its
    /// own name's parts. Gives `None`, leaving `d` as it is, where `name` is
    /// not a byte string, `files` is not a list, or one of its items is not
    /// a well-formed file entry; otherwise takes `name` and `files` out of
    /// `d`.
    pub fn from_dict(d: &mut Vec<(Vec<u8>, Benc)>, base: PathBuf) -> (r: Option<Directory>)
        ensures
            r is Some <==> (lookup(old(d)@, name_key()) matches Some(Benc::String(_))
                && lookup(old(d)@, files_key()) matches Some(Benc::List(items))
                && file_entries_ok(items@)),
            r matches Some(dir) ==> (dir.spec_status() == Status::NotCreated && (lookup(
                old(d)@,
                files_key(),
            ) matches Some(Benc::List(items)) && files_match(items@, dir.spec_files()))),
            r is Some ==> final(d)@ == without(without(old(d)@, name_key()), files_key()),
            r is None ==> final(d)@ == old(d)@,
    {
        let name = match key_index(d, &name_key_bytes()) {
            Some(i) => match &d[i].1 {
                Benc::String(b) => b,
                _ => return None,
            },
            None => return None,
        };
        let items = match key_index(d, &files_key_bytes()) {
            Some(i) => match &d[i].1 {
                Benc::List(l) => l,
                _ => return None,
            },
            None => return None,
        };
        let mut files: Vec<File> = Vec::with_capacity(items.len());
        let mut j: usize = 0;
        while j < items.len()
            invariant
                j <= items@.len(),
                files@.len() == j,
                forall|i: int| 0 <= i < j ==> file_matches(#[trigger] items@[i], files@[i]),
                lookup(d@, name_key()) matches Some(Benc::String(_)),
                lookup(d@, files_key()) == Some(Benc::List(*items)),
            decreases items.len() - j,
        {
            let f = match &items[j] {
                Benc::Dict(e) => match File::from_entries(e, copy_path(&base)) {
                    Some(f) => f,
                    None => {
                        assert(!file_entries_ok(items@)) by {
                            assert(!(items@[j as int] matches Benc::Dict(e) && file_fields(e@)
                                is Some));
                        }
                        return None;
                    },
                },
                _ => {
                    assert(!file_entries_ok(items@)) by {
                        assert(!(items@[j as int] matches Benc::Dict(e) && file_fields(e@) is Some));
                    }
                    return None;
                },
            };
            files.push(f);
            j = j + 1;
        }
        let mut path = base;
        let mut start: usize = 0;
        let mut k: usize = 0;
        while k < name.len()
            invariant
                start <= k <= name@.len(),
            decreases name@.len() - k,
        {
            if name[k] == SLASH {
                push_if_dots(&mut path, name, start, k);
                start = k + 1;
            }
            k = k + 1;
        }
        push_if_dots(&mut path, name, start, name.len());
        remove_key(d, &name_key_bytes());
        remove_key(d, &files_key_bytes());
        Some(Directory { path, files, status: Status::NotCreated })
    }

    pub closed spec fn spec_path(&self) -> PathBuf {
        self.path
    }

    pub closed spec fn spec_files(&self) -> Seq<File> {
        self.files@
    }

    pub closed spec fn spec_status(&self) -> Status {
        self.status
    }

    /// The root directory.
    pub fn path(&self) -> (r: &PathBuf)
        ensures
            *r == self.spec_path(),
    {
        &self.path
    }

    /// The files that the directory manages, in the order they were added.
    pub fn files(&self) -> (r: &Vec<File>)
        ensures
            r@ == self.spec_files(),
    {
        &self.files
    }

    /// Adds a `File` to be managed by the `Directory`. Its location is not
    /// changed.
    pub fn add_file(&mut self, file: File)
        ensures
            final(self).spec_files() == old(self).spec_files().push(file),
            final(self).spec_path() == old(self).spec_path(),
            final(self).spec_status() == old(self).spec_status(),
    {
        self.files.push(file)
    }

    /// Moves `files` to be owned by the `Directory`, after those it has.
    /// Their locations are not changed.
    pub fn add_files(&mut self, files: Vec<File>)
        ensures
            final(self).spec_files() == old(self).spec_files() + files@,
            final(self).spec_path() == old(self).spec_path(),
            final(self).spec_status() == old(self).spec_status(),
    {
        let mut files = files;
        self.files.append(&mut files);
    }

    /// Takes the files out of the `Directory`, leaving it with none.
    pub fn take_files(&mut self) -> (r: Vec<File>)
        ensures
            r@ == old(self).spec_files(),
            final(self).spec_files().len() == 0,
            final(self).spec_path() == old(self).spec_path(),
            final(self).spec_status() == old(self).spec_status(),
    {
        let mut files: Vec<File> = Vec::new();
        std::mem::swap(&mut self.files, &mut files);
        files
    }

    /// Records that the root directory now stands at `p`. The caller has
    /// checked that `p` is absolute.
    pub fn set_path(&mut self, p: PathBuf)
        ensures
            final(self).spec_path() == p,
            final(self).spec_files() == old(self).spec_files(),
            final(self).spec_status() == old(self).spec_status(),
    {
        self.path = p;
    }
}

} // verus!
