use std::path::PathBuf;

use libbittorrent::files::{Directory, File, Status};
use libbittorrent::value::Benc;

const LEN: u64 = 256;

fn path_abs() -> PathBuf {
    PathBuf::from("/tmp/こんにちは")
}

#[test]
fn file_new_keeps_fields() {
    let f = File::new("こんにちは".to_owned(), path_abs(), LEN).expect("absolute path");
    assert_eq!(f.name(), "こんにちは");
    assert_eq!(f.path(), &path_abs());
    assert_eq!(f.length(), LEN);
    assert_eq!(f.md5sum, None);
    assert_eq!(f.status, Status::NotCreated);
}

#[test]
fn file_new_refuses_relative_path() {
    assert!(File::new("a".to_owned(), PathBuf::from("relative"), LEN).is_none());
}

#[test]
fn directory_new_refuses_relative_path() {
    assert!(Directory::new(PathBuf::from("")).is_none());
}

#[test]
fn directory_with_capacity() {
    let d = Directory::with_capacity(path_abs(), 8).expect("absolute path");
    assert_eq!(d.path(), &path_abs());
    assert_eq!(d.files().len(), 0);
    assert!(d.files().capacity() >= 8);
    assert_eq!(d.status, Status::NotCreated);
}

#[test]
fn add_file() {
    let mut d = Directory::new(path_abs()).unwrap();
    let path = path_abs().join("file");
    d.add_file(File::new("file".to_owned(), path.clone(), LEN).unwrap());

    assert_eq!(d.files().len(), 1);
    assert!(d.files()[0] == File::new("file".to_owned(), path, LEN).unwrap());
}

#[test]
fn add_files() {
    let path = path_abs();
    let mut dir = Directory::new(path.clone()).unwrap();
    let mut files = Vec::new();
    let mut copy = Vec::new();

    for i in 0..8u64 {
        let name = format!("file-{}.ext", i);
        let fpath = path.join(name.clone());
        files.push(File::new(name.clone(), fpath.clone(), i * i).unwrap());
        copy.push(File::new(name, fpath, i * i).unwrap());
    }

    dir.add_file(File::new("first".to_owned(), path.join("first"), 1).unwrap());
    dir.add_files(files);
    assert_eq!(dir.files().len(), 9);
    assert!(dir.files()[1..] == copy[..]);
}

#[test]
fn moving_on_disk_depends_on_status() {
    let mut f = File::new("a".to_owned(), path_abs(), LEN).unwrap();
    assert!(!f.is_on_disk());
    f.status = Status::Missing(None);
    assert!(!f.is_on_disk());
    f.status = Status::Seeding;
    assert!(f.is_on_disk());
    f.set_path(PathBuf::from("/tmp/elsewhere"));
    assert_eq!(f.path(), &PathBuf::from("/tmp/elsewhere"));
    assert_eq!(f.status, Status::Seeding);
}

#[test]
fn status_default() {
    assert_eq!(Status::default(), Status::NotCreated);
}

fn file_entry(name: &[&str], length: i64) -> Vec<(Vec<u8>, Benc)> {
    vec![
        (b"length".to_vec(), Benc::Int(length)),
        (
            b"name".to_vec(),
            Benc::List(name.iter().map(|p| Benc::String(p.as_bytes().to_vec())).collect()),
        ),
    ]
}

#[test]
fn files_from_dict() {
    let mut d = file_entry(&["dir", "file.ext"], 256);
    d.push((b"md5sum".to_vec(), Benc::String(b"0123456789abcdef".to_vec())));
    d.push((b"other".to_vec(), Benc::Int(1)));

    let f = File::from_dict(&mut d, PathBuf::from("/tmp")).expect("well-formed entry");
    assert_eq!(f.name(), "dirfile.ext");
    assert_eq!(f.path(), &PathBuf::from("/tmp/dir/file.ext"));
    assert_eq!(f.length(), 256);
    assert_eq!(f.md5sum, Some("0123456789abcdef".to_owned()));
    assert_eq!(f.status, Status::NotCreated);
    assert_eq!(d, vec![(b"other".to_vec(), Benc::Int(1))]);

    let mut dir = vec![
        (b"files".to_vec(), Benc::List(vec![Benc::Dict(file_entry(&["a"], 1)), Benc::Dict(file_entry(&["b", "c"], 2))])),
        (b"name".to_vec(), Benc::String(b"root/../x/.".to_vec())),
        (b"piece length".to_vec(), Benc::Int(16)),
    ];
    let d = Directory::from_dict(&mut dir, PathBuf::from("/tmp")).expect("well-formed info");
    assert_eq!(d.path(), &PathBuf::from("/tmp/../."));
    assert_eq!(d.files().len(), 2);
    assert_eq!(d.files()[0].name(), "a");
    assert_eq!(d.files()[1].name(), "bc");
    assert_eq!(d.files()[1].path(), &PathBuf::from("/tmp/b/c"));
    assert_eq!(d.files()[1].length(), 2);
    assert_eq!(dir, vec![(b"piece length".to_vec(), Benc::Int(16))]);
}

#[test]
fn file_from_dict_refuses_malformed_entries() {
    let mut d = file_entry(&["a"], -1);
    let before = file_entry(&["a"], -1);
    assert!(File::from_dict(&mut d, PathBuf::from("/tmp")).is_none());
    assert_eq!(d, before);

    let mut d = vec![(b"length".to_vec(), Benc::Int(1))];
    assert!(File::from_dict(&mut d, PathBuf::from("/tmp")).is_none());
    assert_eq!(d.len(), 1);

    let mut d = vec![
        (b"length".to_vec(), Benc::Int(1)),
        (b"name".to_vec(), Benc::List(vec![Benc::String(vec![0xff, 0xfe])])),
    ];
    assert!(File::from_dict(&mut d, PathBuf::from("/tmp")).is_none());

    let mut d = vec![
        (b"length".to_vec(), Benc::Int(1)),
        (b"name".to_vec(), Benc::List(vec![Benc::Int(3)])),
    ];
    assert!(File::from_dict(&mut d, PathBuf::from("/tmp")).is_none());
}

#[test]
fn file_without_valid_md5sum_has_none() {
    let mut d = file_entry(&["a"], 0);
    d.push((b"md5sum".to_vec(), Benc::String(vec![0xff])));
    let f = File::from_dict(&mut d, PathBuf::from("/tmp")).unwrap();
    assert_eq!(f.md5sum, None);
    assert!(d.is_empty());
}

#[test]
fn directory_from_dict_refuses_bad_files() {
    let mut dir = vec![
        (b"files".to_vec(), Benc::List(vec![Benc::Int(1)])),
        (b"name".to_vec(), Benc::String(b"root".to_vec())),
    ];
    assert!(Directory::from_dict(&mut dir, PathBuf::from("/tmp")).is_none());
    assert_eq!(dir.len(), 2);

    let mut dir = vec![(b"files".to_vec(), Benc::List(vec![]))];
    assert!(Directory::from_dict(&mut dir, PathBuf::from("/tmp")).is_none());
}
