use foldy::memory::{MemoryFile, MemorySource, SeekFrom};
use foldy::path::{join_path, split_path};
use foldy::{File, FoldyError};

fn listing(source: &MemorySource, path: &str) -> Vec<Vec<u8>> {
    let mut iter = source.read_dir(path).unwrap();
    let mut out = Vec::new();
    while let Some(entry) = iter.next() {
        out.push(entry.unwrap().path().to_vec());
    }
    out
}

#[test]
fn read_dir() {
    let mut source = MemorySource::default();
    source.create_dir("/a1").unwrap();
    source.create_dir("/b2").unwrap();
    source.create_dir("/c3").unwrap();
    let iter = source.read_dir("/").unwrap();
    assert_eq!(iter.len(), 3);
}

#[test]
fn source_file_lookup() {
    let mut source = MemorySource::default();
    assert_eq!(
        source.open("balls").err().unwrap(),
        FoldyError::DirectoryNotFound
    );

    source.open_mut("balls").unwrap();
    source.open("balls").unwrap();
    source.open("/balls").unwrap();

    source.create_dir("/asdf").unwrap();

    // A directory is not a file: opening one for reading reports the file as missing.
    assert_eq!(source.open("/asdf").err().unwrap(), FoldyError::FileNotFound);

    source.open_mut("/asdf/123").unwrap();
    source.open("/asdf/123").unwrap();
    source.open("/asdf/123").unwrap();

    source.create_dir("/asdf/abc").unwrap();
    source.open_mut("/asdf/abc/fff").unwrap();
    source.open("/asdf/abc/fff").unwrap();
}

#[test]
fn memory_file_stdio() {
    let test_data: [u8; 16] = [0, 1, 2, 3, 4, 5, 6, 7, 8, 9, 10, 11, 12, 13, 14, 15];
    let mut file = MemoryFile::from_slice(&test_data);

    let mut buffer = Vec::new();
    file.read_to_end(&mut buffer).unwrap();

    assert_eq!(&buffer, &test_data);
}

#[test]
fn memory_file() {
    let test_data: [u8; 16] = [0, 1, 2, 3, 4, 5, 6, 7, 8, 9, 10, 11, 12, 13, 14, 15];
    let mut test_read: [u8; 16] = [0; 16];
    let mut file = MemoryFile::default();
    file.write(&test_data).unwrap();

    File::seek(&mut file, 0).unwrap();
    assert_eq!(file.position(), 0);
    File::read(&mut file, &mut test_read).unwrap();
    assert_eq!(&test_data, &test_read);
}

#[test]
fn create_dir_again_is_a_no_op() {
    let mut source = MemorySource::default();
    source.create_dir("/d").unwrap();
    source.create_dir("/d").unwrap();
    source.create_dir("d/").unwrap();
    assert_eq!(listing(&source, "/"), vec![b"/d".to_vec()]);
}

#[test]
fn write_seek_read_round_trip() {
    let bytes: Vec<u8> = vec![7, 0, 255, 3, 9];
    let mut file = MemoryFile::from_slice(&[1, 1, 1, 1, 1, 1, 1, 1]);
    assert_eq!(file.write(&bytes), Ok(5));
    assert_eq!(file.seek(0), Ok(0));
    let mut buf = [0u8; 5];
    assert_eq!(file.read(&mut buf), Ok(5));
    assert_eq!(buf.to_vec(), bytes);
    assert_eq!(file.data, vec![7, 0, 255, 3, 9, 1, 1, 1]);
}

#[test]
fn seek_past_end_zero_fills() {
    let mut fresh = MemoryFile::default();
    assert_eq!(fresh.seek(5), Ok(5));
    assert_eq!(fresh.data, vec![0, 0, 0, 0, 0]);
    assert_eq!(fresh.position(), 5);

    let mut file = MemoryFile::from_slice(&[1, 2, 3, 4]);
    assert_eq!(file.seek(5), Ok(5));
    assert_eq!(file.position(), 5);
    assert_eq!(file.data, vec![1, 2, 3, 4, 0, 0, 0, 0]);

    let mut within = MemoryFile::from_slice(&[1, 2, 3, 4]);
    assert_eq!(within.seek(2), Ok(2));
    assert_eq!(within.data, vec![1, 2, 3, 4]);
}

#[test]
fn read_past_end_returns_zero() {
    let mut file = MemoryFile::from_slice(&[1, 2, 3]);
    let mut buf = [9u8; 8];
    assert_eq!(file.read(&mut buf), Ok(3));
    assert_eq!(buf, [1, 2, 3, 9, 9, 9, 9, 9]);
    assert_eq!(file.position(), 3);
    assert_eq!(file.read(&mut buf), Ok(0));
    assert_eq!(file.position(), 3);

    let mut beyond = MemoryFile { data: vec![1, 2], stream_offset: 6 };
    assert_eq!(beyond.read(&mut buf), Ok(0));
    assert_eq!(beyond.position(), 6);
}

#[test]
fn open_without_parent_or_through_file() {
    let mut source = MemorySource::default();
    assert_eq!(source.open("/no/f").err(), Some(FoldyError::DirectoryNotFound));
    assert_eq!(source.open_mut("/no/f").err(), Some(FoldyError::DirectoryNotFound));
    source.open_mut("/file").unwrap();
    assert_eq!(source.open("/file/x").err(), Some(FoldyError::InvalidPath));
    assert_eq!(source.open_mut("/file/x").err(), Some(FoldyError::InvalidPath));
    assert_eq!(source.open_mut("/file/x/y").err(), Some(FoldyError::InvalidPath));
    assert_eq!(source.create_dir("/file/x").err(), Some(FoldyError::InvalidPath));
}

#[test]
fn scenario_file_then_directory() {
    let mut source = MemorySource::default();
    assert_eq!(source.open("/a").err(), Some(FoldyError::DirectoryNotFound));
    assert!(source.open_mut("/a").is_ok());
    assert!(source.open("/a").is_ok());
    assert_eq!(source.create_dir("/a"), Err(FoldyError::InvalidPath));
}

#[test]
fn scenario_nested_listing() {
    let mut source = MemorySource::default();
    source.create_dir("/x").unwrap();
    source.create_dir("/x/y").unwrap();
    assert!(source.open_mut("/x/y/f").is_ok());
    assert_eq!(listing(&source, "/x"), vec![b"/x/y".to_vec()]);
    assert_eq!(listing(&source, "/x/y"), vec![b"/x/y/f".to_vec()]);
}

#[test]
fn scenario_growth_by_doubling() {
    let mut file = MemoryFile::default();
    assert_eq!(file.write(&[1; 10]), Ok(10));
    assert_eq!(file.data.len(), 10);
    assert_eq!(file.position(), 10);
    assert_eq!(file.write(&[2]), Ok(1));
    assert_eq!(file.data.len(), 20);
    assert_eq!(file.position(), 11);
    assert_eq!(file.data[10], 2);
    assert_eq!(file.data[11..], [0; 9]);
}

#[test]
fn grow_takes_larger_of_request_and_double() {
    let mut file = MemoryFile::from_slice(&[5, 6, 7, 8]);
    assert_eq!(file.grow(3), Ok(8));
    assert_eq!(file.data, vec![5, 6, 7, 8, 0, 0, 0, 0]);
    assert_eq!(file.grow(20), Ok(20));
    assert_eq!(file.data.len(), 20);
    let mut empty = MemoryFile::default();
    assert_eq!(empty.grow(0), Ok(0));
    assert!(empty.data.is_empty());
}

#[test]
fn relative_seeks() {
    let mut file = MemoryFile::from_slice(&[1, 2, 3, 4]);
    assert_eq!(file.seek_from(SeekFrom::End(-1)), Ok(3));
    assert_eq!(file.seek_from(SeekFrom::Current(-10)), Ok(0));
    assert_eq!(file.position(), 0);
    assert_eq!(file.seek_from(SeekFrom::End(-100)), Ok(0));
    assert_eq!(file.seek_from(SeekFrom::Current(2)), Ok(2));
    assert_eq!(file.seek_from(SeekFrom::End(2)), Ok(6));
    assert_eq!(file.data, vec![1, 2, 3, 4, 0, 0, 0, 0]);
    assert_eq!(file.seek_from(SeekFrom::Start(1)), Ok(1));
}

#[test]
fn read_to_end_from_cursor() {
    let mut file = MemoryFile::from_slice(&[1, 2, 3, 4]);
    file.seek(1).unwrap();
    let mut out = vec![9];
    assert_eq!(file.read_to_end(&mut out), Ok(3));
    assert_eq!(out, vec![9, 2, 3, 4]);
    assert_eq!(file.position(), 4);
    assert_eq!(file.read_to_end(&mut out), Ok(0));
}

#[test]
fn open_mut_writes_persist() {
    let mut source = MemorySource::default();
    source.open_mut("/f").unwrap().write(b"hello").unwrap();
    assert_eq!(source.open("/f").unwrap().data, b"hello".to_vec());
    let f = source.open_mut("/f").unwrap();
    assert_eq!(f.position(), 5);
    f.seek(0).unwrap();
    f.write(b"J").unwrap();
    assert_eq!(source.open("/f").unwrap().data, b"Jello".to_vec());
}

#[test]
fn directories_are_not_files() {
    let mut source = MemorySource::default();
    source.create_dir("/d").unwrap();
    assert_eq!(source.open("/d").err(), Some(FoldyError::FileNotFound));
    assert_eq!(source.open("/").err(), Some(FoldyError::FileNotFound));
    assert_eq!(source.open_mut("/d").err(), Some(FoldyError::InvalidPath));
    assert_eq!(source.open_mut("/").err(), Some(FoldyError::InvalidPath));
    assert_eq!(source.create_dir("/"), Err(FoldyError::InvalidPath));
}

#[test]
fn read_dir_errors() {
    let mut source = MemorySource::default();
    source.open_mut("/f").unwrap();
    assert_eq!(source.read_dir("/f").err(), Some(FoldyError::InvalidPath));
    assert_eq!(source.read_dir("/missing").err(), Some(FoldyError::DirectoryNotFound));
    assert_eq!(listing(&source, ""), vec![b"/f".to_vec()]);
}

#[test]
fn listing_keeps_insertion_order() {
    let mut source = MemorySource::default();
    source.create_dir("/b").unwrap();
    source.open_mut("/a").unwrap();
    source.create_dir("/c").unwrap();
    let mut iter = source.read_dir("/").unwrap();
    assert_eq!(iter.len(), 3);
    assert_eq!(iter.next().unwrap().unwrap().path(), b"/b");
    assert_eq!(iter.len(), 2);
    assert_eq!(iter.next().unwrap().unwrap().path(), b"/a");
    assert_eq!(iter.next().unwrap().unwrap().path(), b"/c");
    assert!(iter.next().is_none());
    assert_eq!(iter.len(), 0);
}

#[test]
fn remove_dir_only_when_empty() {
    let mut source = MemorySource::default();
    source.create_dir("/d").unwrap();
    source.create_dir("/d/e").unwrap();
    source.open_mut("/f").unwrap();
    assert_eq!(source.remove_dir("/d"), Err(FoldyError::InvalidPath));
    assert_eq!(source.remove_dir("/f"), Err(FoldyError::InvalidPath));
    assert_eq!(source.remove_dir("/"), Err(FoldyError::InvalidPath));
    assert_eq!(source.remove_dir("/zz"), Err(FoldyError::DirectoryNotFound));
    assert_eq!(source.remove_dir("/zz/e"), Err(FoldyError::DirectoryNotFound));
    assert_eq!(source.remove_dir("/d/e"), Ok(()));
    assert_eq!(listing(&source, "/d").len(), 0);
    assert_eq!(source.remove_dir("/d"), Ok(()));
    assert_eq!(listing(&source, "/"), vec![b"/f".to_vec()]);
    assert_eq!(source.open("/d/e").err(), Some(FoldyError::DirectoryNotFound));
    source.create_dir("/d").unwrap();
    assert_eq!(listing(&source, "/d").len(), 0);
}

#[test]
fn path_segments() {
    let segs = split_path(b"/a//bc/");
    assert_eq!(segs, vec![b"a".to_vec(), b"bc".to_vec()]);
    assert!(split_path(b"///").is_empty());
    assert_eq!(split_path(b"x"), vec![b"x".to_vec()]);
    assert_eq!(join_path(&segs), b"/a/bc".to_vec());
    assert_eq!(join_path(&Vec::new()), Vec::<u8>::new());
}

#[test]
fn trait_stream_operations() {
    let mut file = MemoryFile::default();
    assert_eq!(File::write(&mut file, b"abc"), Ok(3));
    assert_eq!(File::position(&file), 3);
    assert_eq!(File::seek(&mut file, 1), Ok(1));
    let mut buf = [0u8; 4];
    assert_eq!(File::read(&mut file, &mut buf), Ok(2));
    assert_eq!(&buf, b"bc\0\0");
}
