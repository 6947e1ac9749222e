use std::path::PathBuf;

use timestore::config::{Config, ConfigBuilder};
use timestore::direct::read_write_at;
use timestore::error::{IterError, OpenError, ReadError, WriteError};
use timestore::iter::{Entry, Iter};
use timestore::layout::FileId;
use timestore::open::{initial_length, open, read_length, TableImage};
use timestore::params::IterParamsBuilder;
use timestore::reader::{Extent, ReaderFactory, Reader};
use timestore::writer::{FileWrite, Stage, Step, Writer, WriterFactory};

const BLOCK: u64 = 512;

/// The files of a store, held in memory. Every write goes through the
/// aligned-write plan and pads its buffer with junk, as a direct-I/O file would.
#[derive(Clone, Debug, PartialEq)]
struct Files {
    length: Vec<u8>,
    keys: Vec<u8>,
    tables: Vec<(Vec<u8>, Vec<u8>)>,
}

impl Files {
    fn create(tables: usize) -> Files {
        let mut files = Files {
            length: Vec::new(),
            keys: Vec::new(),
            tables: vec![(Vec::new(), Vec::new()); tables],
        };
        if let Some(bytes) = initial_length(files.length.len() as u64) {
            let write = FileWrite { file: FileId::Length, pos: 0, data: bytes };
            files.write(&write);
        }
        files
    }

    fn file_mut(&mut self, file: FileId) -> &mut Vec<u8> {
        match file {
            FileId::Length => &mut self.length,
            FileId::Keys => &mut self.keys,
            FileId::Offsets(t) => &mut self.tables[t].0,
            FileId::Data(t) => &mut self.tables[t].1,
            FileId::NewLength => panic!("the staging file is not written in place"),
        }
    }

    fn write(&mut self, write: &FileWrite) {
        let plan = read_write_at(write.pos, write.data.len(), BLOCK);
        let file = self.file_mut(write.file);
        let from = plan.position as usize;
        assert_eq!(from + plan.keep, write.pos as usize);
        assert_eq!(from as u64 % BLOCK, 0);
        assert_eq!(plan.buffer_len as u64 % BLOCK, 0);
        let existing: Vec<u8> = file[from..from + plan.keep].to_vec();
        let mut buffer = plan.assemble(&existing, &write.data).unwrap();
        assert!(buffer.len() + 8 <= plan.buffer_len);
        buffer.resize(plan.buffer_len, 0xAA);
        if file.len() < from + buffer.len() {
            file.resize(from + buffer.len(), 0);
        }
        file[from..from + buffer.len()].copy_from_slice(&buffer);
    }

    fn swap_length(&mut self, bytes: &[u8]) {
        assert_eq!(bytes.len(), 8);
        let mut fresh = bytes.to_vec();
        fresh.resize(BLOCK as usize, 0x55);
        self.length = fresh;
    }

    fn read(&self, table: usize, extent: Extent) -> Vec<u8> {
        let from = extent.pos as usize;
        self.tables[table].1[from..from + extent.len as usize].to_vec()
    }
}

fn names() -> Vec<String> {
    vec!["table0".to_owned(), "table1".to_owned()]
}

fn config() -> Config {
    ConfigBuilder::default()
        .path(PathBuf::from("/tmp/store"))
        .create_if_not_exists(true)
        .segment_length(1024)
        .tables(names())
        .build()
        .unwrap()
}

fn prefix(bytes: &[u8], len: u64) -> &[u8] {
    let len = std::cmp::min(len as usize, bytes.len());
    &bytes[..len]
}

fn open_files(files: &Files, cfg: Config) -> Result<(WriterFactory, ReaderFactory), OpenError> {
    let length = read_length(prefix(&files.length, 8))?;
    let want = length.saturating_mul(8);
    let tables: Vec<TableImage> = files
        .tables
        .iter()
        .map(|(offsets, data)| TableImage {
            offsets: prefix(offsets, want).to_vec(),
            data_size: data.len() as u64,
        })
        .collect();
    open(cfg, length, prefix(&files.keys, want), &tables)
}

/// Carries out the steps of an append, at most `groups` of them, and tells
/// whether the append was finished.
fn run(
    writer: &mut Writer,
    files: &mut Files,
    key: u64,
    values: Vec<Vec<u8>>,
    groups: usize,
) -> Result<bool, WriteError> {
    assert!(writer.accepts(key, &values));
    let mut step = writer.append(key, values)?;
    let mut done = 0;
    loop {
        if done == groups {
            return Ok(false);
        }
        match step {
            Step::Finished => return Ok(true),
            Step::Write(writes) => {
                for write in writes.iter() {
                    files.write(write);
                }
            }
            Step::Swap(bytes) => files.swap_length(&bytes),
        }
        done += 1;
        if done == groups {
            return Ok(false);
        }
        step = writer.advance(true)?;
    }
}

fn append(writer: &mut Writer, files: &mut Files, key: u64, values: [&[u8]; 2]) {
    let values = values.iter().map(|v| v.to_vec()).collect();
    assert_eq!(run(writer, files, key, values, usize::MAX), Ok(true));
}

fn iterate(reader: &mut Reader, from: u64, to: u64) -> Option<Iter> {
    reader.iter(IterParamsBuilder::default().from(from).to(to).build().unwrap()).unwrap()
}

fn entry(prev_key: u64, key: u64) -> Entry {
    Entry { prev_key, key, stream: None }
}

fn payload(files: &Files, it: &Iter, table: &str) -> Vec<u8> {
    let index = it.table_names().iter().position(|n| n == table).unwrap();
    files.read(index, it.read(table).unwrap())
}

#[test]
fn test_empty_db() {
    let mut files = Files::create(2);
    let (writer_factory, reader_factory) = open_files(&files, config()).unwrap();
    let mut writer = writer_factory.make();
    let mut reader = reader_factory.make();

    let res = reader.read("table0", 12).unwrap();
    assert!(res.is_none());

    let iter = iterate(&mut reader, 8, 11);
    assert!(iter.is_none());

    append(&mut writer, &mut files, 12, [b"123", b"345"]);

    let res = reader.read("table0", 12).unwrap().unwrap();
    assert_eq!(files.read(0, res), b"123");
}

#[test]
fn simple_test() {
    let mut files = Files::create(2);
    let (writer_factory, reader_factory) = open_files(&files, config()).unwrap();
    let mut writer = writer_factory.make();
    let mut reader = reader_factory.make();

    let res = reader.read("table0", 12).unwrap();
    assert!(res.is_none());

    let iter = iterate(&mut reader, 8, 11);
    assert!(iter.is_none());

    let iter = iterate(&mut reader, 12, 13);
    assert!(iter.is_none());

    append(&mut writer, &mut files, 12, [b"123", b"345"]);

    let res = reader.read("table0", 12).unwrap().unwrap();
    assert_eq!(files.read(0, res), b"123");

    let mut iter = iterate(&mut reader, 8, 13).unwrap();
    assert_eq!(iter.next().unwrap().unwrap(), entry(0, 12));
    assert_eq!(payload(&files, &iter, "table1"), b"345");
    assert!(iter.next().unwrap().is_none());

    let mut iter = iterate(&mut reader, 12, 13).unwrap();
    assert_eq!(iter.next().unwrap().unwrap(), entry(0, 12));
    assert!(iter.next().unwrap().is_none());

    append(&mut writer, &mut files, 18, [b"888", b"999"]);

    let mut iter = iterate(&mut reader, 8, 14).unwrap();
    assert_eq!(iter.next().unwrap().unwrap(), entry(0, 12));
    assert_eq!(payload(&files, &iter, "table1"), b"345");
    assert_eq!(payload(&files, &iter, "table0"), b"123");
    assert_eq!(iter.next().unwrap().unwrap(), entry(12, 18));
    assert_eq!(payload(&files, &iter, "table1"), b"999");
    assert_eq!(payload(&files, &iter, "table0"), b"888");
    assert!(iter.next().unwrap().is_none());

    let mut iter = iterate(&mut reader, 8, 12).unwrap();
    iter.next().unwrap().unwrap();
    assert!(iter.next().unwrap().is_none());
}

#[test]
fn test_reopen() {
    let mut files = Files::create(2);
    {
        let (writer_factory, reader_factory) = open_files(&files, config()).unwrap();
        let mut writer = writer_factory.make();
        let _reader = reader_factory.make();
        append(&mut writer, &mut files, 12, [b"123", b"345"]);
    }
    {
        let (writer_factory, reader_factory) = open_files(&files, config()).unwrap();
        let mut writer = writer_factory.make();
        let mut reader = reader_factory.make();

        append(&mut writer, &mut files, 18, [b"888", b"999"]);

        let mut iter = iterate(&mut reader, 8, 14).unwrap();
        assert_eq!(iter.next().unwrap().unwrap(), entry(0, 12));
        assert_eq!(payload(&files, &iter, "table1"), b"345");
        assert_eq!(iter.next().unwrap().unwrap(), entry(12, 18));
        assert_eq!(payload(&files, &iter, "table1"), b"999");
        assert_eq!(payload(&files, &iter, "table0"), b"888");
        assert!(iter.next().unwrap().is_none());

        let mut iter = iterate(&mut reader, 8, 12).unwrap();
        iter.next().unwrap().unwrap();
        assert!(iter.next().unwrap().is_none());
    }
}

#[test]
fn reopen_returns_the_same_bytes() {
    let mut files = Files::create(2);
    let (writer_factory, _) = open_files(&files, config()).unwrap();
    let mut writer = writer_factory.make();
    append(&mut writer, &mut files, 5, [b"a", b""]);
    append(&mut writer, &mut files, 5, [b"", b"bcd"]);
    append(&mut writer, &mut files, 900, [&[7u8; 700], b"e"]);

    let (writer_factory, reader_factory) = open_files(&files, config()).unwrap();
    let writer = writer_factory.make();
    assert_eq!(writer.length(), 3);
    assert_eq!(writer.last_key(), Some(900));
    let mut reader = reader_factory.make();
    let first = reader.read("table0", 900).unwrap().unwrap();
    assert_eq!(first, Extent { pos: 1, len: 700 });
    assert_eq!(files.read(0, first), vec![7u8; 700]);
    let second = reader.read("table1", 900).unwrap().unwrap();
    assert_eq!(second, Extent { pos: 3, len: 1 });
    assert_eq!(files.read(1, second), b"e");
    let with_five = reader.read("table1", 5).unwrap().unwrap();
    assert!(with_five == Extent { pos: 0, len: 0 } || with_five == Extent { pos: 0, len: 3 });
}

#[test]
fn a_crash_before_the_swap_commits_nothing() {
    for groups in 0..4 {
        let mut files = Files::create(2);
        let (writer_factory, _) = open_files(&files, config()).unwrap();
        let mut writer = writer_factory.make();
        append(&mut writer, &mut files, 12, [b"123", b"345"]);

        let values = vec![b"888".to_vec(), b"999".to_vec()];
        assert_eq!(run(&mut writer, &mut files, 18, values, groups), Ok(false));

        let (writer_factory, reader_factory) = open_files(&files, config()).unwrap();
        let mut writer = writer_factory.make();
        assert_eq!(writer.length(), 1);
        assert_eq!(writer.last_key(), Some(12));
        let mut reader = reader_factory.make();
        assert_eq!(reader.read("table0", 18).unwrap(), None);
        let found = reader.read("table1", 12).unwrap().unwrap();
        assert_eq!(files.read(1, found), b"345");

        append(&mut writer, &mut files, 20, [b"x", b"yz"]);
        let found = reader.read("table1", 20).unwrap().unwrap();
        assert_eq!(found, Extent { pos: 3, len: 2 });
        assert_eq!(files.read(1, found), b"yz");
    }
}

#[test]
fn the_swap_commits_the_record() {
    let mut files = Files::create(2);
    let (writer_factory, _) = open_files(&files, config()).unwrap();
    let mut writer = writer_factory.make();
    let values = vec![b"888".to_vec(), b"999".to_vec()];
    assert_eq!(run(&mut writer, &mut files, 18, values, 4), Ok(false));
    assert_eq!(writer.stage(), Stage::Length);
    assert_eq!(writer.length(), 0);

    let (writer_factory, reader_factory) = open_files(&files, config()).unwrap();
    assert_eq!(writer_factory.make().length(), 1);
    let mut reader = reader_factory.make();
    let found = reader.read("table0", 18).unwrap().unwrap();
    assert_eq!(files.read(0, found), b"888");
}

#[test]
fn the_steps_come_in_commit_order() {
    let files = Files::create(2);
    let (writer_factory, _) = open_files(&files, config()).unwrap();
    let mut writer = writer_factory.make();
    assert_eq!(writer.stage(), Stage::Idle);
    assert_eq!(writer.advance(true), Ok(Step::Finished));

    let step = writer.append(7, vec![b"ab".to_vec(), b"cde".to_vec()]).unwrap();
    assert_eq!(
        step,
        Step::Write(vec![
            FileWrite { file: FileId::Data(0), pos: 0, data: b"ab".to_vec() },
            FileWrite { file: FileId::Data(1), pos: 0, data: b"cde".to_vec() },
        ])
    );
    assert_eq!(writer.stage(), Stage::Payloads);
    assert_eq!(
        writer.advance(true).unwrap(),
        Step::Write(vec![
            FileWrite { file: FileId::Offsets(0), pos: 0, data: vec![0, 0, 0, 0, 0, 0, 0, 2] },
            FileWrite { file: FileId::Offsets(1), pos: 0, data: vec![0, 0, 0, 0, 0, 0, 0, 3] },
        ])
    );
    assert_eq!(
        writer.advance(true).unwrap(),
        Step::Write(vec![FileWrite { file: FileId::Keys, pos: 0, data: vec![0, 0, 0, 0, 0, 0, 0, 7] }])
    );
    assert_eq!(writer.advance(true).unwrap(), Step::Swap(vec![0, 0, 0, 0, 0, 0, 0, 1]));
    assert_eq!(writer.length(), 0);
    assert_eq!(writer.advance(true).unwrap(), Step::Finished);
    assert_eq!(writer.length(), 1);
    assert_eq!(writer.last_key(), Some(7));
    assert_eq!(writer.stage(), Stage::Idle);

    let step = writer.append(9, vec![b"f".to_vec(), Vec::new()]).unwrap();
    assert_eq!(
        step,
        Step::Write(vec![
            FileWrite { file: FileId::Data(0), pos: 2, data: b"f".to_vec() },
            FileWrite { file: FileId::Data(1), pos: 3, data: Vec::new() },
        ])
    );
    assert_eq!(
        writer.advance(true).unwrap(),
        Step::Write(vec![
            FileWrite { file: FileId::Offsets(0), pos: 8, data: vec![0, 0, 0, 0, 0, 0, 0, 3] },
            FileWrite { file: FileId::Offsets(1), pos: 8, data: vec![0, 0, 0, 0, 0, 0, 0, 3] },
        ])
    );
}

#[test]
fn a_failed_step_gives_the_append_up() {
    let mut files = Files::create(2);
    let (writer_factory, reader_factory) = open_files(&files, config()).unwrap();
    let mut writer = writer_factory.make();
    let mut reader = reader_factory.make();
    writer.append(7, vec![b"ab".to_vec(), b"cde".to_vec()]).unwrap();
    writer.advance(true).unwrap();
    assert_eq!(writer.advance(false), Err(WriteError::Io));
    assert_eq!(writer.stage(), Stage::Idle);
    assert_eq!(writer.length(), 0);
    assert_eq!(writer.last_key(), None);
    assert_eq!(reader.read("table0", 7).unwrap(), None);

    append(&mut writer, &mut files, 7, [b"xy", b"z"]);
    let found = reader.read("table0", 7).unwrap().unwrap();
    assert_eq!(files.read(0, found), b"xy");
}

#[test]
fn append_checks_the_number_of_values() {
    let files = Files::create(2);
    let (writer_factory, _) = open_files(&files, config()).unwrap();
    let mut writer = writer_factory.make();
    assert_eq!(writer.append(1, vec![b"a".to_vec()]), Err(WriteError::Arity));
    assert_eq!(writer.append(1, vec![Vec::new(), Vec::new(), Vec::new()]), Err(WriteError::Arity));
    assert_eq!(writer.stage(), Stage::Idle);
    assert_eq!(writer.table_names(), names());
}

#[test]
fn accepts_tells_what_append_takes() {
    let mut files = Files::create(2);
    let (writer_factory, _) = open_files(&files, config()).unwrap();
    let mut writer = writer_factory.make();
    append(&mut writer, &mut files, 12, [b"123", b"345"]);
    let values = vec![Vec::new(), Vec::new()];
    assert!(writer.accepts(12, &values));
    assert!(writer.accepts(u64::MAX, &values));
    assert!(!writer.accepts(11, &values));
    assert!(writer.accepts(11, &vec![Vec::new()]));
}

#[test]
fn unknown_tables_are_reported() {
    let mut files = Files::create(2);
    let (writer_factory, reader_factory) = open_files(&files, config()).unwrap();
    let mut writer = writer_factory.make();
    let mut reader = reader_factory.make();
    assert_eq!(reader.read("table2", 12), Err(ReadError::UnknownTable));
    assert_eq!(reader.read_many("", 12), Err(ReadError::UnknownTable));
    append(&mut writer, &mut files, 12, [b"123", b"345"]);

    let params = IterParamsBuilder::default().from(13).to(20).table(Some("nope")).build().unwrap();
    assert!(reader.iter(params).unwrap().is_none());
    let params = IterParamsBuilder::default().from(8).to(20).table(Some("nope")).build().unwrap();
    assert!(matches!(reader.iter(params), Err(ReadError::UnknownTable)));

    let mut iter = iterate(&mut reader, 0, 20).unwrap();
    iter.next().unwrap();
    assert_eq!(iter.read("nope"), Err(IterError::Read(ReadError::UnknownTable)));
    assert_eq!(iter.read_many("nope"), Err(IterError::Read(ReadError::UnknownTable)));
}

#[test]
fn payloads_need_a_first_step() {
    let mut files = Files::create(2);
    let (writer_factory, reader_factory) = open_files(&files, config()).unwrap();
    let mut writer = writer_factory.make();
    let mut reader = reader_factory.make();
    append(&mut writer, &mut files, 12, [b"123", b"345"]);
    let mut iter = iterate(&mut reader, 8, 13).unwrap();
    assert_eq!(iter.read("table0"), Err(IterError::NotStarted));
    assert_eq!(iter.read_many("table0"), Err(IterError::NotStarted));
    assert_eq!(iter.read("nope"), Err(IterError::NotStarted));
    iter.next().unwrap();
    assert_eq!(iter.read("table0"), Ok(Extent { pos: 0, len: 3 }));
    assert_eq!(iter.read_many("table1"), Ok(0));
}

#[test]
fn the_streamed_table_comes_with_each_entry() {
    let mut files = Files::create(2);
    let (writer_factory, reader_factory) = open_files(&files, config()).unwrap();
    let mut writer = writer_factory.make();
    let mut reader = reader_factory.make();
    append(&mut writer, &mut files, 3, [b"a", b"bc"]);
    append(&mut writer, &mut files, 4, [b"def", b""]);
    append(&mut writer, &mut files, 9, [b"", b"ghij"]);

    let params = IterParamsBuilder::default().from(4).to(100).table(Some("table1")).build().unwrap();
    let mut iter = reader.iter(params).unwrap().unwrap();
    assert_eq!(iter.stream(), Some(1));
    assert_eq!(
        iter.next().unwrap(),
        Some(Entry { prev_key: 3, key: 4, stream: Some(Extent { pos: 2, len: 0 }) })
    );
    assert_eq!(iter.read("table0"), Ok(Extent { pos: 1, len: 3 }));
    assert_eq!(iter.read_many("table0"), Ok(1));
    assert_eq!(
        iter.next().unwrap(),
        Some(Entry { prev_key: 4, key: 9, stream: Some(Extent { pos: 2, len: 4 }) })
    );
    assert_eq!(iter.read("table0"), Ok(Extent { pos: 4, len: 0 }));
    assert_eq!(iter.next().unwrap(), None);
    assert_eq!(iter.next().unwrap(), None);
}

#[test]
fn the_range_is_clamped_to_the_last_key() {
    let mut files = Files::create(2);
    let (writer_factory, reader_factory) = open_files(&files, config()).unwrap();
    let mut writer = writer_factory.make();
    let mut reader = reader_factory.make();
    for key in [10u64, 20, 30] {
        append(&mut writer, &mut files, key, [b"v", b"w"]);
    }
    assert!(iterate(&mut reader, 31, 40).is_none());

    let mut iter = iterate(&mut reader, 30, u64::MAX).unwrap();
    assert_eq!(iter.next().unwrap(), Some(entry(20, 30)));
    assert_eq!(iter.next().unwrap(), None);

    let mut iter = iterate(&mut reader, 0, u64::MAX).unwrap();
    assert_eq!(iter.next().unwrap(), Some(entry(0, 10)));
    assert_eq!(iter.next().unwrap(), Some(entry(10, 20)));
    assert_eq!(iter.next().unwrap(), Some(entry(20, 30)));
    assert_eq!(iter.next().unwrap(), None);

    let mut iter = iterate(&mut reader, 11, 15).unwrap();
    assert_eq!(iter.next().unwrap(), Some(entry(10, 20)));
    assert_eq!(iter.next().unwrap(), None);

    let mut iter = iterate(&mut reader, 20, 5).unwrap();
    assert_eq!(iter.next().unwrap(), None);
}

#[test]
fn an_iterator_keeps_the_range_it_was_opened_with() {
    let mut files = Files::create(2);
    let (writer_factory, reader_factory) = open_files(&files, config()).unwrap();
    let mut writer = writer_factory.make();
    let mut reader = reader_factory.make();
    append(&mut writer, &mut files, 10, [b"v", b"w"]);
    append(&mut writer, &mut files, 20, [b"v", b"w"]);
    let mut iter = iterate(&mut reader, 0, 100).unwrap();
    append(&mut writer, &mut files, 30, [b"v", b"w"]);
    assert_eq!(iter.next().unwrap(), Some(entry(0, 10)));
    assert_eq!(iter.next().unwrap(), Some(entry(10, 20)));
    assert_eq!(iter.next().unwrap(), None);
}

#[test]
fn readers_share_what_is_published() {
    let mut files = Files::create(2);
    let (writer_factory, reader_factory) = open_files(&files, config()).unwrap();
    let mut writer = writer_factory.make();
    let factory = reader_factory.clone();
    let mut first = reader_factory.make();
    let mut second = factory.make();
    let mut third = first.clone();
    assert_eq!(factory.table_names(), names());
    assert_eq!(first.table_names(), names());
    assert_eq!(factory.path(), &PathBuf::from("/tmp/store"));
    append(&mut writer, &mut files, 12, [b"123", b"345"]);
    for reader in [&mut first, &mut second, &mut third] {
        assert_eq!(reader.read("table1", 12), Ok(Some(Extent { pos: 0, len: 3 })));
        assert_eq!(reader.read_many("table1", 12), Ok(Some(0)));
        assert_eq!(reader.read_many("table1", 13), Ok(None));
    }
    append(&mut writer, &mut files, 14, [b"6", b"78"]);
    assert_eq!(second.read_many("table1", 14), Ok(Some(3)));
    let mut keys = first.keys();
    assert_eq!(timestore::seq::lower_bound(&mut keys, 13), Some(1));
    assert_eq!(keys.last(), Some(14));
}

#[test]
fn recovery_reports_the_first_fault() {
    let mut files = Files::create(2);
    let (writer_factory, _) = open_files(&files, config()).unwrap();
    let mut writer = writer_factory.make();
    append(&mut writer, &mut files, 12, [b"123", b"345"]);
    append(&mut writer, &mut files, 18, [b"888", b"999"]);
    assert!(open_files(&files, config()).is_ok());

    let mut short = files.clone();
    short.length.truncate(7);
    assert_eq!(open_files(&short, config()).err(), Some(OpenError::LengthMismatch(FileId::Length)));

    let mut short = files.clone();
    short.keys.truncate(15);
    short.tables[0].0.truncate(9);
    assert_eq!(open_files(&short, config()).err(), Some(OpenError::LengthMismatch(FileId::Keys)));

    let mut short = files.clone();
    short.tables[1].0.truncate(15);
    short.tables[1].1.truncate(0);
    assert_eq!(open_files(&short, config()).err(), Some(OpenError::LengthMismatch(FileId::Offsets(1))));

    let mut wrong = files.clone();
    wrong.keys[7] = 19;
    wrong.tables[0].0[7] = 9;
    assert_eq!(open_files(&wrong, config()).err(), Some(OpenError::OutOfOrder(FileId::Keys)));

    let mut wrong = files.clone();
    wrong.tables[0].0[7] = 9;
    wrong.tables[1].1.truncate(5);
    assert_eq!(open_files(&wrong, config()).err(), Some(OpenError::OutOfOrder(FileId::Offsets(0))));

    let mut small = files.clone();
    small.tables[0].1.truncate(6);
    small.tables[1].1.truncate(6);
    assert!(open_files(&small, config()).is_ok());
    small.tables[0].1.truncate(5);
    small.tables[1].1.truncate(5);
    assert_eq!(open_files(&small, config()).err(), Some(OpenError::DataTooSmall(0)));
    small.tables[0].1.push(0);
    assert_eq!(open_files(&small, config()).err(), Some(OpenError::DataTooSmall(1)));
}

#[test]
fn recovery_ignores_what_lies_behind_the_committed_part() {
    let mut files = Files::create(2);
    let (writer_factory, _) = open_files(&files, config()).unwrap();
    let mut writer = writer_factory.make();
    append(&mut writer, &mut files, 12, [b"123", b"345"]);
    assert_eq!(files.keys.len(), BLOCK as usize);
    assert_eq!(&files.keys[8..16], &[0xAA; 8]);
    let (writer_factory, _) = open_files(&files, config()).unwrap();
    let writer = writer_factory.make();
    assert_eq!(writer.length(), 1);
    assert_eq!(writer.last_key(), Some(12));
}

#[test]
fn many_records_span_segments_and_blocks() {
    let mut files = Files::create(2);
    let cfg = ConfigBuilder::default()
        .path(PathBuf::from("/tmp/store"))
        .create_if_not_exists(false)
        .segment_length(3)
        .tables(names())
        .build()
        .unwrap();
    let (writer_factory, reader_factory) = open_files(&files, cfg.clone()).unwrap();
    let mut writer = writer_factory.make();
    let mut reader = reader_factory.make();
    for i in 0..200u64 {
        let a = vec![i as u8; (i % 7) as usize];
        let b = vec![!(i as u8); (i % 5) as usize + 1];
        append(&mut writer, &mut files, 3 * i + 1, [&a, &b]);
    }
    for round in 0..2 {
        for i in 0..200u64 {
            assert_eq!(reader.read("table0", 3 * i).unwrap(), None);
            let found = reader.read("table0", 3 * i + 1).unwrap().unwrap();
            assert_eq!(files.read(0, found), vec![i as u8; (i % 7) as usize]);
            let found = reader.read("table1", 3 * i + 1).unwrap().unwrap();
            assert_eq!(files.read(1, found), vec![!(i as u8); (i % 5) as usize + 1]);
        }
        let mut iter = iterate(&mut reader, 300, 330).unwrap();
        let mut seen = Vec::new();
        while let Some(entry) = iter.next().unwrap() {
            assert_eq!(entry.prev_key + 3, entry.key);
            assert_eq!(payload(&files, &iter, "table0").len() as u64, ((entry.key - 1) / 3) % 7);
            seen.push(entry.key);
        }
        assert_eq!(seen, vec![301, 304, 307, 310, 313, 316, 319, 322, 325, 328, 331]);
        if round == 0 {
            let (_, reader_factory) = open_files(&files, cfg.clone()).unwrap();
            reader = reader_factory.make();
        }
    }
}

#[test]
fn what_a_reader_has_seen_stays_as_it_was() {
    let mut files = Files::create(2);
    let (writer_factory, reader_factory) = open_files(&files, config()).unwrap();
    let mut writer = writer_factory.make();
    let mut reader = reader_factory.make();
    let mut seen: Vec<(u64, Extent, Extent)> = Vec::new();
    for round in 0..40u64 {
        let key = 10 + 2 * round;
        let a = vec![round as u8; (round % 3) as usize];
        let b = vec![round as u8; 5];
        append(&mut writer, &mut files, key, [&a, &b]);
        if round % 2 == 1 {
            let first = reader.read("table0", key).unwrap().unwrap();
            let second = reader.read("table1", key).unwrap().unwrap();
            seen.push((key, first, second));
        }
        for (key, first, second) in seen.iter() {
            assert_eq!(reader.read("table0", *key), Ok(Some(*first)));
            assert_eq!(reader.read("table1", *key), Ok(Some(*second)));
        }
        let mut keys = reader.keys();
        let first: Vec<u64> = keys.iter_from(0).take(round as usize + 1).collect();
        let expected: Vec<u64> = (0..=round).map(|r| 10 + 2 * r).collect();
        assert_eq!(first, expected);
        assert_eq!(timestore::seq::lower_bound(&mut keys, 10), Some(0));
    }
}
