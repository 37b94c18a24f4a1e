use raft_kv::lsm::bloom::{hash_with_seed, BloomFilter};
use raft_kv::lsm::codec::{
    decode_entry, decode_footer, decode_wal_frame, encode_footer, frame_payload,
};
use raft_kv::lsm::files::{draft_file_name, table_file_name, table_id_of};
use raft_kv::lsm::record::{
    record_from_command, record_size, DataEntry, LsmError, Record, WalFrame,
};
use raft_kv::lsm::store::{DiskAction, Operation};
use raft_kv::lsm::table::{
    data_end, encode_table, finish_table, footer_fits, lookup_table, read_all_entries, read_footer,
    trailer_fits,
};
use raft_kv::lsm::tree::{
    merge_entries, merge_tables, tables_fit, GetStep, LsmOptions, LsmTree, TableFile,
};
use raft_kv::lsm::wal::read_wal_frames;
use raft_kv::{Command, MemoryStateMachine, StateMachine};

/// Table files and a log, held in memory.
struct Disk {
    files: Vec<(u64, Vec<u8>)>,
    log: Vec<u8>,
}

/// A tree with its disk.
struct Store {
    disk: Disk,
    tree: LsmTree,
}

impl Disk {
    fn new() -> Self {
        Disk { files: Vec::new(), log: Vec::new() }
    }

    fn file(&self, id: u64) -> &Vec<u8> {
        &self.files.iter().find(|file| file.0 == id).unwrap().1
    }

    fn table_files(&self) -> Vec<TableFile> {
        self.files
            .iter()
            .map(|(id, bytes)| TableFile { id: *id, bytes: bytes.clone() })
            .collect()
    }
}

impl Store {
    fn try_open(mut disk: Disk, options: LsmOptions) -> Result<Self, LsmError> {
        let files = disk.table_files();
        assert!(tables_fit(&files));
        let (tree, torn_at) = LsmTree::open(&files, &disk.log, options)?;
        if let Some(at) = torn_at {
            disk.log.truncate(at);
        }
        Ok(Store { disk, tree })
    }

    fn open(disk: Disk, options: LsmOptions) -> Self {
        Self::try_open(disk, options).unwrap()
    }

    fn run(&mut self, first: (Operation, DiskAction)) -> Result<(), LsmError> {
        let (mut operation, mut action) = first;
        loop {
            let step = match action {
                DiskAction::AppendLog(bytes) => {
                    self.disk.log.extend_from_slice(&bytes);
                    assert!(self.tree.can_grow());
                    self.tree.resume(operation)
                }
                DiskAction::WriteTable { id, bytes } => {
                    self.disk.files.push((id, bytes));
                    self.tree.resume(operation)
                }
                DiskAction::EmptyLog => {
                    self.disk.log.clear();
                    self.tree.resume(operation)
                }
                DiskAction::ReadTables(ids) => {
                    let read: Vec<Vec<u8>> =
                        ids.iter().map(|id| self.disk.file(*id).clone()).collect();
                    match operation {
                        Operation::Reading(old_tables) => {
                            assert!(self.tree.can_merge(&old_tables, &read));
                            self.tree.resume_read(old_tables, &read)
                        }
                        _ => panic!("only a compaction reads tables"),
                    }
                }
                DiskAction::RemoveTable(id) => {
                    self.disk.files.retain(|file| file.0 != id);
                    self.tree.resume(operation)
                }
                DiskAction::Nothing => return Ok(()),
            };
            (operation, action) = step?;
        }
    }

    fn apply(&mut self, index: usize, command: Command) -> Result<(), LsmError> {
        let first = self.tree.begin_apply(index, command)?;
        self.run(first)
    }

    fn flush(&mut self) -> Result<(), LsmError> {
        assert!(self.tree.can_grow());
        let first = self.tree.begin_flush()?;
        self.run(first)
    }

    fn compact(&mut self) -> Result<(), LsmError> {
        let first = self.tree.begin_compact()?;
        self.run(first)
    }

    fn append_log_only(&mut self, index: usize, command: Command) {
        match self.tree.begin_apply(index, command) {
            Ok((_, DiskAction::AppendLog(bytes))) => self.disk.log.extend_from_slice(&bytes),
            other => panic!("{other:?}"),
        }
    }

    fn get(&mut self, key: &str) -> Result<Option<String>, LsmError> {
        assert!(self.tree.is_readable());
        let mut step = self.tree.begin_get(key);
        loop {
            match step {
                GetStep::Found(value) => return Ok(value),
                GetStep::Missing => return Ok(None),
                GetStep::Read(place) => {
                    let image = self.disk.file(self.tree.table_id(place));
                    assert!(trailer_fits(image));
                    step = self.tree.continue_get(key, place, image)?;
                }
            }
        }
    }
}

fn put(key: &str, value: &str) -> Command {
    Command::Put { key: key.to_string(), value: value.to_string() }
}

fn delete(key: &str) -> Command {
    Command::Delete { key: key.to_string() }
}

fn opts() -> LsmOptions {
    LsmOptions { memtable_bytes: 64, compaction_threshold: 10 }
}

fn tiny() -> LsmOptions {
    LsmOptions { memtable_bytes: 1, compaction_threshold: 10 }
}

fn entry(index: usize, key: &str, value: Option<&str>) -> DataEntry {
    DataEntry {
        index,
        record: Record { key: key.to_string(), value: value.map(str::to_string) },
    }
}

#[test]
fn memtable_flush_triggers_at_threshold() {
    let mut store = Store::open(Disk::new(), opts());
    store.apply(1, put("a", &"x".repeat(80))).unwrap();
    assert_eq!(store.tree.sstable_count(), 1);
    assert_eq!(store.get("a").unwrap(), Some("x".repeat(80)));
}

#[test]
fn recovery_replays_wal() {
    let mut store = Store::open(Disk::new(), LsmOptions::default());
    store.apply(1, put("k", "v")).unwrap();
    let mut again = Store::open(store.disk, LsmOptions::default());
    assert_eq!(again.tree.last_applied(), 1);
    assert_eq!(again.get("k").unwrap(), Some("v".into()));
}

#[test]
fn recovery_replays_wal_after_crash_between_append_and_memtable_apply() {
    let mut store = Store::open(Disk::new(), LsmOptions::default());
    store.append_log_only(1, put("k", "v"));
    let mut again = Store::open(store.disk, LsmOptions::default());
    assert_eq!(again.get("k").unwrap(), Some("v".into()));
}

#[test]
fn torn_wal_tail_is_truncated_and_ignored() {
    let mut store = Store::open(Disk::new(), LsmOptions::default());
    store.apply(1, put("ok", "yes")).unwrap();
    let whole = store.disk.log.len();
    store.disk.log.extend_from_slice(&99_u32.to_be_bytes());
    store.disk.log.extend_from_slice(b"partial");
    let mut again = Store::open(store.disk, LsmOptions::default());
    assert_eq!(again.get("ok").unwrap(), Some("yes".into()));
    assert_eq!(again.disk.log.len(), whole);
}

#[test]
fn bloom_filter_skips_unnecessary_disk_reads() {
    let mut store = Store::open(Disk::new(), opts());
    store.apply(1, put("present", &"v".repeat(80))).unwrap();
    let before = store.tree.disk_read_count();
    assert_eq!(store.get("definitely-missing").unwrap(), None);
    assert_eq!(store.tree.disk_read_count(), before);
}

#[test]
fn compaction_merges_and_removes_tombstones() {
    let mut store = Store::open(Disk::new(), tiny());
    store.apply(1, put("gone", "v")).unwrap();
    store.apply(2, delete("gone")).unwrap();
    store.compact().unwrap();
    assert_eq!(store.get("gone").unwrap(), None);
    assert_eq!(store.tree.sstable_count(), 0);
    assert!(store.disk.files.is_empty());
}

#[test]
fn restart_tolerates_compaction_output_plus_old_tables() {
    let mut store = Store::open(Disk::new(), tiny());
    store.apply(1, put("k", "old")).unwrap();
    store.apply(2, put("k", "new")).unwrap();
    assert_eq!(store.disk.files.len(), 2);
    let images: Vec<Vec<u8>> = [1, 0]
        .iter()
        .map(|place| store.disk.files[*place].1.clone())
        .collect();
    let merged = merge_tables(&images).unwrap();
    let image = encode_table(&merged, 2).unwrap();
    store.disk.files.push((99, image.bytes));
    let mut again = Store::open(store.disk, LsmOptions::default());
    assert_eq!(again.tree.sstable_count(), 3);
    assert_eq!(again.get("k").unwrap(), Some("new".into()));
}

#[test]
fn a_table_is_read_back_whole() {
    let entries: Vec<DataEntry> = (0..40)
        .map(|i| {
            let value = format!("v{i}");
            entry(i + 1, &format!("k{i:02}"), if i % 7 == 3 { None } else { Some(&value) })
        })
        .collect();
    let image = encode_table(&entries, 40).unwrap();
    assert!(trailer_fits(&image.bytes));
    assert_eq!(read_all_entries(&image.bytes).unwrap(), entries);
    let footer = read_footer(&image.bytes).unwrap();
    assert_eq!(footer.max_index, 40);
    // One index entry for every sixteen.
    assert_eq!(footer.index.len(), 3);
    assert_eq!(footer.index[1].key, "k16");
    for wanted in &entries {
        let found = lookup_table(&footer.index, &image.bytes, &wanted.record.key).unwrap();
        assert_eq!(found, Some(wanted.record.value.clone()));
    }
    assert_eq!(lookup_table(&footer.index, &image.bytes, "k16x").unwrap(), None);
    assert_eq!(lookup_table(&footer.index, &image.bytes, "a").unwrap(), None);
    assert_eq!(lookup_table(&footer.index, &image.bytes, "z").unwrap(), None);
}

#[test]
fn a_table_ends_with_footer_length_and_magic() {
    let image = encode_table(&vec![entry(1, "a", Some("b"))], 1).unwrap();
    let len = image.bytes.len();
    assert_eq!(&image.bytes[len - 8..], b"RKVSST01");
    let footer = encode_footer(&image.footer);
    assert_eq!(&image.bytes[len - 16..len - 8], (footer.len() as u64).to_be_bytes());
    let end = data_end(&image.bytes).unwrap();
    assert_eq!(end + footer.len() + 16, len);
    assert_eq!(&image.bytes[end..len - 16], &footer[..]);
    let payload =
        bincode::serialize(&(1_u64, ("a".to_string(), Some("b".to_string())))).unwrap();
    assert_eq!(&image.bytes[..4], (payload.len() as u32).to_be_bytes());
    assert_eq!(&image.bytes[4..end], &payload[..]);
}

#[test]
fn bad_tables_are_refused() {
    let image = encode_table(&vec![entry(1, "a", Some("b"))], 1).unwrap().bytes;
    assert!(matches!(read_footer(b"too short"), Err(LsmError::TableTooSmall)));
    assert!(matches!(data_end(b"too short"), Err(LsmError::TableTooSmall)));
    let mut magic = image.clone();
    *magic.last_mut().unwrap() = b'2';
    assert!(matches!(read_footer(&magic), Err(LsmError::BadMagic)));
    let mut empty_footer = vec![0; 8];
    empty_footer.extend_from_slice(b"RKVSST01");
    assert!(trailer_fits(&empty_footer));
    assert!(matches!(read_footer(&empty_footer), Err(LsmError::CorruptFooter)));
    let mut long = image.clone();
    let at = long.len() - 16;
    long[at] = 255;
    assert!(!trailer_fits(&long));
    assert!(!footer_fits(&long));
    // Without the magic bytes the length does not count.
    let mut stranger = long.clone();
    *stranger.last_mut().unwrap() = b'2';
    assert!(footer_fits(&stranger));
    assert!(matches!(read_footer(&stranger), Err(LsmError::BadMagic)));
    let bad = Disk { files: vec![(1, stranger), (2, long)], log: Vec::new() };
    assert!(matches!(Store::try_open(bad, opts()), Err(LsmError::BadMagic)));
    let mut torn = image.clone();
    torn[0] = 255;
    assert!(matches!(read_all_entries(&torn), Err(LsmError::TornFrame)));
    let mut corrupt = image.clone();
    // The length of the key no longer fits the payload.
    corrupt[12] = 200;
    assert!(matches!(read_all_entries(&corrupt), Err(LsmError::CorruptFrame)));
    let bad = Disk { files: vec![(1, magic)], log: Vec::new() };
    assert!(matches!(Store::try_open(bad, opts()), Err(LsmError::BadMagic)));
}

#[test]
fn a_corrupt_log_is_refused() {
    let mut disk = Disk::new();
    disk.log.extend_from_slice(&3_u32.to_be_bytes());
    disk.log.extend_from_slice(b"abc");
    assert!(matches!(read_wal_frames(&disk.log), Err(LsmError::CorruptFrame)));
    assert!(matches!(Store::try_open(disk, opts()), Err(LsmError::CorruptFrame)));
}

#[test]
fn applied_commands_are_skipped_and_gaps_refused() {
    let mut store = Store::open(Disk::new(), LsmOptions::default());
    store.apply(1, put("k", "v")).unwrap();
    let log = store.disk.log.clone();
    store.apply(1, put("k", "other")).unwrap();
    assert_eq!(store.disk.log, log);
    assert_eq!(store.get("k").unwrap(), Some("v".into()));
    assert_eq!(store.apply(3, put("k", "late")), Err(LsmError::IndexGap));
    assert_eq!(store.tree.last_applied(), 1);
    store.apply(2, Command::Noop).unwrap();
    assert_eq!(store.tree.last_applied(), 2);
    assert_eq!(store.tree.memtable_len(), 1);
}

#[test]
fn no_value_is_lost_between_two_actions() {
    let options = LsmOptions { memtable_bytes: 30, compaction_threshold: 2 };
    let mut store = Store::open(Disk::new(), options);
    let mut values: Vec<(String, String)> = Vec::new();
    let mut moments = 0;
    for index in 1..=12 {
        let (key, value) = (format!("k{}", index % 4), format!("value {index}"));
        let (mut operation, mut action) = store.tree.begin_apply(index, put(&key, &value)).unwrap();
        loop {
            let step = match action {
                DiskAction::AppendLog(bytes) => {
                    store.disk.log.extend_from_slice(&bytes);
                    values.retain(|pair| pair.0 != key);
                    values.push((key.clone(), value.clone()));
                    store.tree.resume(operation)
                }
                DiskAction::WriteTable { id, bytes } => {
                    store.disk.files.push((id, bytes));
                    store.tree.resume(operation)
                }
                DiskAction::EmptyLog => {
                    store.disk.log.clear();
                    store.tree.resume(operation)
                }
                DiskAction::ReadTables(ids) => {
                    let read: Vec<Vec<u8>> =
                        ids.iter().map(|id| store.disk.file(*id).clone()).collect();
                    match operation {
                        Operation::Reading(old_tables) => {
                            assert!(store.tree.can_merge(&old_tables, &read));
                            store.tree.resume_read(old_tables, &read)
                        }
                        _ => panic!("only a compaction reads tables"),
                    }
                }
                DiskAction::RemoveTable(id) => {
                    store.disk.files.retain(|file| file.0 != id);
                    store.tree.resume(operation)
                }
                DiskAction::Nothing => break,
            };
            (operation, action) = step.unwrap();
            let copy = Disk { files: store.disk.files.clone(), log: store.disk.log.clone() };
            let mut opened = Store::open(copy, options);
            for (key, value) in &values {
                assert_eq!(opened.get(key).unwrap().as_ref(), Some(value));
            }
            assert_eq!(opened.tree.last_applied(), index);
            moments += 1;
        }
    }
    assert!(moments > 30);
    assert!(store.tree.compactions_total() > 0);
    assert_eq!(store.tree.sstable_count(), store.disk.files.len());
}

#[test]
fn flush_and_compaction_keep_values() {
    let mut store = Store::open(Disk::new(), LsmOptions::default());
    store.apply(1, put("a", "1")).unwrap();
    store.apply(2, put("b", "2")).unwrap();
    store.flush().unwrap();
    assert!(store.disk.log.is_empty());
    assert_eq!(store.tree.memtable_size_bytes(), 0);
    store.apply(3, delete("a")).unwrap();
    store.apply(4, put("c", "3")).unwrap();
    store.flush().unwrap();
    store.flush().unwrap();
    assert_eq!(store.tree.sstable_count(), 2);
    assert_eq!(store.tree.highest_table_id(), 2);
    for _ in 0..2 {
        assert_eq!(store.get("a").unwrap(), None);
        assert_eq!(store.get("b").unwrap(), Some("2".into()));
        assert_eq!(store.get("c").unwrap(), Some("3".into()));
        store.compact().unwrap();
        assert_eq!(store.tree.sstable_count(), 1);
        assert_eq!(store.tree.compactions_total(), 1);
    }
    // Above the old tables and above the next flush.
    assert_eq!(store.tree.highest_table_id(), 3);
    assert_eq!(store.disk.files.len(), 1);
}

#[test]
fn reads_of_tables_are_counted() {
    let mut store = Store::open(Disk::new(), tiny());
    store.apply(1, put("a", "1")).unwrap();
    store.apply(2, put("b", "2")).unwrap();
    assert_eq!(store.tree.disk_read_count(), 0);
    assert_eq!(store.get("a").unwrap(), Some("1".into()));
    let reads = store.tree.disk_read_count();
    assert!(reads == 1 || reads == 2);
}

#[test]
fn a_read_with_all_tables_at_hand() {
    let mut store = Store::open(Disk::new(), tiny());
    store.apply(1, put("a", "1")).unwrap();
    store.apply(2, put("b", "2")).unwrap();
    store.apply(3, delete("a")).unwrap();
    let images: Vec<Vec<u8>> = (0..store.tree.sstable_count())
        .map(|place| store.disk.file(store.tree.table_id(place)).clone())
        .collect();
    assert_eq!(images.len(), 3);
    for key in ["a", "b", "c"] {
        let before = store.tree.disk_read_count();
        let stepwise = store.get(key).unwrap();
        let middle = store.tree.disk_read_count();
        assert_eq!(store.tree.get_mut(key, &images).unwrap(), stepwise);
        assert_eq!(store.tree.disk_read_count() - middle, middle - before);
    }
    assert_eq!(store.tree.get_mut("a", &images).unwrap(), None);
    assert_eq!(store.tree.get_mut("b", &images).unwrap(), Some("2".to_string()));
    let mut torn = images.clone();
    for image in &mut torn {
        image[0] = 255;
    }
    assert_eq!(store.tree.get_mut("b", &torn), Err(LsmError::TornFrame));
}

#[test]
fn options_decide_when_to_flush_and_compact() {
    let defaults = LsmOptions::default();
    assert_eq!(defaults.memtable_bytes, 1024 * 1024);
    assert_eq!(defaults.compaction_threshold, 4);
    let options = LsmOptions { memtable_bytes: 36, compaction_threshold: 3 };
    let mut store = Store::open(Disk::new(), options);
    assert_eq!(store.tree.options(), options);
    // Eighteen bytes each.
    store.apply(1, put("a", "1")).unwrap();
    assert_eq!(store.tree.memtable_size_bytes(), 18);
    assert_eq!(store.tree.sstable_count(), 0);
    store.apply(2, put("b", "1")).unwrap();
    assert_eq!(store.tree.sstable_count(), 1);
    for index in 3..7 {
        store.apply(index, put("c", "1")).unwrap();
    }
    assert_eq!(store.tree.sstable_count(), 1);
    assert_eq!(store.tree.compactions_total(), 1);
}

#[test]
fn records_of_commands() {
    assert_eq!(record_from_command(&Command::Noop), None);
    let record = record_from_command(&put("ké", "v")).unwrap();
    assert_eq!(record, Record { key: "ké".into(), value: Some("v".into()) });
    assert_eq!(record_size(&record), 3 + 1 + 16);
    let record = record_from_command(&delete("k")).unwrap();
    assert_eq!(record, Record { key: "k".into(), value: None });
    assert_eq!(record_size(&record), 17);
}

#[test]
fn codes_are_those_of_bincode() {
    let mut store = Store::open(Disk::new(), LsmOptions::default());
    store.apply(1, put("k", "v")).unwrap();
    store.apply(2, delete("k")).unwrap();
    store.apply(3, Command::Noop).unwrap();
    let mut expected = Vec::new();
    for record in [
        Some(("k".to_string(), Some("v".to_string()))),
        Some(("k".to_string(), None)),
        None,
    ] {
        let index = expected.len() as u64;
        expected.push(bincode::serialize(&(index + 1, record)).unwrap());
    }
    let mut log = Vec::new();
    for code in &expected {
        log.extend_from_slice(&(code.len() as u32).to_be_bytes());
        log.extend_from_slice(code);
    }
    assert_eq!(store.disk.log, log);
    let frame = decode_wal_frame(&expected[0]).unwrap();
    assert_eq!(frame.index, 1);
    assert_eq!(frame.record, Some(Record { key: "k".into(), value: Some("v".into()) }));
    assert_eq!(decode_wal_frame(&expected[2]).unwrap().record, None);
    assert_eq!(decode_wal_frame(b"x"), None);
    let code = bincode::serialize(&(9_u64, ("k".to_string(), None::<String>))).unwrap();
    assert_eq!(decode_entry(&code).unwrap(), entry(9, "k", None));
    assert_eq!(decode_entry(b""), None);
    let image = encode_table(&vec![entry(5, "k", None)], 6).unwrap();
    let code = bincode::serialize(&(
        vec![("k".to_string(), 0_u64)],
        (image.footer.bloom.bits.clone(), 10_u64),
        6_u64,
    ))
    .unwrap();
    assert_eq!(encode_footer(&image.footer), code);
    let footer = decode_footer(&code).unwrap();
    assert_eq!(footer.max_index, 6);
    assert_eq!(footer.index[0].key, "k");
    assert_eq!(footer.bloom.bit_len, 10);
    assert!(decode_footer(b"?").is_none());
}

#[test]
fn filters_never_miss_a_key() {
    let names: Vec<String> = (0..100).map(|i| format!("key {i}")).collect();
    let keys: Vec<&str> = names.iter().map(String::as_str).collect();
    let filter = BloomFilter::new(&keys);
    assert_eq!(filter.bit_len, 1000);
    assert_eq!(filter.bits.len(), 125);
    assert!(filter.is_sound());
    assert!(names.iter().all(|name| filter.might_contain(name)));
    let strangers = (0..1000).filter(|i| filter.might_contain(&format!("no key {i}"))).count();
    assert!(strangers < 50);
    let empty = BloomFilter::new(&Vec::new());
    assert_eq!(empty.bit_len, 10);
    assert!(!empty.might_contain("a"));
    let broken = BloomFilter { bits: vec![0], bit_len: 9 };
    assert!(!broken.is_sound());
}

#[test]
fn hashes_are_fnv() {
    assert_eq!(hash_with_seed(b"", 0xcbf2_9ce4_8422_2325), 0xcbf2_9ce4_8422_2325);
    assert_eq!(hash_with_seed(b"a", 0xcbf2_9ce4_8422_2325), 0xaf63_dc4c_8601_ec8c);
    assert_eq!(hash_with_seed(b"foobar", 0xcbf2_9ce4_8422_2325), 0x8594_4171_f739_67e8);
    let filter = BloomFilter::new(&vec!["a"]);
    let h1 = hash_with_seed(b"a", 0xcbf2_9ce4_8422_2325);
    let h2 = hash_with_seed(b"a", 0x9e37_79b9_7f4a_7c15) | 1;
    let expected: Vec<usize> = (0..7_u64)
        .map(|i| h1.wrapping_add(i.wrapping_mul(h2)) as usize % 10)
        .collect();
    assert_eq!(filter.bits_for("a"), expected);
}

#[test]
fn table_files_are_named_by_their_ids() {
    assert_eq!(table_file_name(7), "sst-00000000000000000007.sst");
    assert_eq!(draft_file_name(7), ".sst-00000000000000000007.tmp");
    assert_eq!(table_file_name(u64::MAX), "sst-18446744073709551615.sst");
    for id in [0, 7, 99, u64::MAX] {
        assert_eq!(table_id_of(&table_file_name(id)), Some(id));
        assert_eq!(table_id_of(&draft_file_name(id)), None);
    }
    assert_eq!(table_id_of("sst-+5.sst"), Some(5));
    assert_eq!(table_id_of("wal.log"), None);
    assert_eq!(table_id_of("sst-x.sst"), None);
    assert_eq!(table_id_of("sst-18446744073709551616.sst"), None);
}

#[test]
fn the_first_entry_of_a_key_counts() {
    let merged = merge_entries(vec![
        entry(5, "b", Some("new")),
        entry(4, "c", None),
        entry(3, "a", Some("x")),
        entry(2, "c", Some("gone")),
        entry(1, "b", Some("old")),
    ]);
    assert_eq!(merged, [entry(3, "a", Some("x")), entry(5, "b", Some("new"))]);
    assert!(merge_entries(Vec::new()).is_empty());
}

#[test]
fn a_replay_skips_what_is_there() {
    let frame = |index: usize, key: &str, value: &str| WalFrame {
        index,
        record: Some(Record { key: key.to_string(), value: Some(value.to_string()) }),
    };
    let mut store = Store::open(Disk::new(), LsmOptions::default());
    store.apply(1, put("a", "1")).unwrap();
    store.tree.replay(vec![
        frame(1, "a", "skipped"),
        frame(2, "b", "2"),
        WalFrame { index: 5, record: None },
        frame(4, "b", "skipped"),
    ]);
    assert_eq!(store.tree.last_applied(), 5);
    assert_eq!(store.get("a").unwrap(), Some("1".to_string()));
    assert_eq!(store.get("b").unwrap(), Some("2".to_string()));
}

#[test]
fn frames_and_tables_are_put_together_from_their_parts() {
    assert_eq!(frame_payload(b"ab".to_vec()).unwrap(), b"\0\0\0\x02ab");
    assert_eq!(
        finish_table(b"data".to_vec(), b"foot".to_vec()),
        b"datafoot\0\0\0\0\0\0\0\x04RKVSST01"
    );
}

#[test]
fn a_reopened_tree_has_applied_as_much() {
    let mut store = Store::open(Disk::new(), LsmOptions::default());
    store.apply(1, put("k", "v")).unwrap();
    store.apply(2, Command::Noop).unwrap();
    store.flush().unwrap();
    assert!(store.disk.log.is_empty());
    let mut again = Store::open(store.disk, LsmOptions::default());
    assert_eq!(again.tree.last_applied(), 2);
    assert_eq!(again.get("k").unwrap(), Some("v".into()));
    again.apply(3, put("l", "w")).unwrap();
    again.flush().unwrap();
    again.compact().unwrap();
    assert_eq!(again.tree.sstable_count(), 1);
    let again = Store::open(again.disk, LsmOptions::default());
    assert_eq!(again.tree.last_applied(), 3);
}

#[test]
fn a_compaction_to_nothing_keeps_account() {
    let mut store = Store::open(Disk::new(), tiny());
    store.apply(1, put("gone", "v")).unwrap();
    store.apply(2, delete("gone")).unwrap();
    assert!(store.disk.log.is_empty());
    store.compact().unwrap();
    assert!(store.disk.files.is_empty());
    let frames = read_wal_frames(&store.disk.log).unwrap().frames;
    assert_eq!(frames, [WalFrame { index: 2, record: None }]);
    let mut again = Store::open(store.disk, tiny());
    assert_eq!(again.tree.last_applied(), 2);
    assert_eq!(again.get("gone").unwrap(), None);
    // The account is kept beside what is in the log already.
    again.apply(3, put("k", "v")).unwrap();
    assert_eq!(again.tree.sstable_count(), 1);
    let mut again = Store::open(again.disk, tiny());
    assert_eq!(again.tree.last_applied(), 3);
    assert_eq!(again.get("k").unwrap(), Some("v".into()));
}

#[test]
fn a_log_cut_off_anywhere_is_cut_there() {
    let mut store = Store::open(Disk::new(), LsmOptions::default());
    store.apply(1, put("a", "1")).unwrap();
    let whole = store.disk.log.len();
    store.apply(2, put("b", "2")).unwrap();
    let log = store.disk.log.clone();
    for len in whole + 1..log.len() {
        let torn = Disk { files: Vec::new(), log: log[..len].to_vec() };
        let mut again = Store::open(torn, LsmOptions::default());
        assert_eq!(again.disk.log.len(), whole);
        assert_eq!(again.tree.last_applied(), 1);
        again.apply(2, put("c", "3")).unwrap();
        let mut again = Store::open(again.disk, LsmOptions::default());
        assert_eq!(again.get("a").unwrap(), Some("1".into()));
        assert_eq!(again.get("b").unwrap(), None);
        assert_eq!(again.get("c").unwrap(), Some("3".into()));
    }
}

#[test]
fn old_tables_go_the_oldest_first() {
    let mut store = Store::open(Disk::new(), tiny());
    store.apply(1, put("gone", "v")).unwrap();
    store.apply(2, put("kept", "w")).unwrap();
    store.apply(3, delete("gone")).unwrap();
    let (mut operation, mut action) = store.tree.begin_compact().unwrap();
    let mut removed = Vec::new();
    loop {
        let step = match (operation, action) {
            (Operation::Reading(old_tables), DiskAction::ReadTables(ids)) => {
                assert_eq!(ids, [3, 2, 1]);
                let read: Vec<Vec<u8>> =
                    ids.iter().map(|id| store.disk.file(*id).clone()).collect();
                assert!(store.tree.can_merge(&old_tables, &read));
                store.tree.resume_read(old_tables, &read)
            }
            (operation, DiskAction::WriteTable { id, bytes }) => {
                store.disk.files.push((id, bytes));
                store.tree.resume(operation)
            }
            (operation, DiskAction::RemoveTable(id)) => {
                store.disk.files.retain(|file| file.0 != id);
                removed.push(id);
                store.tree.resume(operation)
            }
            (_, DiskAction::Nothing) => break,
            other => panic!("{other:?}"),
        };
        (operation, action) = step.unwrap();
        let copy = Disk { files: store.disk.files.clone(), log: store.disk.log.clone() };
        let mut opened = Store::open(copy, tiny());
        assert_eq!(opened.get("gone").unwrap(), None);
        assert_eq!(opened.get("kept").unwrap(), Some("w".into()));
        assert_eq!(opened.tree.last_applied(), 3);
    }
    assert_eq!(removed, [1, 2, 3]);
    assert_eq!(store.disk.files.len(), 1);
}

#[test]
fn a_tree_and_a_machine_stay_alike() {
    let mut machine = MemoryStateMachine::new();
    let options = LsmOptions { memtable_bytes: 40, compaction_threshold: 3 };
    let mut store = Store::open(Disk::new(), options);
    for index in 1..=40 {
        let key = format!("k{}", index * 7 % 5);
        let command = match index % 4 {
            0 => Command::Noop,
            1 => delete(&key),
            _ => put(&key, &format!("value {index}")),
        };
        machine.apply(index, &command).unwrap();
        store.apply(index, command).unwrap();
        if index % 5 == 0 {
            store.flush().unwrap();
        }
        if index % 11 == 0 {
            store.compact().unwrap();
        }
        if index % 3 == 0 {
            store = Store::open(store.disk, options);
        }
        assert_eq!(store.tree.last_applied(), machine.last_applied());
        for k in 0..5 {
            let key = format!("k{k}");
            assert_eq!(store.get(&key).unwrap(), machine.get(&key).unwrap());
        }
    }
    assert!(machine.apply(50, &Command::Noop).is_err());
    assert_eq!(store.apply(50, Command::Noop), Err(LsmError::IndexGap));
    assert_eq!(store.tree.last_applied(), 40);
}

#[test]
fn codes_are_made_of_numbers_and_texts() {
    let mut store = Store::open(Disk::new(), LsmOptions::default());
    store.apply(1, put("k", "\u{e9}")).unwrap();
    assert_eq!(
        store.disk.log,
        [
            // The frame's length.
            &[0, 0, 0, 29][..],
            // The index, and that there is a record.
            &[1, 0, 0, 0, 0, 0, 0, 0, 1],
            &[1, 0, 0, 0, 0, 0, 0, 0, b'k'],
            // That there is a value, two bytes long.
            &[1, 2, 0, 0, 0, 0, 0, 0, 0, 0xc3, 0xa9],
        ]
        .concat()
    );
    let frame = frame_payload(vec![7; 3]).unwrap();
    assert_eq!(frame, [0, 0, 0, 3, 7, 7, 7]);
    let image = encode_table(&vec![entry(258, "k", None)], 259).unwrap();
    assert_eq!(
        image.bytes[..22],
        [
            &[0, 0, 0, 18][..],
            &[2, 1, 0, 0, 0, 0, 0, 0],
            &[1, 0, 0, 0, 0, 0, 0, 0, b'k'],
            &[0],
        ]
        .concat()
    );
    let bits = image.footer.bloom.bits.clone();
    assert_eq!(bits.len(), 2);
    assert_eq!(
        encode_footer(&image.footer),
        [
            &[1, 0, 0, 0, 0, 0, 0, 0][..],
            &[1, 0, 0, 0, 0, 0, 0, 0, b'k', 0, 0, 0, 0, 0, 0, 0, 0],
            &[2, 0, 0, 0, 0, 0, 0, 0, bits[0], bits[1]],
            &[10, 0, 0, 0, 0, 0, 0, 0],
            &[3, 1, 0, 0, 0, 0, 0, 0],
        ]
        .concat()
    );
}

#[test]
fn a_tree_opened_on_foreign_files_reopens_the_same() {
    // Tables that overlap, listed in no order, and a log that reaches back.
    let image = |entries: Vec<DataEntry>, max: usize| encode_table(&entries, max).unwrap().bytes;
    let mut source = Store::open(Disk::new(), LsmOptions::default());
    for index in 1..=4 {
        source.apply(index, put("k", &format!("log {index}"))).unwrap();
    }
    let mut log = source.disk.log;
    log.extend_from_slice(&[0, 0, 0]);
    let disk = Disk {
        files: vec![
            (5, image(vec![entry(2, "a", Some("new")), entry(2, "b", None)], 3)),
            (9, image(vec![entry(1, "c", Some("high"))], 1)),
            (2, image(vec![entry(3, "a", Some("old"))], 2)),
        ],
        log,
    };
    let mut store = Store::open(disk, LsmOptions::default());
    assert_eq!(store.tree.last_applied(), 4);
    assert_eq!(store.get("k").unwrap(), Some("log 4".into()));
    store.apply(5, put("d", "5")).unwrap();
    for round in 0..3 {
        match round {
            1 => store.flush().unwrap(),
            2 => store.compact().unwrap(),
            _ => {}
        }
        let copy = Disk { files: store.disk.files.clone(), log: store.disk.log.clone() };
        let mut again = Store::open(copy, LsmOptions::default());
        assert_eq!(again.tree.last_applied(), store.tree.last_applied());
        assert_eq!(again.tree.sstable_count(), store.tree.sstable_count());
        assert_eq!(again.tree.memtable_size_bytes(), store.tree.memtable_size_bytes());
        for key in ["a", "b", "c", "d", "k", "z"] {
            assert_eq!(again.get(key).unwrap(), store.get(key).unwrap());
        }
    }
    assert_eq!(store.tree.sstable_count(), 1);
    assert_eq!(store.get("a").unwrap(), Some("new".into()));
}
