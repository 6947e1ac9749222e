use std::path::PathBuf;

use timestore::config::{Config, ConfigBuilder, ConfigBuilderError};
use timestore::layout::FileId;
use timestore::params::{
    IterParams, IterParamsBuilder, IterParamsBuilderError, DEFAULT_BUFFER_SIZE, DEFAULT_CONCURRENCY,
};

fn tables() -> Vec<String> {
    vec!["table0".to_owned(), "table1".to_owned()]
}

#[test]
fn config_holds_what_was_set() {
    let cfg = ConfigBuilder::default()
        .path(PathBuf::from("/data/store"))
        .create_if_not_exists(true)
        .segment_length(1024)
        .tables(tables())
        .build()
        .unwrap();
    assert_eq!(cfg.path(), &PathBuf::from("/data/store"));
    assert!(cfg.create_if_not_exists());
    assert_eq!(cfg.tables(), tables());
    assert_eq!(cfg.segment_length(), 1024);
    assert_eq!(cfg.clone(), cfg);
}

#[test]
fn config_default_is_empty() {
    let cfg = Config::default();
    assert_eq!(cfg.path(), &PathBuf::new());
    assert!(!cfg.create_if_not_exists());
    assert!(cfg.tables().is_empty());
    assert_eq!(cfg.segment_length(), 0);
}

#[test]
fn config_needs_every_option() {
    let missing = |b: ConfigBuilder| b.build().err();
    let none = ConfigBuilder::default();
    assert_eq!(missing(none.clone()), Some(ConfigBuilderError::UninitializedField("path")));
    let with_path = none.path(PathBuf::from("p"));
    assert_eq!(
        missing(with_path.clone().segment_length(1).tables(tables())),
        Some(ConfigBuilderError::UninitializedField("create_if_not_exists"))
    );
    let with_create = with_path.create_if_not_exists(false);
    assert_eq!(
        missing(with_create.clone().segment_length(1)),
        Some(ConfigBuilderError::UninitializedField("tables"))
    );
    let with_tables = with_create.tables(Vec::new());
    assert_eq!(
        missing(with_tables.clone()),
        Some(ConfigBuilderError::UninitializedField("segment_length"))
    );
    assert!(with_tables.segment_length(7).build().is_ok());
}

#[test]
fn a_later_setting_replaces_an_earlier_one() {
    let cfg = ConfigBuilder::default()
        .path(PathBuf::from("a"))
        .path(PathBuf::from("b"))
        .create_if_not_exists(true)
        .create_if_not_exists(false)
        .segment_length(1)
        .segment_length(2)
        .tables(tables())
        .tables(vec!["t".to_owned()])
        .build()
        .unwrap();
    assert_eq!(cfg.path(), &PathBuf::from("b"));
    assert!(!cfg.create_if_not_exists());
    assert_eq!(cfg.segment_length(), 2);
    assert_eq!(cfg.tables(), vec!["t".to_owned()]);
}

#[test]
fn iter_params_have_defaults() {
    let params = IterParamsBuilder::default().from(8).to(13).build().unwrap();
    assert_eq!(params.from(), 8);
    assert_eq!(params.to(), 13);
    assert_eq!(params.table(), None);
    assert_eq!(params.buffer_size(), 512 * 1024);
    assert_eq!(params.concurrency(), 8);
    assert_eq!(DEFAULT_BUFFER_SIZE, 524288);
    assert_eq!(DEFAULT_CONCURRENCY, 8);
    assert_eq!(IterParams::default().table(), None);
}

#[test]
fn iter_params_hold_what_was_set() {
    let params = IterParamsBuilder::default()
        .to(2)
        .from(1)
        .table(Some("table1"))
        .buffer_size(4096)
        .concurrency(3)
        .build()
        .unwrap();
    assert_eq!(params.from(), 1);
    assert_eq!(params.to(), 2);
    assert_eq!(params.table(), Some("table1"));
    assert_eq!(params.buffer_size(), 4096);
    assert_eq!(params.concurrency(), 3);
    let again = IterParamsBuilder::default().from(1).to(2).table(Some("x")).table(None).build().unwrap();
    assert_eq!(again.table(), None);
}

#[test]
fn iter_params_need_both_ends() {
    assert_eq!(
        IterParamsBuilder::default().build().err(),
        Some(IterParamsBuilderError::UninitializedField("from"))
    );
    assert_eq!(
        IterParamsBuilder::default().to(3).build().err(),
        Some(IterParamsBuilderError::UninitializedField("from"))
    );
    assert_eq!(
        IterParamsBuilder::default().from(3).concurrency(1).build().err(),
        Some(IterParamsBuilderError::UninitializedField("to"))
    );
}

#[test]
fn files_have_their_reserved_names() {
    assert_eq!(FileId::Length.file_name(), "length");
    assert_eq!(FileId::NewLength.file_name(), "new_length");
    assert_eq!(FileId::Keys.file_name(), "keys");
    assert_eq!(FileId::Offsets(3).file_name(), "offsets");
    assert_eq!(FileId::Data(0).file_name(), "data");
    assert_eq!(FileId::Length.table(), None);
    assert_eq!(FileId::NewLength.table(), None);
    assert_eq!(FileId::Keys.table(), None);
    assert_eq!(FileId::Offsets(3).table(), Some(3));
    assert_eq!(FileId::Data(0).table(), Some(0));
}

fn with_tables(names: &[&str]) -> Config {
    ConfigBuilder::default()
        .path(PathBuf::from("p"))
        .create_if_not_exists(false)
        .segment_length(1)
        .tables(names.iter().map(|n| n.to_string()).collect())
        .build()
        .unwrap()
}

#[test]
fn table_names_must_name_directories() {
    assert!(with_tables(&[]).has_valid_tables());
    assert!(with_tables(&["table0", "table1"]).has_valid_tables());
    assert!(with_tables(&["a", "b", "c", "Keys", "lengths"]).has_valid_tables());
    assert!(!with_tables(&["a", "b", "a"]).has_valid_tables());
    assert!(!with_tables(&["a", "a"]).has_valid_tables());
    assert!(!with_tables(&["a", ""]).has_valid_tables());
    assert!(!with_tables(&[""]).has_valid_tables());
    for reserved in ["length", "new_length", "keys", "offsets", "data"] {
        assert!(!with_tables(&["a", reserved]).has_valid_tables());
        assert!(!with_tables(&[reserved, "a"]).has_valid_tables());
    }
}
