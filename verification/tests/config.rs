use easyenglish::config::{Config, RawConfig};

#[test]
fn defaults_match_documentation() {
    let d = Config::defaults();
    assert_eq!(d.history_max_entries(), 50);
    assert!(!d.notes_persist());
    assert!(d.lookup_prefer_notes_over_dict());
    assert!(d.dict_seed_on_first_open());
    assert!(d.dict_sqlite_path().is_none());
    assert_eq!(d.dict_data_path(), "./Dict/data/seed_en_cn.json");
}

#[test]
fn partial_override_keeps_other_defaults() {
    let mut raw = RawConfig::default();
    raw.core.history.max_entries = Some(7);
    let config = raw.into_config();
    assert_eq!(config.history_max_entries(), 7);
    assert!(!config.notes_persist());
    assert!(config.lookup_prefer_notes_over_dict());
    assert!(config.dict_data_path().ends_with("seed_en_cn.json"));
}

#[test]
fn every_field_can_be_overridden() {
    let mut raw = RawConfig::default();
    raw.dict.data_path = Some("d.json".to_string());
    raw.dict.sqlite_path = Some("x.sqlite3".to_string());
    raw.dict.seed_on_first_open = Some(false);
    raw.core.notes.persist = Some(true);
    raw.core.lookup.prefer_notes_over_dict = Some(false);
    let c = raw.into_config();
    assert_eq!(c.dict_data_path(), "d.json");
    assert_eq!(c.dict_sqlite_path(), Some("x.sqlite3"));
    assert!(!c.dict_seed_on_first_open());
    assert!(c.notes_persist());
    assert!(!c.lookup_prefer_notes_over_dict());
    assert_eq!(c.history_max_entries(), 50);
}
