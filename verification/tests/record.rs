use easyenglish::record::{History, Note, Record, RecordModel, RecordType, WordCn, WordEn};

#[test]
fn record_model_types() {
    let w = WordEn { word: "apply".to_string(), pronunciation: None, definitions: None, inflections: None, examples: None };
    assert_eq!(RecordModel::WordEn(w).record_type(), RecordType::WordEn);
    assert_eq!(RecordModel::Note(Note::new("n".to_string())).record_type(), RecordType::Note);
    assert_eq!(RecordModel::History(History::new("1".to_string())).record_type(), RecordType::History);
}

#[test]
fn constructors_keep_fields() {
    let r = Record::new("apple".to_string(), "{}".to_string());
    assert_eq!(r.key, "apple");
    assert_eq!(r.value, "{}");
    let c = WordCn::new("苹果".to_string(), vec!["apple".to_string()]);
    assert_eq!(c.word, "苹果");
    assert_eq!(c.english, vec!["apple".to_string()]);
    assert_eq!(Note::new("x".to_string()).content, "x");
    assert_eq!(History::new("1780672001108".to_string()).content, "1780672001108");
}
