use qataar::parse::{convert_to_operation, operation_from_text, parse_usize, split_fields};
use qataar::queue::QueueOperation;

#[test]
fn text_form_names_each_operation() {
    assert_eq!(
        operation_from_text("AddTopic,orders"),
        Some(QueueOperation::AddTopic("orders".to_string()))
    );
    assert_eq!(
        operation_from_text("AddConsumer,c1,orders,7"),
        Some(QueueOperation::AddConsumer(
            "c1".to_string(),
            "orders".to_string(),
            Some(7)
        ))
    );
    // An offset that does not parse is read as absent, not rejected.
    assert_eq!(
        operation_from_text("AddConsumer,c1,orders,x"),
        Some(QueueOperation::AddConsumer(
            "c1".to_string(),
            "orders".to_string(),
            None
        ))
    );
    // The value is every remaining field joined, separators dropped.
    assert_eq!(
        operation_from_text("AddItem,t,k,a,b,c"),
        Some(QueueOperation::AddItem(
            "t".to_string(),
            "k".to_string(),
            b"abc".to_vec()
        ))
    );
    assert_eq!(
        operation_from_text("SetReadOffset,c,t,5"),
        Some(QueueOperation::SetReadOffset(
            "c".to_string(),
            "t".to_string(),
            5
        ))
    );
    assert_eq!(
        operation_from_text("ReadBatch,c,t,2"),
        Some(QueueOperation::ReadBatch(
            "c".to_string(),
            "t".to_string(),
            2
        ))
    );
}

#[test]
fn text_form_rejects_what_names_no_operation() {
    assert_eq!(operation_from_text("Bogus,x"), None);
    assert_eq!(operation_from_text("AddConsumer,c1,orders"), None);
    assert_eq!(operation_from_text("AddItem,t"), None);
    assert_eq!(operation_from_text("SetReadOffset,c,t,x"), None);
    assert_eq!(operation_from_text("ReadBatch,c,t"), None);
}

#[test]
fn split_keeps_every_field() {
    let f = split_fields("a,b,c");
    assert_eq!(f, vec!["a", "b", "c"]);
    assert_eq!(split_fields(""), vec![""]);
    assert_eq!(split_fields("x,"), vec!["x", ""]);
    assert_eq!(split_fields(",x"), vec!["", "x"]);
}

#[test]
fn parse_usize_accepts_digit_strings_only() {
    assert_eq!(parse_usize("0"), Some(0));
    assert_eq!(parse_usize("12345"), Some(12345));
    assert_eq!(parse_usize(""), None);
    assert_eq!(parse_usize("12a"), None);
    assert_eq!(parse_usize("-3"), None);
    assert_eq!(parse_usize(&usize::MAX.to_string()), Some(usize::MAX));
    assert_eq!(parse_usize("999999999999999999999999999999"), None);
}

#[test]
fn shorthand_names_each_operation() {
    assert_eq!(
        convert_to_operation("add-topic,orders"),
        Some(QueueOperation::AddTopic("orders".to_string()))
    );
    assert_eq!(
        convert_to_operation("add-consumer,c1,orders"),
        Some(QueueOperation::AddConsumer(
            "c1".to_string(),
            "orders".to_string(),
            None
        ))
    );
    assert_eq!(
        convert_to_operation("add-consumer,c1,orders,42"),
        Some(QueueOperation::AddConsumer(
            "c1".to_string(),
            "orders".to_string(),
            Some(42)
        ))
    );
    assert_eq!(
        convert_to_operation("add-item,orders,a,xyz"),
        Some(QueueOperation::AddItem(
            "orders".to_string(),
            "a".to_string(),
            b"xyz".to_vec()
        ))
    );
    assert_eq!(
        convert_to_operation("read-batch,c1,orders,0"),
        Some(QueueOperation::ReadBatch(
            "c1".to_string(),
            "orders".to_string(),
            0
        ))
    );
}

#[test]
fn shorthand_rejects_what_names_no_operation() {
    assert_eq!(convert_to_operation(""), None);
    assert_eq!(convert_to_operation("drop-topic,x"), None);
    assert_eq!(convert_to_operation("add-topic"), None);
    assert_eq!(convert_to_operation("add-consumer,c1"), None);
    assert_eq!(convert_to_operation("add-consumer,c1,orders,notanumber"), None);
    assert_eq!(convert_to_operation("add-item,orders,a"), None);
    assert_eq!(convert_to_operation("read-batch,c1,orders"), None);
    assert_eq!(convert_to_operation("read-batch,c1,orders,x"), None);
}

#[test]
fn shorthand_keeps_empty_topic_names() {
    assert_eq!(
        convert_to_operation("add-topic,"),
        Some(QueueOperation::AddTopic("".to_string()))
    );
}
