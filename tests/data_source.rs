use cache_bench::error::LookupError;
use cache_bench::keys::key_text;
use cache_bench::source::{lookup_in_read, lookup_in_text, read_member};

#[test]
fn present_key_gives_its_integer() {
    let data = "{\"1\":100,\"2\":-200}";
    assert_eq!(lookup_in_text(data, "1"), Ok(100));
    assert_eq!(lookup_in_text(data, "2"), Ok(-200));
}

#[test]
fn absent_key_is_not_found() {
    assert_eq!(lookup_in_text("{\"1\":100}", "3"), Err(LookupError::NotFound));
}

#[test]
fn dataset_that_is_no_object_is_malformed() {
    assert_eq!(lookup_in_text("[1, 2]", "1"), Err(LookupError::Malformed));
    assert_eq!(lookup_in_text("5", "1"), Err(LookupError::Malformed));
    assert_eq!(lookup_in_text("\"1\"", "1"), Err(LookupError::Malformed));
}

#[test]
fn non_integer_value_is_malformed() {
    assert_eq!(lookup_in_text("{\"1\":\"a\"}", "1"), Err(LookupError::Malformed));
    assert_eq!(lookup_in_text("{\"1\":1.5}", "1"), Err(LookupError::Malformed));
}

#[test]
fn unparsable_dataset_is_malformed() {
    assert_eq!(lookup_in_text("{\"1\":", "1"), Err(LookupError::Malformed));
    assert_eq!(lookup_in_text("", "1"), Err(LookupError::Malformed));
}

#[test]
fn unreadable_dataset_is_io_error() {
    assert_eq!(lookup_in_read(None, "1"), Err(LookupError::IoError));
    assert_eq!(lookup_in_read(Some("{\"1\":9}"), "1"), Ok(9));
}

#[test]
fn member_of_parsed_document() {
    let doc: serde_json::Value = serde_json::from_str("{\"a\":5,\"b\":true}").unwrap();
    assert_eq!(read_member(&doc, "a"), Ok(5));
    assert_eq!(read_member(&doc, "b"), Err(LookupError::Malformed));
    assert_eq!(read_member(&doc, "c"), Err(LookupError::NotFound));
    assert_eq!(read_member(&serde_json::Value::from(3), "a"), Err(LookupError::Malformed));
}

#[test]
fn key_text_is_decimal() {
    assert_eq!(key_text(0), "0");
    assert_eq!(key_text(7), "7");
    assert_eq!(key_text(409), "409");
    assert_eq!(key_text(1000), "1000");
    assert_eq!(key_text(u64::MAX), u64::MAX.to_string());
}
