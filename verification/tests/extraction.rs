use llm_stream::extractor::{extract_standard_content, ExtractionError};

#[test]
fn standard_body_extracts_content() {
    let body = b"{\"choices\":[{\"message\":{\"content\":\"hi\"}}]}";
    assert_eq!(extract_standard_content(body), Ok(String::from("hi")));
}

#[test]
fn empty_object_fails_extraction() {
    assert_eq!(extract_standard_content(b"{}"), Err(ExtractionError));
}

#[test]
fn invalid_json_fails_extraction() {
    assert_eq!(extract_standard_content(b"not json"), Err(ExtractionError));
}

#[test]
fn non_string_content_fails_extraction() {
    let body = b"{\"choices\":[{\"message\":{\"content\":5}}]}";
    assert_eq!(extract_standard_content(body), Err(ExtractionError));
}

#[test]
fn delta_shaped_body_fails_extraction() {
    let body = b"{\"choices\":[{\"delta\":{\"content\":\"hi\"}}]}";
    assert_eq!(extract_standard_content(body), Err(ExtractionError));
}
