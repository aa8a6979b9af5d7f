use clam_core::headers::{build_header_map, header_text, serialize_headers};
use clam_core::x402_client::X402ClientError;
use reqwest::header::{HeaderMap, HeaderValue};

fn pairs(list: &[(&str, &str)]) -> Vec<(String, String)> {
    list.iter().map(|(k, v)| (k.to_string(), v.to_string())).collect()
}

fn text<'a>(headers: &'a [(String, String)], name: &str) -> Option<&'a str> {
    headers.iter().find(|(k, _)| k == name).map(|(_, v)| v.as_str())
}

#[test]
fn headers_are_set_under_lower_case_names() {
    let map = build_header_map(&pairs(&[("Accept", "application/json"), ("X-Caf\u{65}", "\u{e9}")])).unwrap();
    assert_eq!(map.len(), 2);
    assert_eq!(map.get("accept").unwrap(), "application/json");
    assert_eq!(map.get("x-cafe").unwrap().as_bytes(), "\u{e9}".as_bytes());
}

#[test]
fn the_last_of_several_headers_with_one_name_stays() {
    let map = build_header_map(&pairs(&[("a", "1"), ("A", "2")])).unwrap();
    assert_eq!(map.len(), 1);
    assert_eq!(map.get("a").unwrap(), "2");
}

#[test]
fn a_bad_header_name_is_refused() {
    for name in ["", "a b", "a:b", "\u{e9}", "a\n"] {
        match build_header_map(&pairs(&[("ok", "1"), (name, "v"), ("also bad", "v")])) {
            Err(X402ClientError::InvalidHeaderName { name: reported, .. }) => assert_eq!(reported, name),
            other => panic!("{name:?}: {other:?}"),
        }
    }
}

#[test]
fn a_bad_header_value_is_refused() {
    for value in ["a\nb", "\u{0}", "\u{7f}"] {
        match build_header_map(&pairs(&[("X-Name", value)])) {
            Err(X402ClientError::InvalidHeaderValue { name }) => assert_eq!(name, "X-Name"),
            other => panic!("{value:?}: {other:?}"),
        }
    }
    assert!(build_header_map(&pairs(&[("X-Name", "tab\tand space")])).is_ok());
}

#[test]
fn the_first_bad_header_is_reported() {
    match build_header_map(&pairs(&[("one", "\n"), ("two words", "v")])) {
        Err(X402ClientError::InvalidHeaderValue { name }) => assert_eq!(name, "one"),
        other => panic!("{other:?}"),
    }
}

#[test]
fn many_headers_fit_and_too_many_do_not() {
    let some: Vec<(String, String)> = (0..6554).map(|i| (format!("h{i}"), "v".to_string())).collect();
    assert_eq!(build_header_map(&some).unwrap().len(), 6554);
    let many: Vec<(String, String)> = (0..40000).map(|i| (format!("h{i}"), "v".to_string())).collect();
    assert!(matches!(build_header_map(&many), Err(X402ClientError::TooManyHeaders)));
}

#[test]
fn response_headers_are_read_as_text() {
    let mut map = HeaderMap::new();
    map.append("content-type", HeaderValue::from_static("application/json"));
    map.append("x-many", HeaderValue::from_static("first"));
    map.append("x-many", HeaderValue::from_static("second"));
    map.append("x-binary", HeaderValue::from_bytes(&[0xff]).unwrap());
    map.append("x-mixed", HeaderValue::from_static("shown"));
    map.append("x-mixed", HeaderValue::from_bytes(&[0xff]).unwrap());
    let headers = serialize_headers(&map);
    assert_eq!(headers.len(), 3);
    assert_eq!(text(&headers, "content-type"), Some("application/json"));
    assert_eq!(text(&headers, "x-many"), Some("second"));
    assert_eq!(text(&headers, "x-mixed"), Some("shown"));
    assert_eq!(text(&headers, "x-binary"), None);
}

#[test]
fn a_header_is_read_by_its_first_value() {
    let mut map = HeaderMap::new();
    map.append("x-many", HeaderValue::from_static("first"));
    map.append("x-many", HeaderValue::from_static("second"));
    map.append("x-binary", HeaderValue::from_bytes(&[0xff]).unwrap());
    assert_eq!(header_text(&map, "X-Many").as_deref(), Some("first"));
    assert_eq!(header_text(&map, "x-binary"), None);
    assert_eq!(header_text(&map, "x-none"), None);
    assert_eq!(header_text(&map, "not a name"), None);
}
