use rexporter::http::{
    index_response, metrics_response, not_found_response, request_path, request_path_from_bytes,
    response_text, route, Route,
};

#[test]
fn request_path_is_the_second_word_of_the_request_line() {
    assert_eq!(request_path("GET /metrics HTTP/1.1\r\nHost: x\r\n\r\n"), "/metrics");
    assert_eq!(request_path("GET /nonsense HTTP/1.1\r\n\r\n"), "/nonsense");
    assert_eq!(request_path(""), "/");
    assert_eq!(request_path("GET\r\n"), "/");
    assert_eq!(request_path("\nGET /metrics HTTP/1.1\n"), "/");
}

#[test]
fn request_path_from_bytes_replaces_invalid_utf8() {
    assert_eq!(request_path_from_bytes(b"GET /metrics HTTP/1.1\r\n"), "/metrics");
    assert_eq!(request_path_from_bytes(b"GET /a\xffb HTTP/1.1\r\n"), "/a\u{fffd}b");
}

#[test]
fn routes_metrics_root_and_everything_else() {
    assert_eq!(route("/metrics"), Route::Metrics);
    assert_eq!(route("/"), Route::Index);
    assert_eq!(route("/nonsense"), Route::NotFound);
    assert_eq!(route("/metrics/"), Route::NotFound);
}

#[test]
fn metrics_endpoint_response_carries_the_text() {
    let r = response_text(&metrics_response(Ok("node_load1 0.5\n".to_string())));
    assert_eq!(
        r,
        "HTTP/1.1 200 OK\r\nContent-Type: text/plain; version=0.0.4\r\nContent-Length: 15\r\nConnection: close\r\n\r\nnode_load1 0.5\n"
    );
}

#[test]
fn collector_error_becomes_a_500_with_the_message() {
    let r = response_text(&metrics_response(Err("proc file missing".to_string())));
    assert!(r.starts_with("HTTP/1.1 500 Internal Server Error\r\n"));
    assert!(r.ends_with("\r\n\r\nerror: proc file missing"));
    assert!(r.contains("Content-Length: 24\r\n"));
}

#[test]
fn root_serves_a_link_and_unknown_paths_404() {
    let root = response_text(&index_response());
    assert!(root.starts_with("HTTP/1.1 200 OK"));
    assert!(root.contains("text/html"));
    assert!(root.contains("/metrics"));
    let missing = response_text(&not_found_response());
    assert!(missing.starts_with("HTTP/1.1 404 Not Found"));
    assert!(missing.ends_with("not found"));
}

#[test]
fn content_length_counts_bytes_not_characters() {
    let r = response_text(&metrics_response(Ok("é".to_string())));
    assert!(r.contains("Content-Length: 2\r\n"));
}
