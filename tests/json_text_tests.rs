use block_index::{json_object_lines, process_json_output, JsonOutputError};

#[test]
fn keeps_only_lines_that_open_an_object() {
    let out = json_object_lines("INFO start\n  {\"a\": 1}\r\nnoise {\n{\"b\":2}");
    assert_eq!(out, "  {\"a\": 1}{\"b\":2}");
}

#[test]
fn unicode_white_space_before_brace_counts() {
    assert_eq!(json_object_lines("\u{3000}{x}\n\u{a0}y"), "\u{3000}{x}");
}

#[test]
fn empty_output_has_no_object_lines() {
    assert_eq!(json_object_lines(""), "");
    assert_eq!(json_object_lines("\n\n"), "");
}

#[test]
fn bare_carriage_return_stays_in_the_line() {
    assert_eq!(json_object_lines("{a}\r"), "{a}\r");
    assert_eq!(json_object_lines("{a}\r\n"), "{a}");
}

#[test]
fn noisy_output_becomes_compact_json() {
    let r = process_json_output("INFO start\n{\"b\": 2, \"a\": [1, 2]}\nINFO done\n");
    assert_eq!(r, Ok("{\"a\":[1,2],\"b\":2}".to_string()));
}

#[test]
fn crlf_output_becomes_compact_json() {
    assert_eq!(process_json_output("a\r\n{ }\r\n"), Ok("{}".to_string()));
}

#[test]
fn output_without_json_is_malformed() {
    assert_eq!(process_json_output("no json here"), Err(JsonOutputError::Malformed));
    assert_eq!(process_json_output(""), Err(JsonOutputError::Malformed));
}

#[test]
fn object_split_over_lines_is_malformed() {
    let r = process_json_output("{\"a\": 1,\n  \"b\": 2}");
    assert_eq!(r, Err(JsonOutputError::Malformed));
}

#[test]
fn one_json_line_among_log_lines() {
    let r = process_json_output("log line\n{\"a\":1}\ntrailer");
    assert_eq!(r, Ok("{\"a\":1}".to_string()));
}
