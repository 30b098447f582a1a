use lru::command::Command;
use lru::Lru;

fn fresh(capacity: usize) -> Command {
    Command::new(Lru::with_capacity(capacity))
}

#[test]
fn ping_frame() {
    let mut c = fresh(4);
    assert_eq!(c.parse("*1\r\n$4\r\nPING\r\n"), "+PONG\r\n");
}

#[test]
fn ping_matches_case_insensitively() {
    let mut c = fresh(4);
    assert_eq!(c.parse("*1\r\n$4\r\nping\r\n"), "+PONG\r\n");
    assert_eq!(c.parse("*1\r\n$4\r\nPiNg\r\n"), "+PONG\r\n");
}

#[test]
fn set_then_get_round_trip() {
    let mut c = fresh(4);
    assert_eq!(c.parse("*3\r\n$3\r\nSET\r\n$1\r\nk\r\n$1\r\nv\r\n"), "+OK\r\n");
    assert_eq!(c.parse("*2\r\n$3\r\nGET\r\n$1\r\nk\r\n"), "$1\r\nv\r\n");
}

#[test]
fn set_lower_case_works() {
    let mut c = fresh(4);
    assert_eq!(c.parse("*3\r\n$3\r\nset\r\n$3\r\nkey\r\n$5\r\nvalue\r\n"), "+OK\r\n");
    assert_eq!(c.parse("*2\r\n$3\r\nget\r\n$3\r\nkey\r\n"), "$5\r\nvalue\r\n");
}

#[test]
fn get_miss_answers_null_bulk() {
    let mut c = fresh(4);
    assert_eq!(c.parse("*2\r\n$3\r\nGET\r\n$6\r\nabsent\r\n"), "$-1\r\n");
}

#[test]
fn frame_without_array_marker_is_invalid() {
    let mut c = fresh(4);
    assert_eq!(c.parse("$4\r\nPING\r\n"), "-ERR invalid command\r\n");
    assert_eq!(c.parse(""), "-ERR invalid command\r\n");
}

#[test]
fn dollar_line_without_payload_is_malformed() {
    let mut c = fresh(4);
    assert_eq!(c.parse("*1\r\n$4"), "-ERR malformed bulk string\r\n");
}

#[test]
fn bare_array_marker_is_empty_command() {
    let mut c = fresh(4);
    assert_eq!(c.parse("*0\r\n"), "-ERR empty command\r\n");
}

#[test]
fn set_arity_is_checked() {
    let mut c = fresh(4);
    assert_eq!(
        c.parse("*2\r\n$3\r\nSET\r\n$1\r\nk\r\n"),
        "-ERR wrong number of arguments for 'SET'\r\n"
    );
}

#[test]
fn get_arity_is_checked() {
    let mut c = fresh(4);
    assert_eq!(
        c.parse("*1\r\n$3\r\nGET\r\n"),
        "-ERR wrong number of arguments for 'GET'\r\n"
    );
}

#[test]
fn unknown_command_is_reported() {
    let mut c = fresh(4);
    assert_eq!(c.parse("*1\r\n$4\r\nEVAL\r\n"), "-ERR unknown command\r\n");
}

#[test]
fn null_byte_in_value_is_refused() {
    let mut c = fresh(4);
    assert_eq!(
        c.parse("*3\r\n$3\r\nSET\r\n$1\r\nk\r\n$3\r\na\0b\r\n"),
        "-ERR value must be string or int\r\n"
    );
    assert_eq!(c.parse("*2\r\n$3\r\nGET\r\n$1\r\nk\r\n"), "$-1\r\n");
}

#[test]
fn eviction_through_the_protocol() {
    let mut c = fresh(2);
    assert_eq!(c.parse("*3\r\n$3\r\nSET\r\n$1\r\na\r\n$1\r\n1\r\n"), "+OK\r\n");
    assert_eq!(c.parse("*3\r\n$3\r\nSET\r\n$1\r\nb\r\n$1\r\n2\r\n"), "+OK\r\n");
    assert_eq!(c.parse("*2\r\n$3\r\nGET\r\n$1\r\na\r\n"), "$1\r\n1\r\n");
    assert_eq!(c.parse("*3\r\n$3\r\nSET\r\n$1\r\nc\r\n$1\r\n3\r\n"), "+OK\r\n");
    assert_eq!(c.parse("*2\r\n$3\r\nGET\r\n$1\r\nb\r\n"), "$-1\r\n");
    assert_eq!(c.parse("*2\r\n$3\r\nGET\r\n$1\r\na\r\n"), "$1\r\n1\r\n");
    assert_eq!(c.parse("*2\r\n$3\r\nGET\r\n$1\r\nc\r\n"), "$1\r\n3\r\n");
}

#[test]
fn reply_length_counts_bytes() {
    let mut c = fresh(4);
    assert_eq!(c.parse("*3\r\n$3\r\nSET\r\n$1\r\nk\r\n$5\r\nav\u{e9}c\r\n"), "+OK\r\n");
    // the value is four characters but five bytes long
    assert_eq!(c.parse("*2\r\n$3\r\nGET\r\n$1\r\nk\r\n"), "$5\r\nav\u{e9}c\r\n");
}
