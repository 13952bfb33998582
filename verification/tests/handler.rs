use amiko::handler::handle_frame;
use amiko::handler::StepResult;
use amiko::kv::Database;
use amiko::resp::MockTcpStream;

fn run_one(input: &[u8], db: &mut Database) -> (Vec<u8>, StepResult, usize) {
    let mut input_stream = MockTcpStream::new(input.to_vec());
    let mut out = MockTcpStream::new(vec![]);
    let result = handle_frame(&mut input_stream, &mut out, db);
    let consumed = input_stream.position();
    (out.into_bytes(), result, consumed)
}

#[test]
fn end_to_end_set_then_get() {
    let mut db = Database::new();

    let (out, result, consumed) = run_one(b"*3\r\n$3\r\nSET\r\n$3\r\nkey\r\n$5\r\nvalue\r\n", &mut db);
    assert_eq!(out, b"+OK\r\n".to_vec());
    assert_eq!(result, StepResult::Continue);
    assert_eq!(consumed, 33);

    let (out, result, _) = run_one(b"*2\r\n$3\r\nGET\r\n$3\r\nkey\r\n", &mut db);
    assert_eq!(out, b"$5\r\nvalue\r\n".to_vec());
    assert_eq!(result, StepResult::Continue);
}

#[test]
fn get_missing_key_is_nil_not_error() {
    let mut db = Database::new();
    let (out, result, _) = run_one(b"*2\r\n$3\r\nGET\r\n$4\r\ngone\r\n", &mut db);
    assert_eq!(out, b"$-1\r\n".to_vec());
    assert_eq!(result, StepResult::Continue);
}

#[test]
fn wrong_arg_count_is_generic_error_and_no_write() {
    let mut db = Database::new();
    let (out, result, _) = run_one(b"*2\r\n$3\r\nSET\r\n$3\r\nkey\r\n", &mut db);
    assert_eq!(out, b"-ERR bad command or wrong number of args\r\n".to_vec());
    assert_eq!(result, StepResult::Continue);
    assert_eq!(db.get(b"key"), None);
    assert_eq!(db.search_keys(b"*").len(), 0);
}

#[test]
fn unknown_command_is_generic_error() {
    let mut db = Database::new();
    let (out, result, _) = run_one(b"*1\r\n$5\r\nHELLO\r\n", &mut db);
    assert_eq!(out, b"-ERR bad command or wrong number of args\r\n".to_vec());
    assert_eq!(result, StepResult::Continue);
}

#[test]
fn ping_and_echo() {
    let mut db = Database::new();

    let (out, result, _) = run_one(b"*1\r\n$4\r\nPING\r\n", &mut db);
    assert_eq!(out, b"+PONG\r\n".to_vec());
    assert_eq!(result, StepResult::Continue);

    let (out, _, _) = run_one(b"*2\r\n$4\r\nPING\r\n$5\r\nhello\r\n", &mut db);
    assert_eq!(out, b"$5\r\nhello\r\n".to_vec());

    let (out, _, _) = run_one(b"*2\r\n$4\r\nECHO\r\n$3\r\nhey\r\n", &mut db);
    assert_eq!(out, b"$3\r\nhey\r\n".to_vec());
}

#[test]
fn quit_closes_after_ok() {
    let mut db = Database::new();
    let (out, result, _) = run_one(b"*1\r\n$4\r\nQUIT\r\n", &mut db);
    assert_eq!(out, b"+OK\r\n".to_vec());
    assert_eq!(result, StepResult::Close);
}

#[test]
fn del_reports_whether_key_existed() {
    let mut db = Database::new();
    db.insert(b"key".to_vec(), b"v".to_vec());

    let (out, _, _) = run_one(b"*2\r\n$3\r\nDEL\r\n$3\r\nkey\r\n", &mut db);
    assert_eq!(out, b":1\r\n".to_vec());
    assert_eq!(db.get(b"key"), None);

    let (out, _, _) = run_one(b"*2\r\n$3\r\nDEL\r\n$3\r\nkey\r\n", &mut db);
    assert_eq!(out, b":0\r\n".to_vec());
}

#[test]
fn keys_command_lists_matches() {
    let mut db = Database::new();
    db.insert(b"one".to_vec(), vec![]);

    let (out, _, _) = run_one(b"*2\r\n$4\r\nKEYS\r\n$1\r\n*\r\n", &mut db);
    assert_eq!(out, b"*1\r\n$3\r\none\r\n".to_vec());

    let (out, _, _) = run_one(b"*2\r\n$4\r\nKEYS\r\n$2\r\nz*\r\n", &mut db);
    assert_eq!(out, b"*0\r\n".to_vec());
}

#[test]
fn flushdb_clears_with_and_without_arg() {
    let mut db = Database::new();
    db.insert(b"a".to_vec(), vec![1]);
    let (out, _, _) = run_one(b"*1\r\n$7\r\nFLUSHDB\r\n", &mut db);
    assert_eq!(out, b"+OK\r\n".to_vec());
    assert_eq!(db.get(b"a"), None);

    db.insert(b"b".to_vec(), vec![2]);
    let (out, _, _) = run_one(b"*2\r\n$7\r\nFLUSHDB\r\n$5\r\nASYNC\r\n", &mut db);
    assert_eq!(out, b"+OK\r\n".to_vec());
    assert_eq!(db.get(b"b"), None);
}

#[test]
fn inline_command_is_refused_but_recoverable() {
    let mut db = Database::new();
    let (out, result, consumed) = run_one(b"GET key\r\n*1\r\n$4\r\nPING\r\n", &mut db);
    assert_eq!(out, b"-ERR inline mode not supported\r\n".to_vec());
    assert_eq!(result, StepResult::Continue);
    // The whole inline line is consumed, so the next frame is aligned.
    assert_eq!(consumed, 9);
}

#[test]
fn non_array_frame_is_fatal() {
    let mut db = Database::new();
    let (out, result, _) = run_one(b":1\r\n", &mut db);
    assert_eq!(out, b"-ERR expected array type\r\n".to_vec());
    assert_eq!(result, StepResult::Close);
}

#[test]
fn negative_array_length_is_fatal() {
    let mut db = Database::new();
    let (out, result, _) = run_one(b"*-1\r\n", &mut db);
    assert_eq!(out, b"-ERR negative array length\r\n".to_vec());
    assert_eq!(result, StepResult::Close);
}

#[test]
fn zero_length_array_is_a_no_op() {
    let mut db = Database::new();
    let (out, result, consumed) = run_one(b"*0\r\n", &mut db);
    assert_eq!(out, vec![]);
    assert_eq!(result, StepResult::Continue);
    assert_eq!(consumed, 4);
}

#[test]
fn incomplete_request_asks_for_more() {
    let mut db = Database::new();
    for prefix_len in 0..22 {
        let full = b"*2\r\n$3\r\nGET\r\n$3\r\nkey\r\n";
        let (out, result, _) = run_one(&full[..prefix_len], &mut db);
        assert_eq!(out, vec![], "prefix of length {}", prefix_len);
        assert_eq!(result, StepResult::NeedMore, "prefix of length {}", prefix_len);
    }
}

#[test]
fn malformed_count_closes_silently() {
    let mut db = Database::new();
    let (out, result, _) = run_one(b"*x\r\n", &mut db);
    assert_eq!(out, vec![]);
    assert_eq!(result, StepResult::Close);
}

#[test]
fn binary_keys_and_values_survive_the_wire() {
    let mut db = Database::new();
    let (out, result, _) = run_one(b"*3\r\n$3\r\nSET\r\n$2\r\n\x00\xff\r\n$3\r\n\x01\x02\x03\r\n", &mut db);
    assert_eq!(out, b"+OK\r\n".to_vec());
    assert_eq!(result, StepResult::Continue);
    assert_eq!(db.get(&[0u8, 255]), Some(vec![1, 2, 3]));

    let (out, _, _) = run_one(b"*2\r\n$3\r\nGET\r\n$2\r\n\x00\xff\r\n", &mut db);
    assert_eq!(out, b"$3\r\n\x01\x02\x03\r\n".to_vec());
}

#[test]
fn overwrite_returns_latest_value() {
    let mut db = Database::new();
    let (out, _, _) = run_one(b"*3\r\n$3\r\nSET\r\n$3\r\nkey\r\n$5\r\nvalue\r\n", &mut db);
    assert_eq!(out, b"+OK\r\n".to_vec());
    let (out, _, _) = run_one(b"*3\r\n$3\r\nSET\r\n$3\r\nkey\r\n$6\r\nvalue2\r\n", &mut db);
    assert_eq!(out, b"+OK\r\n".to_vec());
    let (out, _, _) = run_one(b"*2\r\n$3\r\nGET\r\n$3\r\nkey\r\n", &mut db);
    assert_eq!(out, b"$6\r\nvalue2\r\n".to_vec());
}
