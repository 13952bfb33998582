//! The command handler: reads one request frame, dispatches it against the
//! store, and writes the reply frame.
//!
//! A request is an array of bulk strings: the command name followed by its
//! arguments. The handler consumes exactly one request (or one recoverable
//! violation) per step and reports whether the connection should go on,
//! close, or wait for more input.

use vstd::prelude::*;

use crate::glob::glob_matches;
use crate::glob::GLOB_STAR;
use crate::kv::empty_store;
use crate::kv::key_listed;
use crate::kv::Database;
use crate::resp::array_header_frame;
use crate::resp::bulk_frame;
use crate::resp::integer_frame;
use crate::resp::nil_bulk_frame;
use crate::resp::read_byte;
use crate::resp::read_number;
use crate::resp::resp_expect_bulk_string;
use crate::resp::resp_write_bulk_string;
use crate::resp::simple_error_frame;
use crate::resp::simple_status_frame;
use crate::resp::skip_line;
use crate::resp::spec_bulk;
use crate::resp::spec_number;
use crate::resp::spec_skip_line;
use crate::resp::write_array_header;
use crate::resp::write_integer;
use crate::resp::write_nil_bulk_string;
use crate::resp::write_simple_error;
use crate::resp::write_simple_status;
use crate::resp::BulkParse;
use crate::resp::MockTcpStream;
use crate::resp::NumParse;
use crate::resp::RespError;
use crate::resp::SkipParse;
use crate::resp::TYPE_ARRAY;

verus! {

/// The views of the elements of `a`, in order.
pub open spec fn views_of(a: Seq<Vec<u8>>) -> Seq<Seq<u8>> {
    Seq::new(a.len(), |i: int| a[i]@)
}

/// Whether `k` is an element of `ks`.
pub open spec fn seq_listed(ks: Seq<Seq<u8>>, k: Seq<u8>) -> bool {
    exists|i: int| 0 <= i < ks.len() && #[trigger] ks[i] == k
}

/// Whether the elements of `ks` are pairwise distinct.
pub open spec fn seqs_distinct(ks: Seq<Seq<u8>>) -> bool {
    forall|i: int, j: int| 0 <= i < j < ks.len() ==> #[trigger] ks[i] != #[trigger] ks[j]
}

/// The name `PING`.
pub open spec fn name_ping() -> Seq<u8> {
    seq![80u8, 73u8, 78u8, 71u8]
}

/// The name `ECHO`.
pub open spec fn name_echo() -> Seq<u8> {
    seq![69u8, 67u8, 72u8, 79u8]
}

/// The name `QUIT`.
pub open spec fn name_quit() -> Seq<u8> {
    seq![81u8, 85u8, 73u8, 84u8]
}

/// The name `SET`.
pub open spec fn name_set() -> Seq<u8> {
    seq![83u8, 69u8, 84u8]
}

/// The name `GET`.
pub open spec fn name_get() -> Seq<u8> {
    seq![71u8, 69u8, 84u8]
}

/// The name `DEL`.
pub open spec fn name_del() -> Seq<u8> {
    seq![68u8, 69u8, 76u8]
}

/// The name `KEYS`.
pub open spec fn name_keys() -> Seq<u8> {
    seq![75u8, 69u8, 89u8, 83u8]
}

/// The name `FLUSHDB`.
pub open spec fn name_flushdb() -> Seq<u8> {
    seq![70u8, 76u8, 85u8, 83u8, 72u8, 68u8, 66u8]
}

/// The status text `PONG`.
pub open spec fn msg_pong() -> Seq<u8> {
    seq![80u8, 79u8, 78u8, 71u8]
}

/// The status text `OK`.
pub open spec fn msg_ok() -> Seq<u8> {
    seq![79u8, 75u8]
}

/// The error text `ERR inline mode not supported`.
pub open spec fn msg_inline() -> Seq<u8> {
    seq![
        69u8, 82u8, 82u8, 32u8, 105u8, 110u8, 108u8, 105u8, 110u8, 101u8, 32u8, 109u8, 111u8,
        100u8, 101u8, 32u8, 110u8, 111u8, 116u8, 32u8, 115u8, 117u8, 112u8, 112u8, 111u8, 114u8,
        116u8, 101u8, 100u8,
    ]
}

/// The error text `ERR expected array type`.
pub open spec fn msg_expected_array() -> Seq<u8> {
    seq![
        69u8, 82u8, 82u8, 32u8, 101u8, 120u8, 112u8, 101u8, 99u8, 116u8, 101u8, 100u8, 32u8,
        97u8, 114u8, 114u8, 97u8, 121u8, 32u8, 116u8, 121u8, 112u8, 101u8,
    ]
}

/// The error text `ERR negative array length`.
pub open spec fn msg_negative_len() -> Seq<u8> {
    seq![
        69u8, 82u8, 82u8, 32u8, 110u8, 101u8, 103u8, 97u8, 116u8, 105u8, 118u8, 101u8, 32u8,
        97u8, 114u8, 114u8, 97u8, 121u8, 32u8, 108u8, 101u8, 110u8, 103u8, 116u8, 104u8,
    ]
}

/// The error text `ERR bad command or wrong number of args`.
pub open spec fn msg_bad_command() -> Seq<u8> {
    seq![
        69u8, 82u8, 82u8, 32u8, 98u8, 97u8, 100u8, 32u8, 99u8, 111u8, 109u8, 109u8, 97u8, 110u8,
        100u8, 32u8, 111u8, 114u8, 32u8, 119u8, 114u8, 111u8, 110u8, 103u8, 32u8, 110u8, 117u8,
        109u8, 98u8, 101u8, 114u8, 32u8, 111u8, 102u8, 32u8, 97u8, 114u8, 103u8, 115u8,
    ]
}

/// A reply frame, as the handler builds it before encoding.
pub enum Reply {
    /// A simple status line.
    Status(Vec<u8>),
    /// A simple error line.
    Error(Vec<u8>),
    /// A bulk string.
    Bulk(Vec<u8>),
    /// The nil bulk string, for an absent key.
    Nil,
    /// An integer line.
    Int(i64),
    /// An array of bulk strings, one per key.
    Keys(Vec<Vec<u8>>),
}

/// The mathematical form of a reply frame.
pub enum ReplyView {
    Status(Seq<u8>),
    Error(Seq<u8>),
    Bulk(Seq<u8>),
    Nil,
    Int(int),
    Keys(Seq<Seq<u8>>),
}

impl View for Reply {
    type V = ReplyView;

    open spec fn view(&self) -> ReplyView {
        match self {
            Reply::Status(t) => ReplyView::Status(t@),
            Reply::Error(t) => ReplyView::Error(t@),
            Reply::Bulk(b) => ReplyView::Bulk(b@),
            Reply::Nil => ReplyView::Nil,
            Reply::Int(n) => ReplyView::Int(*n as int),
            Reply::Keys(ks) => ReplyView::Keys(views_of(ks@)),
        }
    }
}

/// The concatenation of the bulk string frames of `ks`, in order.
pub open spec fn bulks_concat(ks: Seq<Seq<u8>>) -> Seq<u8>
    decreases ks.len(),
{
    if ks.len() == 0 {
        Seq::empty()
    } else {
        bulk_frame(ks.first()) + bulks_concat(ks.drop_first())
    }
}

/// Appending one more bulk string extends the concatenation at its end.
proof fn lemma_bulks_concat_push(ks: Seq<Seq<u8>>, x: Seq<u8>)
    ensures
        bulks_concat(ks.push(x)) == bulks_concat(ks) + bulk_frame(x),
    decreases ks.len(),
{
    if ks.len() == 0 {
        let p = ks.push(x);
        let none: Seq<Seq<u8>> = Seq::empty();
        let nothing: Seq<u8> = Seq::empty();
        assert(p.first() == x);
        assert(p.drop_first() =~= none);
        assert(bulks_concat(p.drop_first()) == nothing);
        assert(bulks_concat(p) == bulk_frame(x) + nothing);
        assert(bulks_concat(ks) == nothing);
        assert(bulk_frame(x) + nothing =~= nothing + bulk_frame(x));
    } else {
        lemma_bulks_concat_push(ks.drop_first(), x);
        assert(ks.push(x).drop_first() =~= ks.drop_first().push(x));
        assert(ks.push(x).first() == ks.first());
        assert(bulks_concat(ks.push(x)) == bulk_frame(ks.first()) + bulks_concat(
            ks.drop_first().push(x),
        ));
        assert(bulk_frame(ks.first()) + (bulks_concat(ks.drop_first()) + bulk_frame(x)) =~= (
        bulk_frame(ks.first()) + bulks_concat(ks.drop_first())) + bulk_frame(x));
    }
}

/// The exact bytes that a reply is encoded to.
pub open spec fn frame_bytes(r: ReplyView) -> Seq<u8> {
    match r {
        ReplyView::Status(t) => simple_status_frame(t),
        ReplyView::Error(t) => simple_error_frame(t),
        ReplyView::Bulk(b) => bulk_frame(b),
        ReplyView::Nil => nil_bulk_frame(),
        ReplyView::Int(n) => integer_frame(n),
        ReplyView::Keys(ks) => array_header_frame(ks.len() as int) + bulks_concat(ks),
    }
}

/// Encodes `reply` onto the end of `out`.
pub fn write_reply(out: &mut MockTcpStream, reply: &Reply)
    requires
        old(out).wf(),
    ensures
        final(out).wf(),
        final(out).bytes() == old(out).bytes() + frame_bytes(reply@),
        final(out).pos() == old(out).pos(),
{
    match reply {
        Reply::Status(t) => {
            write_simple_status(out, t.as_slice());
        },
        Reply::Error(t) => {
            write_simple_error(out, t.as_slice());
        },
        Reply::Bulk(b) => {
            let _ = resp_write_bulk_string(out, b.as_slice());
        },
        Reply::Nil => {
            write_nil_bulk_string(out);
        },
        Reply::Int(n) => {
            write_integer(out, *n);
        },
        Reply::Keys(ks) => {
            write_array_header(out, ks.len() as u64);
            let ghost views = views_of(ks@);
            let ghost base = out.bytes();
            let mut i: usize = 0;
            while i < ks.len()
                invariant
                    out.wf(),
                    i <= ks@.len(),
                    views == views_of(ks@),
                    out.pos() == old(out).pos(),
                    out.bytes() == base + bulks_concat(views.take(i as int)),
                decreases ks@.len() - i,
            {
                let _ = resp_write_bulk_string(out, ks[i].as_slice());
                proof {
                    lemma_bulks_concat_push(views.take(i as int), views[i as int]);
                    assert(views.take(i as int).push(views[i as int]) =~= views.take(
                        i as int + 1,
                    ));
                    assert((base + bulks_concat(views.take(i as int))) + bulk_frame(
                        views[i as int],
                    ) =~= base + (bulks_concat(views.take(i as int)) + bulk_frame(
                        views[i as int],
                    )));
                }
                i = i + 1;
            }
            proof {
                assert(views.take(ks@.len() as int) =~= views);
            }
        },
    }
}

/// Compares two byte strings for exact equality.
fn bytes_eq(a: &Vec<u8>, b: &[u8]) -> (r: bool)
    ensures
        r == (a@ == b@),
{
    if a.len() != b.len() {
        proof {
            assert(a@ != b@);
        }
        return false;
    }
    let n = a.len();
    let mut i: usize = 0;
    while i < n
        invariant
            n == a@.len() == b@.len(),
            i <= n,
            forall|t: int| 0 <= t < i ==> a@[t] == b@[t],
        decreases n - i,
    {
        if a[i] != b[i] {
            proof {
                assert(a@[i as int] != b@[i as int]);
            }
            return false;
        }
        i = i + 1;
    }
    proof {
        assert(a@ =~= b@);
    }
    true
}

/// Copies a byte string.
fn dup_bytes(v: &Vec<u8>) -> (r: Vec<u8>)
    ensures
        r@ == v@,
{
    let r = v.clone();
    proof {
        assert(r@ =~= v@);
    }
    r
}

/// Whether the reply to a `KEYS` command is right for the store contents
/// `db0` and the pattern: an array of the matching keys, each once, in some
/// order.
pub open spec fn keys_reply(db0: Map<Seq<u8>, Seq<u8>>, pattern: Seq<u8>, reply: ReplyView) -> bool {
    &&& reply matches ReplyView::Keys(ks)
    &&& seqs_distinct(ks)
    &&& if pattern == seq![GLOB_STAR] {
        forall|k: Seq<u8>| #[trigger] db0.contains_key(k) <==> seq_listed(ks, k)
    } else {
        forall|k: Seq<u8>|
            (#[trigger] db0.contains_key(k) && glob_matches(pattern, k)) <==> seq_listed(ks, k)
    }
}

/// What one command does: how the store moves from `db0` to `db1`, what
/// reply comes back, and whether the connection closes afterwards. The
/// first element of `args` is the command name, the rest its arguments; an
/// unknown name or a wrong argument count gets the generic error and leaves
/// the store alone.
pub open spec fn command_effect(
    args: Seq<Seq<u8>>,
    db0: Map<Seq<u8>, Seq<u8>>,
    db1: Map<Seq<u8>, Seq<u8>>,
    reply: ReplyView,
    close: bool,
) -> bool
    recommends
        args.len() >= 1,
{
    let cmd = args[0];
    let argc = args.len() - 1;
    if cmd == name_ping() && argc == 0 {
        db1 == db0 && !close && reply == ReplyView::Status(msg_pong())
    } else if cmd == name_ping() && argc == 1 {
        db1 == db0 && !close && reply == ReplyView::Bulk(args[1])
    } else if cmd == name_echo() && argc == 1 {
        db1 == db0 && !close && reply == ReplyView::Bulk(args[1])
    } else if cmd == name_quit() && argc == 0 {
        db1 == db0 && close && reply == ReplyView::Status(msg_ok())
    } else if cmd == name_set() && argc == 2 {
        db1 == db0.insert(args[1], args[2]) && !close && reply == ReplyView::Status(msg_ok())
    } else if cmd == name_get() && argc == 1 {
        db1 == db0 && !close && if db0.contains_key(args[1]) {
            reply == ReplyView::Bulk(db0[args[1]])
        } else {
            reply == ReplyView::Nil
        }
    } else if cmd == name_del() && argc == 1 {
        db1 == db0.remove(args[1]) && !close && reply == ReplyView::Int(
            if db0.contains_key(args[1]) {
                1
            } else {
                0
            },
        )
    } else if cmd == name_keys() && argc == 1 {
        db1 == db0 && !close && keys_reply(db0, args[1], reply)
    } else if cmd == name_flushdb() && (argc == 0 || argc == 1) {
        db1 == empty_store() && !close && reply == ReplyView::Status(msg_ok())
    } else {
        db1 == db0 && !close && reply == ReplyView::Error(msg_bad_command())
    }
}

/// Runs one command against the store: looks the name up, applies the
/// table's behavior, and returns the reply and whether the connection is to
/// close.
pub fn apply_command(argv: &Vec<Vec<u8>>, db: &mut Database) -> (r: (Reply, bool))
    requires
        argv@.len() >= 1,
    ensures
        command_effect(views_of(argv@), old(db)@, final(db)@, r.0@, r.1),
{
    let ghost args = views_of(argv@);
    proof {
        assert(args[0] == argv@[0]@);
    }
    let cmd = &argv[0];
    let argc = argv.len() - 1;
    let ping: Vec<u8> = vec![80, 73, 78, 71];
    let echo: Vec<u8> = vec![69, 67, 72, 79];
    let quit: Vec<u8> = vec![81, 85, 73, 84];
    let set_name: Vec<u8> = vec![83, 69, 84];
    let get_name: Vec<u8> = vec![71, 69, 84];
    let del_name: Vec<u8> = vec![68, 69, 76];
    let keys_name: Vec<u8> = vec![75, 69, 89, 83];
    let flushdb: Vec<u8> = vec![70, 76, 85, 83, 72, 68, 66];
    if bytes_eq(cmd, ping.as_slice()) && argc == 0 {
        (Reply::Status(vec![80, 79, 78, 71]), false)
    } else if bytes_eq(cmd, ping.as_slice()) && argc == 1 {
        proof {
            assert(args[1] == argv@[1]@);
        }
        (Reply::Bulk(dup_bytes(&argv[1])), false)
    } else if bytes_eq(cmd, echo.as_slice()) && argc == 1 {
        proof {
            assert(args[1] == argv@[1]@);
        }
        (Reply::Bulk(dup_bytes(&argv[1])), false)
    } else if bytes_eq(cmd, quit.as_slice()) && argc == 0 {
        (Reply::Status(vec![79, 75]), true)
    } else if bytes_eq(cmd, set_name.as_slice()) && argc == 2 {
        proof {
            assert(args[1] == argv@[1]@);
            assert(args[2] == argv@[2]@);
        }
        let key = dup_bytes(&argv[1]);
        let value = dup_bytes(&argv[2]);
        db.insert(key, value);
        (Reply::Status(vec![79, 75]), false)
    } else if bytes_eq(cmd, get_name.as_slice()) && argc == 1 {
        proof {
            assert(args[1] == argv@[1]@);
        }
        match db.get(argv[1].as_slice()) {
            Some(value) => (Reply::Bulk(value), false),
            None => (Reply::Nil, false),
        }
    } else if bytes_eq(cmd, del_name.as_slice()) && argc == 1 {
        proof {
            assert(args[1] == argv@[1]@);
        }
        match db.remove(argv[1].as_slice()) {
            Some(_) => (Reply::Int(1), false),
            None => (Reply::Int(0), false),
        }
    } else if bytes_eq(cmd, keys_name.as_slice()) && argc == 1 {
        proof {
            assert(args[1] == argv@[1]@);
        }
        let ks = db.search_keys(argv[1].as_slice());
        proof {
            assert forall|i: int, j: int|
                0 <= i < j < views_of(ks@).len() implies #[trigger] views_of(ks@)[i]
                != #[trigger] views_of(ks@)[j] by {
                assert(ks@[i]@ != ks@[j]@);
            }
            assert forall|k: Seq<u8>| #[trigger]
                seq_listed(views_of(ks@), k) implies key_listed(ks@, k) by {
                let i = choose|i: int| 0 <= i < views_of(ks@).len() && views_of(ks@)[i] == k;
                assert(ks@[i]@ == k);
            }
            assert forall|k: Seq<u8>| #[trigger]
                key_listed(ks@, k) implies seq_listed(views_of(ks@), k) by {
                let i = choose|i: int| 0 <= i < ks@.len() && ks@[i]@ == k;
                assert(views_of(ks@)[i] == k);
            }
        }
        (Reply::Keys(ks), false)
    } else if bytes_eq(cmd, flushdb.as_slice()) && (argc == 0 || argc == 1) {
        db.clear();
        (Reply::Status(vec![79, 75]), false)
    } else {
        (
            Reply::Error(
                vec![
                    69, 82, 82, 32, 98, 97, 100, 32, 99, 111, 109, 109, 97, 110, 100, 32, 111,
                    114, 32, 119, 114, 111, 110, 103, 32, 110, 117, 109, 98, 101, 114, 32, 111,
                    102, 32, 97, 114, 103, 115,
                ],
            ),
            false,
        )
    }
}

/// Whether `b` is an ASCII letter. A request that begins with one is an
/// inline command, which is not supported.
pub open spec fn is_alpha(b: u8) -> bool {
    (65 <= b <= 90) || (97 <= b <= 122)
}

/// One request, as read off the wire.
#[derive(Debug)]
pub enum Request {
    /// An array of zero elements: no command this round.
    NoOp,
    /// A line of inline-command syntax, already discarded.
    Inline,
    /// A leading byte that is neither a letter nor the array tag.
    BadType,
    /// An array of negative length.
    NegativeCount,
    /// The command name and its arguments.
    Argv(Vec<Vec<u8>>),
}

/// The mathematical form of a request.
pub enum ReqView {
    NoOp,
    Inline,
    BadType,
    NegativeCount,
    Argv(Seq<Seq<u8>>),
}

impl View for Request {
    type V = ReqView;

    open spec fn view(&self) -> ReqView {
        match self {
            Request::NoOp => ReqView::NoOp,
            Request::Inline => ReqView::Inline,
            Request::BadType => ReqView::BadType,
            Request::NegativeCount => ReqView::NegativeCount,
            Request::Argv(v) => ReqView::Argv(views_of(v@)),
        }
    }
}

/// The reading of one request off the stream.
pub enum ReqParse {
    Pending,
    Malformed,
    Got { req: ReqView, end: int },
}

/// Reads `n` bulk strings starting at `start`, after those already in
/// `acc`.
pub open spec fn spec_argv(s: Seq<u8>, start: int, n: int, acc: Seq<Seq<u8>>) -> ReqParse
    decreases n,
{
    if n <= 0 {
        ReqParse::Got { req: ReqView::Argv(acc), end: start }
    } else {
        match spec_bulk(s, start) {
            BulkParse::Pending => ReqParse::Pending,
            BulkParse::Malformed => ReqParse::Malformed,
            BulkParse::Bulk { data, end } => spec_argv(s, end, n - 1, acc.push(data)),
        }
    }
}

/// Reads one request starting at `start`: a letter opens an inline line,
/// the array tag opens a counted array of bulk strings, and anything else
/// is a framing violation.
pub open spec fn spec_request(s: Seq<u8>, start: int) -> ReqParse {
    if start >= s.len() {
        ReqParse::Pending
    } else if is_alpha(s[start]) {
        match spec_skip_line(s, start + 1) {
            SkipParse::Pending => ReqParse::Pending,
            SkipParse::Malformed => ReqParse::Malformed,
            SkipParse::Done { end } => ReqParse::Got { req: ReqView::Inline, end },
        }
    } else if s[start] != TYPE_ARRAY {
        ReqParse::Got { req: ReqView::BadType, end: start + 1 }
    } else {
        match spec_number(s, start + 1) {
            NumParse::Pending => ReqParse::Pending,
            NumParse::Malformed => ReqParse::Malformed,
            NumParse::Num { v, end } => {
                if v == 0 {
                    ReqParse::Got { req: ReqView::NoOp, end }
                } else if v < 0 {
                    ReqParse::Got { req: ReqView::NegativeCount, end }
                } else {
                    spec_argv(s, end, v, Seq::empty())
                }
            },
        }
    }
}

/// Reads one request off the stream. On failure nothing is consumed, so
/// the read can be retried once more bytes have arrived.
pub fn read_request(stream: &mut MockTcpStream) -> (r: Result<Request, RespError>)
    requires
        old(stream).wf(),
    ensures
        final(stream).wf(),
        final(stream).bytes() == old(stream).bytes(),
        match spec_request(old(stream).bytes(), old(stream).pos()) {
            ReqParse::Pending => r == Err::<Request, RespError>(RespError::EndOfInput) && final(stream).pos() == old(stream).pos(),
            ReqParse::Malformed => r == Err::<Request, RespError>(RespError::Protocol) && final(stream).pos() == old(stream).pos(),
            ReqParse::Got { req, end } => r matches Ok(rq) && rq@ == req && final(stream).pos()
                == end,
        },
        match r {
            Ok(Request::Argv(v)) => v@.len() >= 1,
            _ => true,
        },
{
    let start = stream.position();
    let b = match read_byte(stream) {
        Ok(b) => b,
        Err(e) => {
            return Err(e);
        },
    };
    if (65 <= b && b <= 90) || (97 <= b && b <= 122) {
        match skip_line(stream) {
            Ok(()) => {
                return Ok(Request::Inline);
            },
            Err(e) => {
                stream.seek(start);
                return Err(e);
            },
        }
    }
    if b != TYPE_ARRAY {
        return Ok(Request::BadType);
    }
    let n = match read_number(stream) {
        Ok(n) => n,
        Err(e) => {
            stream.seek(start);
            return Err(e);
        },
    };
    if n == 0 {
        return Ok(Request::NoOp);
    }
    if n < 0 {
        return Ok(Request::NegativeCount);
    }
    let ghost s = stream.bytes();
    let ghost goal = spec_request(s, start as int);
    let mut args: Vec<Vec<u8>> = Vec::new();
    let mut remaining: i64 = n;
    proof {
        let none: Seq<Seq<u8>> = Seq::empty();
        assert(views_of(args@) =~= none);
        assert(goal == spec_argv(s, stream.pos(), remaining as int, views_of(args@)));
    }
    while remaining > 0
        invariant
            stream.wf(),
            s == stream.bytes(),
            s == old(stream).bytes(),
            start as int == old(stream).pos(),
            start as int <= s.len(),
            0 <= remaining <= n,
            1 <= n,
            args@.len() + remaining == n,
            spec_argv(s, stream.pos(), remaining as int, views_of(args@)) == goal,
            goal == spec_request(s, start as int),
        decreases remaining,
    {
        let ghost acc = views_of(args@);
        match resp_expect_bulk_string(stream) {
            Ok(one) => {
                let ghost one_view = one@;
                args.push(one);
                remaining = remaining - 1;
                proof {
                    assert(views_of(args@) =~= acc.push(one_view));
                }
            },
            Err(e) => {
                stream.seek(start);
                return Err(e);
            },
        }
    }
    proof {
        assert(spec_argv(s, stream.pos(), 0, views_of(args@)) == ReqParse::Got {
            req: ReqView::Argv(views_of(args@)),
            end: stream.pos(),
        });
    }
    Ok(Request::Argv(args))
}

/// What the connection is to do after one handler step.
#[derive(Clone, Copy, Debug, PartialEq, Eq, Structural)]
pub enum StepResult {
    /// The request was handled; read the next one.
    Continue,
    /// The connection is to be closed.
    Close,
    /// The bytes at hand are an incomplete request; read more, then retry
    /// with the same bytes. Nothing was consumed, written or changed.
    NeedMore,
}

/// What a handler step does with a parsed command: for some reply and
/// close decision allowed by the command's effect, the store moves
/// accordingly, the reply's bytes are appended to the output, and the step
/// result says whether to go on.
pub open spec fn argv_step(
    args: Seq<Seq<u8>>,
    db0: Map<Seq<u8>, Seq<u8>>,
    db1: Map<Seq<u8>, Seq<u8>>,
    out0: Seq<u8>,
    out1: Seq<u8>,
    r: StepResult,
) -> bool {
    exists|reply: ReplyView, close: bool|
        #![auto]
        command_effect(args, db0, db1, reply, close) && out1 == out0 + frame_bytes(reply) && (
        r is Close <==> close) && (r is Continue <==> !close)
}

/// Handles one request from `input`: parses it, runs it against `db`, and
/// writes the reply onto `out`.
///
/// An incomplete request consumes and changes nothing. A line with bad
/// digits or a bare carriage return closes the connection with no reply,
/// as does (after its error reply) a non-array frame or a negative count.
/// An inline line gets its error reply and the connection goes on.
#[verifier::rlimit(60)]
pub fn handle_frame(input: &mut MockTcpStream, out: &mut MockTcpStream, db: &mut Database) -> (r:
    StepResult)
    requires
        old(input).wf(),
        old(out).wf(),
    ensures
        final(input).wf(),
        final(out).wf(),
        final(input).bytes() == old(input).bytes(),
        final(out).pos() == old(out).pos(),
        match spec_request(old(input).bytes(), old(input).pos()) {
            ReqParse::Pending => r is NeedMore && final(out).bytes() == old(out).bytes() && final(db)@ == old(db)@ && final(input).pos() == old(input).pos(),
            ReqParse::Malformed => r is Close && final(out).bytes() == old(out).bytes() && final(db)@ == old(db)@ && final(input).pos() == old(input).pos(),
            ReqParse::Got { req, end } => final(input).pos() == end && match req {
                ReqView::NoOp => r is Continue && final(out).bytes() == old(out).bytes() && final(db)@ == old(db)@,
                ReqView::Inline => r is Continue && final(out).bytes() == old(out).bytes()
                    + simple_error_frame(msg_inline()) && final(db)@ == old(db)@,
                ReqView::BadType => r is Close && final(out).bytes() == old(out).bytes()
                    + simple_error_frame(msg_expected_array()) && final(db)@ == old(db)@,
                ReqView::NegativeCount => r is Close && final(out).bytes() == old(out).bytes()
                    + simple_error_frame(msg_negative_len()) && final(db)@ == old(db)@,
                ReqView::Argv(args) => argv_step(
                    args,
                    old(db)@,
                    final(db)@,
                    old(out).bytes(),
                    final(out).bytes(),
                    r,
                ),
            },
        },
{
    match read_request(input) {
        Err(RespError::EndOfInput) => StepResult::NeedMore,
        Err(RespError::Protocol) => StepResult::Close,
        Ok(req) => match req {
            Request::NoOp => StepResult::Continue,
            Request::Inline => {
                let text: Vec<u8> = vec![
                    69, 82, 82, 32, 105, 110, 108, 105, 110, 101, 32, 109, 111, 100, 101, 32,
                    110, 111, 116, 32, 115, 117, 112, 112, 111, 114, 116, 101, 100,
                ];
                write_simple_error(out, text.as_slice());
                StepResult::Continue
            },
            Request::BadType => {
                let text: Vec<u8> = vec![
                    69, 82, 82, 32, 101, 120, 112, 101, 99, 116, 101, 100, 32, 97, 114, 114, 97,
                    121, 32, 116, 121, 112, 101,
                ];
                write_simple_error(out, text.as_slice());
                StepResult::Close
            },
            Request::NegativeCount => {
                let text: Vec<u8> = vec![
                    69, 82, 82, 32, 110, 101, 103, 97, 116, 105, 118, 101, 32, 97, 114, 114, 97,
                    121, 32, 108, 101, 110, 103, 116, 104,
                ];
                write_simple_error(out, text.as_slice());
                StepResult::Close
            },
            Request::Argv(args) => {
                let (reply, close) = apply_command(&args, db);
                write_reply(out, &reply);
                let res = if close {
                    StepResult::Close
                } else {
                    StepResult::Continue
                };
                proof {
                    assert(command_effect(views_of(args@), old(db)@, db@, reply@, close));
                    assert(out.bytes() == old(out).bytes() + frame_bytes(reply@));
                    assert((res is Close <==> close) && (res is Continue <==> !close));
                    assert(argv_step(
                        views_of(args@),
                        old(db)@,
                        db@,
                        old(out).bytes(),
                        out.bytes(),
                        res,
                    ));
                }
                res
            },
        },
    }
}

} // verus!
