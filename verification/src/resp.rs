//! The wire protocol codec: byte-exact framing over an in-memory byte
//! stream.
//!
//! Every value on the wire is prefixed with a type tag and, for bulk
//! strings and arrays, a decimal length, and terminated by CRLF. The read
//! side is specified by a small grammar over the stream's bytes: each read
//! function states, for the bytes at the current position, whether they are
//! a complete well-formed item (and what it is and where it ends), a
//! malformed one, or a prefix that needs more input.

use vstd::prelude::*;

verus! {

/// Carriage return, the first byte of the CRLF terminator.
pub const CR: u8 = 13;

/// Line feed, the second byte of the CRLF terminator.
pub const LF: u8 = 10;

/// `*`, the type tag of an array frame.
pub const TYPE_ARRAY: u8 = 42;

/// `$`, the type tag of a bulk string frame.
pub const TYPE_BULK_STRING: u8 = 36;

/// How a read fails: the stream ended before the item was complete, or the
/// bytes present do not form a well-formed item.
#[derive(Clone, Copy, Debug, PartialEq, Eq, Structural)]
pub enum RespError {
    EndOfInput,
    Protocol,
}

/// Whether `b` is an ASCII decimal digit.
pub open spec fn is_digit(b: u8) -> bool {
    48 <= b <= 57
}

/// Whether every byte of `s` is an ASCII decimal digit.
pub open spec fn all_digits(s: Seq<u8>) -> bool {
    forall|i: int| 0 <= i < s.len() ==> is_digit(#[trigger] s[i])
}

/// The numeric value of a sequence of ASCII decimal digits, most
/// significant first. An empty sequence has value zero.
pub open spec fn digits_val(s: Seq<u8>) -> int
    decreases s.len(),
{
    if s.len() == 0 {
        0
    } else {
        digits_val(s.drop_last()) * 10 + (s.last() - 48)
    }
}

/// The position of the first carriage return at or after `i`, or the length
/// of `s` if there is none.
pub open spec fn find_cr(s: Seq<u8>, i: int) -> int
    decreases s.len() - i,
{
    if i >= s.len() {
        s.len() as int
    } else if s[i] == CR {
        i
    } else {
        find_cr(s, i + 1)
    }
}

/// A digit value is never negative.
proof fn lemma_digits_val_nonneg(s: Seq<u8>)
    requires
        all_digits(s),
    ensures
        digits_val(s) >= 0,
    decreases s.len(),
{
    if s.len() > 0 {
        assert(all_digits(s.drop_last()));
        lemma_digits_val_nonneg(s.drop_last());
    }
}

/// A scan that saw no carriage return up to `i`, and one (or the end) at
/// `i`, has found the first one.
proof fn lemma_find_cr(s: Seq<u8>, start: int, i: int)
    requires
        0 <= start <= i <= s.len(),
        forall|t: int| start <= t < i ==> #[trigger] s[t] != CR,
        i == s.len() || s[i] == CR,
    ensures
        find_cr(s, start) == i,
    decreases i - start,
{
    if start < i {
        lemma_find_cr(s, start + 1, i);
    }
}

/// The reading of a decimal line: what stands between `start` and the next
/// CRLF, as a number.
pub enum NumParse {
    /// The stream ends before the CRLF terminator is complete.
    Pending,
    /// A non-digit byte before the terminator, a bare CR, or a value over
    /// the bound.
    Malformed,
    /// The digits' value, and the position just past the LF.
    Num { v: int, end: int },
}

/// Reads a run of digits terminated by CRLF, starting at `start`: the
/// digits' value if it is at most `bound`, with the position just past the
/// terminator.
pub open spec fn spec_digits_line(s: Seq<u8>, start: int, bound: int) -> NumParse {
    let j = find_cr(s, start);
    if j + 1 >= s.len() {
        NumParse::Pending
    } else if !all_digits(s.subrange(start, j)) {
        NumParse::Malformed
    } else if s[j + 1] != LF {
        NumParse::Malformed
    } else if digits_val(s.subrange(start, j)) > bound {
        NumParse::Malformed
    } else {
        NumParse::Num { v: digits_val(s.subrange(start, j)), end: j + 2 }
    }
}

/// Reads a signed decimal line starting at `start`: an optional leading
/// minus sign, then digits, then CRLF. The magnitude is bounded by the
/// largest signed 64-bit value.
pub open spec fn spec_number(s: Seq<u8>, start: int) -> NumParse {
    if start >= s.len() {
        NumParse::Pending
    } else if s[start] == 45 {
        match spec_digits_line(s, start + 1, i64::MAX as int) {
            NumParse::Pending => NumParse::Pending,
            NumParse::Malformed => NumParse::Malformed,
            NumParse::Num { v, end } => NumParse::Num { v: -v, end },
        }
    } else {
        spec_digits_line(s, start, i64::MAX as int)
    }
}

/// The reading of the remainder of a line, up to and including the next
/// CRLF.
pub enum SkipParse {
    Pending,
    Malformed,
    Done { end: int },
}

/// Skips to just past the next CRLF after `start`. A CR not followed by LF
/// is malformed.
pub open spec fn spec_skip_line(s: Seq<u8>, start: int) -> SkipParse {
    let j = find_cr(s, start);
    if j + 1 >= s.len() {
        SkipParse::Pending
    } else if s[j + 1] != LF {
        SkipParse::Malformed
    } else {
        SkipParse::Done { end: j + 2 }
    }
}

/// The reading of a bulk string frame.
pub enum BulkParse {
    Pending,
    Malformed,
    Bulk { data: Seq<u8>, end: int },
}

/// Reads a bulk string frame starting at `start`: a `$` tag, a non-negative
/// decimal length line, that many payload bytes, and a trailing CRLF.
pub open spec fn spec_bulk(s: Seq<u8>, start: int) -> BulkParse {
    if start >= s.len() {
        BulkParse::Pending
    } else if s[start] != TYPE_BULK_STRING {
        BulkParse::Malformed
    } else {
        match spec_digits_line(s, start + 1, usize::MAX as int) {
            NumParse::Pending => BulkParse::Pending,
            NumParse::Malformed => BulkParse::Malformed,
            NumParse::Num { v, end } => {
                if end + v + 2 > s.len() {
                    BulkParse::Pending
                } else if s[end + v] != CR || s[end + v + 1] != LF {
                    BulkParse::Malformed
                } else {
                    BulkParse::Bulk { data: s.subrange(end, end + v), end: end + v + 2 }
                }
            },
        }
    }
}

/// Reads an array header starting at `start`: a `*` tag then an unsigned
/// decimal count line.
pub open spec fn spec_array_header(s: Seq<u8>, start: int) -> NumParse {
    if start >= s.len() {
        NumParse::Pending
    } else if s[start] != TYPE_ARRAY {
        NumParse::Malformed
    } else {
        spec_digits_line(s, start + 1, u64::MAX as int)
    }
}

/// The shortest decimal digit run for a non-negative number, most
/// significant digit first.
pub open spec fn dec_rep(n: int) -> Seq<u8>
    decreases n,
{
    if n < 10 {
        seq![(48 + n) as u8]
    } else {
        dec_rep(n / 10).push((48 + n % 10) as u8)
    }
}

/// The decimal run of a signed number: a minus sign before the magnitude
/// when it is negative.
pub open spec fn int_rep(n: int) -> Seq<u8> {
    if n < 0 {
        seq![45u8] + dec_rep(-n)
    } else {
        dec_rep(n)
    }
}

/// The CRLF terminator.
pub open spec fn crlf() -> Seq<u8> {
    seq![CR, LF]
}

/// The bytes of a bulk string frame: `$<len>\r\n<payload>\r\n`.
pub open spec fn bulk_frame(b: Seq<u8>) -> Seq<u8> {
    seq![TYPE_BULK_STRING] + dec_rep(b.len() as int) + crlf() + b + crlf()
}

/// The bytes of the nil bulk string frame: `$-1\r\n`.
pub open spec fn nil_bulk_frame() -> Seq<u8> {
    seq![TYPE_BULK_STRING, 45u8, 49u8, CR, LF]
}

/// The bytes of a simple status frame: `+<text>\r\n`.
pub open spec fn simple_status_frame(t: Seq<u8>) -> Seq<u8> {
    seq![43u8] + t + crlf()
}

/// The bytes of a simple error frame: `-<text>\r\n`.
pub open spec fn simple_error_frame(t: Seq<u8>) -> Seq<u8> {
    seq![45u8] + t + crlf()
}

/// The bytes of an integer frame: `:<n>\r\n`.
pub open spec fn integer_frame(n: int) -> Seq<u8> {
    seq![58u8] + int_rep(n) + crlf()
}

/// The bytes of an array header: `*<n>\r\n`.
pub open spec fn array_header_frame(n: int) -> Seq<u8> {
    seq![TYPE_ARRAY] + dec_rep(n) + crlf()
}

/// An in-memory duplex byte stream: reads advance a cursor over the held
/// bytes, writes append to them. It stands in for a network stream so the
/// codec and the command handler can be exercised on plain buffers.
pub struct MockTcpStream {
    data: Vec<u8>,
    cursor: usize,
}

impl MockTcpStream {
    /// The bytes the stream holds, read and unread.
    pub closed spec fn bytes(self) -> Seq<u8> {
        self.data@
    }

    /// The read position: everything before it has been consumed.
    pub closed spec fn pos(self) -> int {
        self.cursor as int
    }

    /// The read position never passes the end of the held bytes.
    pub open spec fn wf(self) -> bool {
        0 <= self.pos() <= self.bytes().len()
    }

    /// A stream holding `data`, with nothing yet read.
    pub fn new(data: Vec<u8>) -> (r: Self)
        ensures
            r.wf(),
            r.bytes() == data@,
            r.pos() == 0,
    {
        MockTcpStream { data, cursor: 0 }
    }

    /// The current read position.
    pub fn position(&self) -> (p: usize)
        ensures
            p == self.pos(),
    {
        self.cursor
    }

    /// The held bytes, surrendered.
    pub fn into_bytes(self) -> (r: Vec<u8>)
        ensures
            r@ == self.bytes(),
    {
        self.data
    }

    /// Closing an in-memory stream has nothing to do and cannot fail.
    pub fn shutdown(&self) -> (r: Result<(), RespError>)
        ensures
            r is Ok,
    {
        Ok(())
    }

    /// Reads exactly `buf.len()` bytes into `buf`, advancing the cursor, or
    /// fails without reading anything if fewer are left.
    pub fn read_exact(&mut self, buf: &mut Vec<u8>) -> (r: Result<(), RespError>)
        requires
            old(self).wf(),
        ensures
            final(self).wf(),
            final(self).bytes() == old(self).bytes(),
            if old(self).pos() + old(buf)@.len() <= old(self).bytes().len() {
                r is Ok && final(buf)@ == old(self).bytes().subrange(
                    old(self).pos(),
                    old(self).pos() + old(buf)@.len(),
                ) && final(self).pos() == old(self).pos() + old(buf)@.len()
            } else {
                r == Err::<(), RespError>(RespError::EndOfInput) && final(buf)@ == old(buf)@
                    && final(self).pos() == old(self).pos()
            },
    {
        let n = buf.len();
        let total = self.data.len();
        if n > total - self.cursor {
            return Err(RespError::EndOfInput);
        }
        let mut tmp: Vec<u8> = Vec::new();
        let mut i: usize = 0;
        while i < n
            invariant
                self.wf(),
                i <= n,
                total == self.bytes().len(),
                self.pos() + n <= total,
                tmp@ == self.bytes().subrange(self.pos(), self.pos() + i as int),
            decreases n - i,
        {
            tmp.push(self.data[self.cursor + i]);
            proof {
                assert(tmp@ =~= self.bytes().subrange(self.pos(), self.pos() + i as int + 1));
            }
            i = i + 1;
        }
        *buf = tmp;
        self.cursor = self.cursor + n;
        Ok(())
    }

    /// Appends the whole of `buf` to the held bytes; an in-memory sink
    /// cannot fail.
    pub fn write_all(&mut self, buf: &[u8]) -> (r: Result<(), RespError>)
        requires
            old(self).wf(),
        ensures
            r is Ok,
            final(self).wf(),
            final(self).bytes() == old(self).bytes() + buf@,
            final(self).pos() == old(self).pos(),
    {
        let mut i: usize = 0;
        while i < buf.len()
            invariant
                self.wf(),
                i <= buf@.len(),
                self.bytes() == old(self).bytes() + buf@.take(i as int),
                self.pos() == old(self).pos(),
            decreases buf@.len() - i,
        {
            self.data.push(buf[i]);
            proof {
                let done = buf@.take(i as int);
                assert(old(self).bytes() + buf@.take(i as int + 1) =~= (old(self).bytes()
                    + done).push(buf@[i as int]));
            }
            i = i + 1;
        }
        proof {
            assert(buf@.take(buf@.len() as int) =~= buf@);
        }
        Ok(())
    }

    /// Appends one byte to the held bytes.
    fn push_byte(&mut self, b: u8)
        requires
            old(self).wf(),
        ensures
            final(self).wf(),
            final(self).bytes() == old(self).bytes().push(b),
            final(self).pos() == old(self).pos(),
    {
        self.data.push(b);
    }

    /// Moves the cursor forward to `p`.
    fn advance_to(&mut self, p: usize)
        requires
            old(self).wf(),
            old(self).pos() <= p <= old(self).bytes().len(),
        ensures
            final(self).wf(),
            final(self).bytes() == old(self).bytes(),
            final(self).pos() == p,
    {
        self.cursor = p;
    }

    /// Moves the cursor to `p`, forward or back.
    pub(crate) fn seek(&mut self, p: usize)
        requires
            old(self).wf(),
            p <= old(self).bytes().len(),
        ensures
            final(self).wf(),
            final(self).bytes() == old(self).bytes(),
            final(self).pos() == p,
    {
        self.cursor = p;
    }
}

/// Reads one byte, advancing the cursor; fails at the end of the stream.
pub fn read_byte(stream: &mut MockTcpStream) -> (r: Result<u8, RespError>)
    requires
        old(stream).wf(),
    ensures
        final(stream).wf(),
        final(stream).bytes() == old(stream).bytes(),
        if old(stream).pos() < old(stream).bytes().len() {
            r matches Ok(b) && b == old(stream).bytes()[old(stream).pos()] && final(stream).pos()
                == old(stream).pos() + 1
        } else {
            r == Err::<u8, RespError>(RespError::EndOfInput) && final(stream).pos() == old(stream).pos()
        },
{
    if stream.cursor < stream.data.len() {
        let b = stream.data[stream.cursor];
        stream.cursor = stream.cursor + 1;
        Ok(b)
    } else {
        Err(RespError::EndOfInput)
    }
}

/// Reads one byte and demands it be `expected`; a different byte is a
/// protocol violation and consumes nothing.
pub fn read_byte_and_expect(stream: &mut MockTcpStream, expected: u8) -> (r: Result<
    (),
    RespError,
>)
    requires
        old(stream).wf(),
    ensures
        final(stream).wf(),
        final(stream).bytes() == old(stream).bytes(),
        if old(stream).pos() >= old(stream).bytes().len() {
            r == Err::<(), RespError>(RespError::EndOfInput) && final(stream).pos() == old(stream).pos()
        } else if old(stream).bytes()[old(stream).pos()] != expected {
            r == Err::<(), RespError>(RespError::Protocol) && final(stream).pos() == old(stream).pos()
        } else {
            r is Ok && final(stream).pos() == old(stream).pos() + 1
        },
{
    if stream.cursor >= stream.data.len() {
        return Err(RespError::EndOfInput);
    }
    let b = stream.data[stream.cursor];
    if b != expected {
        return Err(RespError::Protocol);
    }
    stream.cursor = stream.cursor + 1;
    Ok(())
}

/// The result of an executable scan of a decimal line.
enum ScanDigits {
    Pending,
    Malformed,
    Num { v: u64, end: usize },
}

/// Scans a digits-and-CRLF line without moving the cursor, classifying it
/// as the grammar does.
fn scan_digits_line(stream: &MockTcpStream, start: usize, bound: u64) -> (r: ScanDigits)
    requires
        stream.wf(),
        start <= stream.bytes().len(),
    ensures
        match spec_digits_line(stream.bytes(), start as int, bound as int) {
            NumParse::Pending => r is Pending,
            NumParse::Malformed => r is Malformed,
            NumParse::Num { v, end } => r matches ScanDigits::Num { v: rv, end: rend } && rv == v
                && rend == end && end <= stream.bytes().len() && start + 2 <= end,
        },
{
    let ghost s = stream.bytes();
    let s_len = stream.data.len();
    let mut i = start;
    let mut digits_ok = true;
    let mut over = false;
    let mut acc: u64 = 0;
    while i < s_len && stream.data[i] != CR
        invariant
            stream.wf(),
            s == stream.bytes(),
            start <= i <= s_len == s.len(),
            forall|t: int| start <= t < i ==> #[trigger] s[t] != CR,
            digits_ok == all_digits(s.subrange(start as int, i as int)),
            digits_ok ==> {
                let val = digits_val(s.subrange(start as int, i as int));
                if over {
                    val > bound
                } else {
                    acc == val && acc <= bound
                }
            },
        decreases s_len - i,
    {
        let b = stream.data[i];
        let ghost ds = s.subrange(start as int, i as int);
        let ghost ds2 = s.subrange(start as int, i as int + 1);
        proof {
            assert(ds2.drop_last() =~= ds);
            assert(ds2.last() == s[i as int]);
        }
        if b < 48 || b > 57 {
            digits_ok = false;
        } else if digits_ok {
            let d = (b - 48) as u64;
            proof {
                if digits_ok {
                    lemma_digits_val_nonneg(ds);
                }
            }
            if over {
                proof {
                    assert(digits_val(ds2) == digits_val(ds) * 10 + (s[i as int] - 48));
                    assert(digits_val(ds) * 10 >= digits_val(ds)) by {
                        assert(digits_val(ds) > bound >= 0);
                    }
                }
            } else {
                match acc.checked_mul(10) {
                    Some(m) => {
                        match m.checked_add(d) {
                            Some(x) => {
                                if x > bound {
                                    over = true;
                                } else {
                                    acc = x;
                                }
                            },
                            None => {
                                over = true;
                            },
                        }
                    },
                    None => {
                        over = true;
                    },
                }
            }
        }
        i = i + 1;
    }
    proof {
        if i == s_len {
            lemma_find_cr(s, start as int, s.len() as int);
        } else {
            lemma_find_cr(s, start as int, i as int);
        }
    }
    if i >= s_len {
        return ScanDigits::Pending;
    }
    if i + 1 >= s_len {
        return ScanDigits::Pending;
    }
    if !digits_ok {
        return ScanDigits::Malformed;
    }
    if stream.data[i + 1] != LF {
        return ScanDigits::Malformed;
    }
    if over {
        return ScanDigits::Malformed;
    }
    ScanDigits::Num { v: acc, end: i + 2 }
}

/// Reads the remainder of the current line, up to and including the next
/// CRLF, discarding it.
pub fn skip_line(stream: &mut MockTcpStream) -> (r: Result<(), RespError>)
    requires
        old(stream).wf(),
    ensures
        final(stream).wf(),
        final(stream).bytes() == old(stream).bytes(),
        match spec_skip_line(old(stream).bytes(), old(stream).pos()) {
            SkipParse::Pending => r == Err::<(), RespError>(RespError::EndOfInput) && final(stream).pos() == old(stream).pos(),
            SkipParse::Malformed => r == Err::<(), RespError>(RespError::Protocol) && final(stream).pos() == old(stream).pos(),
            SkipParse::Done { end } => r is Ok && final(stream).pos() == end,
        },
{
    let ghost s = stream.bytes();
    let s_len = stream.data.len();
    let start = stream.cursor;
    let mut i = start;
    while i < s_len && stream.data[i] != CR
        invariant
            stream.wf(),
            s == stream.bytes(),
            start == stream.pos(),
            start <= i <= s_len == s.len(),
            forall|t: int| start <= t < i ==> #[trigger] s[t] != CR,
        decreases s_len - i,
    {
        i = i + 1;
    }
    proof {
        if i == s_len {
            lemma_find_cr(s, start as int, s.len() as int);
        } else {
            lemma_find_cr(s, start as int, i as int);
        }
    }
    if i >= s_len || i + 1 >= s_len {
        return Err(RespError::EndOfInput);
    }
    if stream.data[i + 1] != LF {
        return Err(RespError::Protocol);
    }
    stream.advance_to(i + 2);
    Ok(())
}

/// Reads a signed decimal line: an optional minus sign, digits, CRLF. On
/// failure the cursor does not move.
pub fn read_number(stream: &mut MockTcpStream) -> (r: Result<i64, RespError>)
    requires
        old(stream).wf(),
    ensures
        final(stream).wf(),
        final(stream).bytes() == old(stream).bytes(),
        match spec_number(old(stream).bytes(), old(stream).pos()) {
            NumParse::Pending => r == Err::<i64, RespError>(RespError::EndOfInput) && final(stream).pos() == old(stream).pos(),
            NumParse::Malformed => r == Err::<i64, RespError>(RespError::Protocol) && final(stream).pos() == old(stream).pos(),
            NumParse::Num { v, end } => r matches Ok(n) && n == v && final(stream).pos() == end,
        },
{
    if stream.cursor >= stream.data.len() {
        return Err(RespError::EndOfInput);
    }
    let neg = stream.data[stream.cursor] == 45;
    let dstart = if neg {
        stream.cursor + 1
    } else {
        stream.cursor
    };
    match scan_digits_line(stream, dstart, 0x7fff_ffff_ffff_ffff) {
        ScanDigits::Pending => Err(RespError::EndOfInput),
        ScanDigits::Malformed => Err(RespError::Protocol),
        ScanDigits::Num { v, end } => {
            let n = v as i64;
            let n = if neg {
                -n
            } else {
                n
            };
            stream.advance_to(end);
            Ok(n)
        },
    }
}

/// Reads a signed decimal line and demands it be non-negative; a negative
/// number is a protocol violation, reported after the line is consumed.
pub fn read_number_unsigned(stream: &mut MockTcpStream) -> (r: Result<u64, RespError>)
    requires
        old(stream).wf(),
    ensures
        final(stream).wf(),
        final(stream).bytes() == old(stream).bytes(),
        match spec_number(old(stream).bytes(), old(stream).pos()) {
            NumParse::Pending => r == Err::<u64, RespError>(RespError::EndOfInput) && final(stream).pos() == old(stream).pos(),
            NumParse::Malformed => r == Err::<u64, RespError>(RespError::Protocol) && final(stream).pos() == old(stream).pos(),
            NumParse::Num { v, end } => if v < 0 {
                r == Err::<u64, RespError>(RespError::Protocol) && final(stream).pos() == end
            } else {
                r matches Ok(n) && n == v && final(stream).pos() == end
            },
        },
{
    let n = read_number(stream)?;
    if n < 0 {
        return Err(RespError::Protocol);
    }
    Ok(n as u64)
}

/// Reads an array header: a `*` tag then an unsigned decimal count line. On
/// failure the cursor does not move.
pub fn resp_read_array_header(stream: &mut MockTcpStream) -> (r: Result<u64, RespError>)
    requires
        old(stream).wf(),
    ensures
        final(stream).wf(),
        final(stream).bytes() == old(stream).bytes(),
        match spec_array_header(old(stream).bytes(), old(stream).pos()) {
            NumParse::Pending => r == Err::<u64, RespError>(RespError::EndOfInput) && final(stream).pos() == old(stream).pos(),
            NumParse::Malformed => r == Err::<u64, RespError>(RespError::Protocol) && final(stream).pos() == old(stream).pos(),
            NumParse::Num { v, end } => r matches Ok(n) && n == v && final(stream).pos() == end,
        },
{
    if stream.cursor >= stream.data.len() {
        return Err(RespError::EndOfInput);
    }
    if stream.data[stream.cursor] != TYPE_ARRAY {
        return Err(RespError::Protocol);
    }
    match scan_digits_line(stream, stream.cursor + 1, 0xffff_ffff_ffff_ffff) {
        ScanDigits::Pending => Err(RespError::EndOfInput),
        ScanDigits::Malformed => Err(RespError::Protocol),
        ScanDigits::Num { v, end } => {
            stream.advance_to(end);
            Ok(v)
        },
    }
}

/// Reads a bulk string frame: a `$` tag, a non-negative decimal length
/// line, that many payload bytes, and a trailing CRLF. On failure the
/// cursor does not move.
pub fn resp_expect_bulk_string(stream: &mut MockTcpStream) -> (r: Result<Vec<u8>, RespError>)
    requires
        old(stream).wf(),
    ensures
        final(stream).wf(),
        final(stream).bytes() == old(stream).bytes(),
        match spec_bulk(old(stream).bytes(), old(stream).pos()) {
            BulkParse::Pending => r == Err::<Vec<u8>, RespError>(RespError::EndOfInput) && final(stream).pos() == old(stream).pos(),
            BulkParse::Malformed => r == Err::<Vec<u8>, RespError>(RespError::Protocol) && final(stream).pos() == old(stream).pos(),
            BulkParse::Bulk { data, end } => r matches Ok(b) && b@ == data && final(stream).pos()
                == end,
        },
{
    let s_len = stream.data.len();
    if stream.cursor >= s_len {
        return Err(RespError::EndOfInput);
    }
    if stream.data[stream.cursor] != TYPE_BULK_STRING {
        return Err(RespError::Protocol);
    }
    let len_max: u64 = usize::MAX as u64;
    match scan_digits_line(stream, stream.cursor + 1, len_max) {
        ScanDigits::Pending => Err(RespError::EndOfInput),
        ScanDigits::Malformed => Err(RespError::Protocol),
        ScanDigits::Num { v, end } => {
            let n = v as usize;
            let remaining = s_len - end;
            if remaining < 2 || n > remaining - 2 {
                return Err(RespError::EndOfInput);
            }
            if stream.data[end + n] != CR || stream.data[end + n + 1] != LF {
                return Err(RespError::Protocol);
            }
            let mut buf: Vec<u8> = Vec::new();
            let mut i: usize = 0;
            while i < n
                invariant
                    stream.wf(),
                    i <= n,
                    s_len == stream.bytes().len(),
                    end + n <= s_len,
                    buf@ == stream.bytes().subrange(end as int, end as int + i as int),
                decreases n - i,
            {
                buf.push(stream.data[end + i]);
                proof {
                    assert(
                        buf@ =~= stream.bytes().subrange(end as int, end as int + i as int + 1)
                    );
                }
                i = i + 1;
            }
            stream.advance_to(end + n + 2);
            Ok(buf)
        },
    }
}

/// Writes `n` in decimal onto the end of `out`.
fn push_dec(out: &mut MockTcpStream, n: u64)
    requires
        old(out).wf(),
    ensures
        final(out).wf(),
        final(out).bytes() == old(out).bytes() + dec_rep(n as int),
        final(out).pos() == old(out).pos(),
    decreases n,
{
    if n < 10 {
        out.push_byte(48 + n as u8);
        proof {
            assert(old(out).bytes().push((48 + n as int) as u8) =~= old(out).bytes() + dec_rep(
                n as int,
            ));
        }
    } else {
        push_dec(out, n / 10);
        out.push_byte(48 + (n % 10) as u8);
        proof {
            assert((old(out).bytes() + dec_rep(n as int / 10)).push((48 + n as int % 10) as u8)
                =~= old(out).bytes() + dec_rep(n as int));
        }
    }
}

/// Writes a bulk string frame for `s`: `$<len>\r\n<s>\r\n`.
pub fn resp_write_bulk_string(stream: &mut MockTcpStream, s: &[u8]) -> (r: Result<
    (),
    RespError,
>)
    requires
        old(stream).wf(),
    ensures
        r is Ok,
        final(stream).wf(),
        final(stream).bytes() == old(stream).bytes() + bulk_frame(s@),
        final(stream).pos() == old(stream).pos(),
{
    stream.push_byte(TYPE_BULK_STRING);
    push_dec(stream, s.len() as u64);
    stream.push_byte(CR);
    stream.push_byte(LF);
    let r = stream.write_all(s);
    stream.push_byte(CR);
    stream.push_byte(LF);
    proof {
        assert(stream.bytes() =~= old(stream).bytes() + bulk_frame(s@));
    }
    r
}

/// Writes the nil bulk string frame `$-1\r\n`, the reply for an absent key.
pub fn write_nil_bulk_string(stream: &mut MockTcpStream)
    requires
        old(stream).wf(),
    ensures
        final(stream).wf(),
        final(stream).bytes() == old(stream).bytes() + nil_bulk_frame(),
        final(stream).pos() == old(stream).pos(),
{
    stream.push_byte(TYPE_BULK_STRING);
    stream.push_byte(45);
    stream.push_byte(49);
    stream.push_byte(CR);
    stream.push_byte(LF);
    proof {
        assert(stream.bytes() =~= old(stream).bytes() + nil_bulk_frame());
    }
}

/// Writes a simple status frame: `+<text>\r\n`.
pub fn write_simple_status(stream: &mut MockTcpStream, text: &[u8])
    requires
        old(stream).wf(),
    ensures
        final(stream).wf(),
        final(stream).bytes() == old(stream).bytes() + simple_status_frame(text@),
        final(stream).pos() == old(stream).pos(),
{
    stream.push_byte(43);
    let _ = stream.write_all(text);
    stream.push_byte(CR);
    stream.push_byte(LF);
    proof {
        assert(stream.bytes() =~= old(stream).bytes() + simple_status_frame(text@));
    }
}

/// Writes a simple error frame: `-<text>\r\n`.
pub fn write_simple_error(stream: &mut MockTcpStream, text: &[u8])
    requires
        old(stream).wf(),
    ensures
        final(stream).wf(),
        final(stream).bytes() == old(stream).bytes() + simple_error_frame(text@),
        final(stream).pos() == old(stream).pos(),
{
    stream.push_byte(45);
    let _ = stream.write_all(text);
    stream.push_byte(CR);
    stream.push_byte(LF);
    proof {
        assert(stream.bytes() =~= old(stream).bytes() + simple_error_frame(text@));
    }
}

/// Writes an integer frame: `:<n>\r\n`.
pub fn write_integer(stream: &mut MockTcpStream, n: i64)
    requires
        old(stream).wf(),
    ensures
        final(stream).wf(),
        final(stream).bytes() == old(stream).bytes() + integer_frame(n as int),
        final(stream).pos() == old(stream).pos(),
{
    stream.push_byte(58);
    if n < 0 {
        stream.push_byte(45);
        let mag: u64 = (-(n as i128)) as u64;
        push_dec(stream, mag);
    } else {
        push_dec(stream, n as u64);
    }
    stream.push_byte(CR);
    stream.push_byte(LF);
    proof {
        assert(stream.bytes() =~= old(stream).bytes() + integer_frame(n as int));
    }
}

/// Writes an array header frame: `*<n>\r\n`. The caller then writes that
/// many further frames.
pub fn write_array_header(stream: &mut MockTcpStream, n: u64)
    requires
        old(stream).wf(),
    ensures
        final(stream).wf(),
        final(stream).bytes() == old(stream).bytes() + array_header_frame(n as int),
        final(stream).pos() == old(stream).pos(),
{
    stream.push_byte(TYPE_ARRAY);
    push_dec(stream, n);
    stream.push_byte(CR);
    stream.push_byte(LF);
    proof {
        assert(stream.bytes() =~= old(stream).bytes() + array_header_frame(n as int));
    }
}

} // verus!
