//! Translation of glob-style key patterns into anchored regular expressions,
//! and the matching of keys against them.
//!
//! A pattern is a sequence of raw bytes. `*` matches any run of bytes, `?`
//! matches one byte, and `[...]` classes are passed through to the regular
//! expression engine uninterpreted. Every byte that is special to the engine
//! but not a glob metacharacter is escaped so it matches itself literally.

use vstd::prelude::*;

verus! {

/// `*`, which becomes a lazy any-run.
pub const GLOB_STAR: u8 = 42;

/// `?`, which becomes a single any-byte.
pub const GLOB_QUESTION: u8 = 63;

/// Whether `b` is special to the regular expression engine without being a
/// glob metacharacter: one of `( ) { } + . \ $ |`. Such a byte is escaped.
pub open spec fn is_escaped_byte(b: u8) -> bool {
    b == 40 || b == 41 || b == 123 || b == 125 || b == 43 || b == 46 || b == 92 || b == 36
        || b == 124
}

/// The regular expression fragment that one pattern byte translates to.
pub open spec fn byte_regex(b: u8) -> Seq<char> {
    if b == GLOB_STAR {
        seq!['.', '*', '?']
    } else if b == GLOB_QUESTION {
        seq!['.']
    } else if is_escaped_byte(b) {
        seq!['\\', b as char]
    } else {
        seq![b as char]
    }
}

/// The body of the regular expression for a whole pattern: the fragments of
/// its bytes, in order.
pub open spec fn glob_regex_body(p: Seq<u8>) -> Seq<char>
    decreases p.len(),
{
    if p.len() == 0 {
        Seq::empty()
    } else {
        glob_regex_body(p.drop_last()) + byte_regex(p.last())
    }
}

/// The full regular expression for a pattern: the body anchored at both ends,
/// so a match must cover the entire key.
pub open spec fn glob_regex(p: Seq<u8>) -> Seq<char> {
    seq!['^'] + glob_regex_body(p) + seq!['$']
}

/// What the regular expression engine returns: whether `p` is an expression
/// it accepts at all.
pub uninterp spec fn regex_compiles(p: Seq<char>) -> bool;

/// What the regular expression engine returns: whether `t` contains a match
/// of the expression `p`. With the anchors of `glob_regex` a match covers all
/// of `t`.
pub uninterp spec fn regex_match(p: Seq<char>, t: Seq<char>) -> bool;

/// The text that a byte sequence is read as when it is handed to the engine,
/// with invalid sequences substituted rather than rejected.
pub uninterp spec fn lossy_utf8(b: Seq<u8>) -> Seq<char>;

/// Whether the key `k` matches the glob pattern `p`: the pattern's regular
/// expression is accepted by the engine and matches the key's text form.
pub open spec fn glob_matches(p: Seq<u8>, k: Seq<u8>) -> bool {
    regex_compiles(glob_regex(p)) && regex_match(glob_regex(p), lossy_utf8(k))
}

/// Relies on regex::Regex::new and regex::Regex::is_match: whether the
/// pattern compiles, and whether the haystack then matches, depend on the two
/// strings alone.
#[verifier::external_body]
fn regex_is_match(pattern: &str, text: &str) -> (r: Option<bool>)
    ensures
        r is Some <==> regex_compiles(pattern@),
        r matches Some(b) ==> b == regex_match(pattern@, text@),
{
    match regex::Regex::new(pattern) {
        Ok(re) => Some(re.is_match(text)),
        Err(_) => None,
    }
}

/// Relies on String::from_utf8_lossy: the text depends on the bytes alone,
/// with invalid sequences replaced rather than rejected.
#[verifier::external_body]
fn bytes_to_text(b: &Vec<u8>) -> (r: String)
    ensures
        r@ == lossy_utf8(b@),
{
    String::from_utf8_lossy(b).into_owned()
}

/// Relies on String's FromIterator: collecting characters yields exactly
/// those characters.
#[verifier::external_body]
fn chars_to_string(v: &Vec<char>) -> (r: String)
    ensures
        r@ == v@,
{
    v.iter().collect()
}

/// Builds the anchored regular expression for `pattern`, character by
/// character.
pub fn glob_to_regex(pattern: &[u8]) -> (r: Vec<char>)
    ensures
        r@ == glob_regex(pattern@),
{
    let mut r: Vec<char> = Vec::new();
    r.push('^');
    let mut i: usize = 0;
    while i < pattern.len()
        invariant
            i <= pattern@.len(),
            r@ == seq!['^'] + glob_regex_body(pattern@.take(i as int)),
        decreases pattern@.len() - i,
    {
        let b = pattern[i];
        if b == GLOB_STAR {
            r.push('.');
            r.push('*');
            r.push('?');
        } else if b == GLOB_QUESTION {
            r.push('.');
        } else if b == 40 || b == 41 || b == 123 || b == 125 || b == 43 || b == 46 || b == 92
            || b == 36 || b == 124 {
            r.push('\\');
            r.push(b as char);
        } else {
            r.push(b as char);
        }
        proof {
            assert(pattern@.take(i as int + 1).drop_last() =~= pattern@.take(i as int));
            assert(pattern@.take(i as int + 1).last() == pattern@[i as int]);
        }
        i = i + 1;
    }
    proof {
        assert(pattern@.take(pattern@.len() as int) =~= pattern@);
    }
    r.push('$');
    r
}

/// Whether the key `key` matches the glob pattern `pattern`. A pattern the
/// engine rejects matches nothing.
pub fn key_matches(pattern: &[u8], key: &Vec<u8>) -> (r: bool)
    ensures
        r == glob_matches(pattern@, key@),
{
    let rx = glob_to_regex(pattern);
    let rxs = chars_to_string(&rx);
    let text = bytes_to_text(key);
    match regex_is_match(rxs.as_str(), text.as_str()) {
        Some(b) => b,
        None => false,
    }
}

} // verus!
