//! The clean/smudge filter over Git's long-running `filter-process` protocol.
//!
//! `clean` (on `git add`) parses Rust and JSON and stores their canonical
//! forms, so reformatting never reaches history; `smudge` (on `git checkout`)
//! is the identity, the stored bytes being canonical already. Only `*.rs` and
//! `*.json` paths are transformed; anything else passes through untouched. The conversation:
//!
//! 1. Handshake: the client's `git-filter-client` and `version=2`, answered
//!    with `git-filter-server` and `version=2`.
//! 2. Capabilities: the client's list, answered with `clean` and `smudge`.
//! 3. Per blob: `command` and `pathname` metadata, then the content; answered
//!    with a status and the transformed content.
//!
//! The functions here read from a byte slice, advancing it past what they
//! consumed, and append their replies to a byte vector.

use vstd::prelude::*;
use vstd::string::StringExecFns;
use vstd::utf8::{decode_utf8, encode_utf8, is_ascii_chars, valid_utf8};
use crate::cst::{cst_is, parse_spec, Cst, Grammar};
use crate::json::{json_pretty, json_valid};
use crate::html::{chars_vec, entry_views, get_attr, insert_attr, insert_entry, lookup, string_of};
use crate::pktline::{
    after_packet, flush, io_kind_is, IoKind, frame, frames, packet_at, read_packet, read_until_flush, section_at,
    write_content, write_flush, write_text_packet, Packet, PacketRead, SectionRead, MAX_PAYLOAD,
};
use crate::printer::{canonical_result, canonicalize, source_file};
use crate::text::{
    bytes_contain, contains_bytes, lemma_bytes_contain_text, lemma_encode_len, lemma_seq_assoc, push_str, str_eq,
    text_contains,
};
use crate::Error;

verus! {

broadcast use lemma_seq_assoc;

// ─── Errors ──────────────────────────────────────────────────────────────────

/// The message of a protocol violation.
pub open spec fn protocol_msg(m: Seq<char>) -> Seq<char> {
    "filter protocol: "@ + m
}

/// Whether `e` is the protocol violation `m`.
pub open spec fn is_protocol(e: Error, m: Seq<char>) -> bool {
    e matches Error::Driver(x) && x@ == protocol_msg(m)
}

/// A protocol violation.
fn protocol(msg: &str) -> (e: Error)
    ensures
        is_protocol(e, msg@),
{
    let mut m = String::from_str("filter protocol: ");
    push_str(&mut m, msg);
    Error::Driver(m)
}

// ─── Metadata ────────────────────────────────────────────────────────────────

/// What `String::from_utf8_lossy` gives for the bytes (invalid sequences
/// replaced by U+FFFD).
pub uninterp spec fn lossy(b: Seq<u8>) -> Seq<char>;

/// `String::from_utf8_lossy`: the text of the bytes, which depends on the
/// bytes alone, and which for valid UTF-8 is the decoded text.
#[verifier::external_body]
fn utf8_lossy(b: &[u8]) -> (r: String)
    ensures
        r@ == lossy(b@),
        valid_utf8(b@) ==> r@ == decode_utf8(b@),
{
    String::from_utf8_lossy(b).into_owned()
}

/// `s` without its trailing line breaks.
pub open spec fn trim_newlines(s: Seq<char>) -> Seq<char>
    decreases s.len(),
{
    if s.len() > 0 && s.last() == '\n' {
        trim_newlines(s.drop_last())
    } else {
        s
    }
}

/// The index of the first `c` in `s` at or after `i`, or -1.
pub open spec fn find_char(s: Seq<char>, c: char, i: int) -> int
    decreases s.len() - i,
{
    if i < 0 || i >= s.len() {
        -1
    } else if s[i] == c {
        i
    } else {
        find_char(s, c, i + 1)
    }
}

/// The `key=value` pair of a metadata line (its text, line breaks trimmed,
/// split at the first `=`); nothing when it has no `=`.
pub open spec fn meta_line(d: Seq<u8>) -> Option<(Seq<char>, Seq<char>)> {
    let line = trim_newlines(lossy(d));
    let i = find_char(line, '=', 0);
    if i < 0 {
        None
    } else {
        Some((line.take(i), line.skip(i + 1)))
    }
}

/// What reading a metadata section yields.
pub enum MetaRead {
    /// The stream ended before any packet.
    Eof,
    /// A malformed packet, reported as an I/O error of this kind.
    Invalid(IoKind),
    /// The stream ended inside the section.
    Truncated,
    /// The metadata (a later key overriding an earlier one), and what follows
    /// the flush.
    Done(Seq<(Seq<char>, Seq<char>)>, Seq<u8>),
}

/// The metadata section at the front of `s`, added to `acc`; `saw_any` tells
/// whether a packet of the section was already read.
pub open spec fn meta_at(s: Seq<u8>, saw_any: bool, acc: Seq<(Seq<char>, Seq<char>)>) -> MetaRead
    decreases s.len(),
{
    match packet_at(s) {
        PacketRead::Eof => if saw_any {
            MetaRead::Truncated
        } else {
            MetaRead::Eof
        },
        PacketRead::Invalid(k) => MetaRead::Invalid(k),
        PacketRead::Flush => MetaRead::Done(acc, after_packet(s)),
        PacketRead::Data(d) => meta_at(
            after_packet(s),
            true,
            match meta_line(d) {
                Some(e) => insert_entry(acc, e.0, e.1),
                None => acc,
            },
        ),
    }
}

/// The value of `key` in the metadata, or the empty text.
pub open spec fn meta_value(m: Seq<(Seq<char>, Seq<char>)>, key: Seq<char>) -> Seq<char> {
    match lookup(m, key, 0) {
        Some(v) => v,
        None => Seq::empty(),
    }
}

/// The `key=value` pair of a metadata line ([`meta_line`]).
fn parse_meta_line(d: &[u8]) -> (r: Option<(String, String)>)
    ensures
        match meta_line(d@) {
            Some(e) => r matches Some(p) && p.0@ == e.0 && p.1@ == e.1,
            None => r is None,
        },
{
    let text = utf8_lossy(d);
    let cs = chars_vec(text.as_str());
    let mut end = cs.len();
    proof {
        assert(cs@.take(end as int) =~= cs@);
    }
    while end > 0 && cs[end - 1] == '\n'
        invariant
            end <= cs@.len(),
            cs@ == lossy(d@),
            trim_newlines(lossy(d@)) == trim_newlines(cs@.take(end as int)),
        decreases end,
    {
        proof {
            assert(cs@.take(end as int).drop_last() =~= cs@.take(end - 1));
        }
        end -= 1;
    }
    let ghost line = cs@.take(end as int);
    assert(trim_newlines(lossy(d@)) == line);
    let mut i: usize = 0;
    while i < end && cs[i] != '='
        invariant
            i <= end <= cs@.len(),
            line == cs@.take(end as int),
            find_char(line, '=', 0) == find_char(line, '=', i as int),
        decreases end - i,
    {
        i += 1;
    }
    if i == end {
        return None;
    }
    let k = string_of(&cs, 0, i);
    let v = string_of(&cs, i + 1, end);
    proof {
        assert(k@ =~= line.take(i as int));
        assert(v@ =~= line.skip(i + 1));
    }
    Some((k, v))
}

/// Reads the metadata section ([`meta_at`]).
fn read_meta(input: &mut &[u8]) -> (r: Result<Option<Vec<(String, String)>>, Error>)
    ensures
        match meta_at(old(input)@, false, Seq::empty()) {
            MetaRead::Eof => r matches Ok(None) && final(input)@ == old(input)@,
            MetaRead::Invalid(k) => r matches Err(Error::Io(e)) && io_kind_is(e, k),
            MetaRead::Truncated => r matches Err(e) && is_protocol(e, "EOF in metadata section"@),
            MetaRead::Done(m, rest) => r matches Ok(Some(v)) && entry_views(v@) == m && final(input)@ == rest,
        },
{
    let ghost start = input@;
    let mut map: Vec<(String, String)> = Vec::new();
    let mut saw_any = false;
    proof {
        assert(entry_views(map@) =~= Seq::<(Seq<char>, Seq<char>)>::empty());
    }
    loop
        invariant
            start == old(input)@,
            meta_at(start, false, Seq::empty()) == meta_at(input@, saw_any, entry_views(map@)),
            !saw_any ==> input@ == start,
        decreases input@.len(),
    {
        let ghost before = input@;
        let got = read_packet(input);
        match got {
            Err(e) => return Err(e),
            Ok(None) => {
                if saw_any {
                    return Err(protocol("EOF in metadata section"));
                }
                return Ok(None);
            },
            Ok(Some(Packet::Flush)) => {
                return Ok(Some(map));
            },
            Ok(Some(Packet::Data(d))) => {
                if let Some(e) = parse_meta_line(d.as_slice()) {
                    let (k, v) = e;
                    insert_attr(&mut map, k, v);
                }
                saw_any = true;
            },
        }
    }
}

// ─── Transform ───────────────────────────────────────────────────────────────

/// The `/`-separated parts of a path, in order, empty ones included.
pub open spec fn path_parts(p: Seq<char>) -> Seq<Seq<char>>
    decreases p.len(),
{
    if p.len() == 0 {
        seq![Seq::empty()]
    } else {
        let r = path_parts(p.drop_last());
        if p.last() == '/' {
            r.push(Seq::empty())
        } else {
            r.update(r.len() - 1, r.last().push(p.last()))
        }
    }
}

/// Whether a part names something: neither empty nor `.`.
pub open spec fn named_part(n: Seq<char>) -> bool {
    n.len() > 0 && n != seq!['.']
}

/// The last part that names something.
pub open spec fn last_name(ps: Seq<Seq<char>>) -> Option<Seq<char>>
    decreases ps.len(),
{
    if ps.len() == 0 {
        None
    } else if named_part(ps.last()) {
        Some(ps.last())
    } else {
        last_name(ps.drop_last())
    }
}

/// The index of the last `.` of `n`, or -1.
pub open spec fn last_dot(n: Seq<char>) -> int
    decreases n.len(),
{
    if n.len() == 0 {
        -1
    } else if n.last() == '.' {
        n.len() - 1
    } else {
        last_dot(n.drop_last())
    }
}

/// The extension of a path, as `std::path::Path::extension` finds it on a
/// `/`-separated path: the file name is the last part that is neither empty
/// nor `.` (none when that is `..`), and its extension is what follows its
/// last `.`, unless it has no `.` or its only `.` comes first.
pub open spec fn extension(p: Seq<char>) -> Option<Seq<char>> {
    match last_name(path_parts(p)) {
        Some(n) => if n == seq!['.', '.'] || last_dot(n) <= 0 {
            None
        } else {
            Some(n.subrange(last_dot(n) + 1, n.len() as int))
        },
        None => None,
    }
}

proof fn lemma_parts_len(p: Seq<char>)
    ensures
        path_parts(p).len() >= 1,
    decreases p.len(),
{
    if p.len() > 0 {
        lemma_parts_len(p.drop_last());
    }
}

/// The extension of a path ([`extension`]).
fn extension_of(p: &str) -> (r: Option<String>)
    ensures
        match extension(p@) {
            Some(e) => r matches Some(x) && x@ == e,
            None => r is None,
        },
{
    let cs = chars_vec(p);
    let mut start: usize = 0;
    let mut best: Option<(usize, usize)> = None;
    let mut i: usize = 0;
    proof {
        assert(cs@.take(0) =~= Seq::<char>::empty());
        assert(cs@.subrange(0, 0) =~= Seq::<char>::empty());
    }
    while i < cs.len()
        invariant
            cs@ == p@,
            start <= i <= cs@.len(),
            path_parts(cs@.take(i as int)).len() >= 1,
            path_parts(cs@.take(i as int)).last() == cs@.subrange(start as int, i as int),
            last_name(path_parts(cs@.take(i as int)).drop_last()) == match best {
                Some((a, b)) => Some(cs@.subrange(a as int, b as int)),
                None => None,
            },
            best matches Some((a, b)) ==> a <= b <= cs@.len(),
        decreases cs.len() - i,
    {
        let ghost parts = path_parts(cs@.take(i as int));
        proof {
            lemma_parts_len(cs@.take(i as int));
            assert(cs@.take(i + 1).drop_last() =~= cs@.take(i as int));
            assert(cs@.take(i + 1).last() == cs@[i as int]);
        }
        if cs[i] == '/' {
            let good = i > start && !(i == start + 1 && cs[start] == '.');
            proof {
                assert(path_parts(cs@.take(i + 1)) == parts.push(Seq::<char>::empty()));
                assert(parts.push(Seq::<char>::empty()).drop_last() =~= parts);
                let cur = cs@.subrange(start as int, i as int);
                if i > start + 1 {
                    assert(cur.len() != seq!['.'].len());
                }
                if i == start + 1 {
                    assert(cur.len() == 1 && cur[0] == cs@[start as int]);
                    if cs@[start as int] == '.' {
                        assert(cur =~= seq!['.']);
                    } else {
                        assert(cur != seq!['.']);
                    }
                }
                assert(good == named_part(cur));
                assert(cs@.subrange((i + 1) as int, (i + 1) as int) =~= Seq::<char>::empty());
            }
            if good {
                best = Some((start, i));
            }
            start = i + 1;
        } else {
            proof {
                let np = parts.update(parts.len() - 1, parts.last().push(cs@[i as int]));
                assert(path_parts(cs@.take(i + 1)) == np);
                assert(np.drop_last() =~= parts.drop_last());
                assert(np.last() =~= cs@.subrange(start as int, i + 1));
            }
        }
        i += 1;
    }
    proof {
        assert(cs@.take(cs@.len() as int) =~= cs@);
    }
    let ghost parts = path_parts(cs@);
    let last_good = cs.len() > start && !(cs.len() == start + 1 && cs[start] == '.');
    proof {
        let cur = cs@.subrange(start as int, cs@.len() as int);
        if cs@.len() > start + 1 {
            assert(cur.len() != seq!['.'].len());
        }
        if cs@.len() == start + 1 {
            assert(cur.len() == 1 && cur[0] == cs@[start as int]);
            if cs@[start as int] == '.' {
                assert(cur =~= seq!['.']);
            } else {
                assert(cur != seq!['.']);
            }
        }
        assert(last_good == named_part(cur));
    }
    let (a, b) = if last_good {
        (start, cs.len())
    } else {
        match best {
            Some(ab) => ab,
            None => {
                return None;
            },
        }
    };
    let ghost n = cs@.subrange(a as int, b as int);
    proof {
        assert(last_name(parts) == Some(n));
    }
    if b - a == 2 && cs[a] == '.' && cs[a + 1] == '.' {
        proof {
            assert(n =~= seq!['.', '.']);
        }
        return None;
    }
    proof {
        if n.len() == 2 {
            assert(n[0] == cs@[a as int] && n[1] == cs@[a + 1]);
        } else {
            assert(n.len() != seq!['.', '.'].len());
        }
        assert(n != seq!['.', '.']);
    }
    let mut j: usize = b;
    while j > a && cs[j - 1] != '.'
        invariant
            a <= j <= b <= cs@.len(),
            n == cs@.subrange(a as int, b as int),
            last_dot(n) == last_dot(cs@.subrange(a as int, j as int)),
        decreases j,
    {
        proof {
            assert(cs@.subrange(a as int, j as int).drop_last() =~= cs@.subrange(a as int, j - 1));
        }
        j -= 1;
    }
    if j == a {
        proof {
            assert(cs@.subrange(a as int, j as int) =~= Seq::<char>::empty());
        }
        return None;
    }
    proof {
        assert(cs@.subrange(a as int, j as int).last() == '.');
        assert(last_dot(n) == j - 1 - a);
    }
    if j - 1 == a {
        return None;
    }
    let e = string_of(&cs, j, b);
    proof {
        assert(n.subrange(last_dot(n) + 1, n.len() as int) =~= cs@.subrange(j as int, b as int));
    }
    Some(e)
}

/// What the Rust canonicalizer gives for `content` with the tree `root` of
/// it: nothing on a syntax error or an unsupported construct, else the
/// printing's bytes.
pub open spec fn rust_outcome(content: Seq<u8>, root: Cst, err: bool) -> Option<Seq<u8>> {
    if err {
        None
    } else {
        match source_file(content, root) {
            Some(t) => Some(encode_utf8(t)),
            None => None,
        }
    }
}

/// Whether the transform may give `out` (the bytes, or a failure) for a
/// blob, the path's [`extension`] deciding: `clean` of a `rs` path gives
/// what the Rust canonicalizer gives for the tree Tree-sitter parses from the
/// content; `clean` of a `json` path gives the canonical JSON, or fails on
/// invalid JSON; `smudge`, and `clean` of any other path, give the content
/// unchanged; any other command fails.
pub open spec fn allowed(command: Seq<char>, path: Seq<char>, content: Seq<u8>, out: Option<Seq<u8>>) -> bool {
    if command == "clean"@ && extension(path) == Some("rs"@) {
        match parse_spec(Grammar::Rust, content) {
            Some((t, err)) => exists|root: Cst| #[trigger] cst_is(root, t) && out == rust_outcome(content, root, err),
            None => out is None,
        }
    } else if command == "clean"@ && extension(path) == Some("json"@) {
        if json_valid(content) {
            out == Some(json_pretty(content).push(10u8))
        } else {
            out is None
        }
    } else if command == "smudge"@ || command == "clean"@ {
        out == Some(content)
    } else {
        out is None
    }
}

/// The bytes of a transform outcome.
pub open spec fn outcome(r: Result<Vec<u8>, Error>) -> Option<Seq<u8>> {
    match r {
        Ok(b) => Some(b@),
        Err(_) => None,
    }
}

/// Applies the requested transform: `clean` canonicalizes Rust and JSON,
/// `smudge` is the identity, other paths pass through unchanged; an unknown command is an
/// [`Error::Driver`].
#[verifier::rlimit(80)]
fn transform(command: &str, pathname: &str, content: &[u8]) -> (r: Result<Vec<u8>, Error>)
    ensures
        allowed(command@, pathname@, content@, outcome(r)),
        command@ == "clean"@ && extension(pathname@) == Some("rs"@) ==> match parse_spec(Grammar::Rust, content@) {
            Some((t, err)) => exists|root: Cst| #[trigger] cst_is(root, t) && canonical_result(content@, root, err, r),
            None => r matches Err(e) && e is Parsing,
        },
        command@ == "clean"@ && extension(pathname@) == Some("json"@) ==> if json_valid(content@) {
            r matches Ok(out) && out@ == json_pretty(content@).push(10u8)
        } else {
            r matches Err(e) && e is Parsing
        },
        command@ == "smudge"@ || (command@ == "clean"@ && extension(pathname@) != Some("rs"@) && extension(
            pathname@,
        ) != Some("json"@)) ==> (r matches Ok(out) && out@ == content@),
        command@ != "clean"@ && command@ != "smudge"@ ==> (r matches Err(e) && e matches Error::Driver(m)
            && m@ == "unknown filter command `"@ + command@ + "`"@),
{
    proof {
        reveal_strlit("rs");
        reveal_strlit("json");
        reveal_strlit("clean");
        reveal_strlit("smudge");
        assert("rs"@.len() != "json"@.len());
        assert("clean"@[0] != "smudge"@[0]);
    }
    let ext = extension_of(pathname);
    let is_rust = match &ext {
        Some(e) => str_eq(e.as_str(), "rs"),
        None => false,
    };
    let is_json = match &ext {
        Some(e) => str_eq(e.as_str(), "json"),
        None => false,
    };
    let is_clean = str_eq(command, "clean");
    if is_clean && is_rust {
        let r = canonicalize(content);
        proof {
            reveal_strlit("rs");
            reveal_strlit("json");
            if let Some((t, err)) = parse_spec(Grammar::Rust, content@) {
                let root = choose|root: Cst| #[trigger] cst_is(root, t) && canonical_result(content@, root, err, r);
                assert(outcome(r) == rust_outcome(content@, root, err));
            }
        }
        r
    } else if is_clean && is_json {
        proof {
            reveal_strlit("rs");
            reveal_strlit("json");
        }
        crate::json::canonicalize(content)
    } else if str_eq(command, "smudge") || is_clean {
        Ok(vstd::slice::slice_to_vec(content))
    } else {
        let mut m = String::from_str("unknown filter command `");
        push_str(&mut m, command);
        push_str(&mut m, "`");
        Err(Error::Driver(m))
    }
}

// ─── Conversation ────────────────────────────────────────────────────────────

/// A text packet: the line and a line break.
pub open spec fn text_frame(line: Seq<char>) -> Seq<u8> {
    frame(encode_utf8(line).push(10u8))
}

/// The server's greeting.
pub open spec fn server_hello() -> Seq<u8> {
    text_frame("git-filter-server"@) + text_frame("version=2"@) + flush()
}

/// The server's capabilities.
pub open spec fn server_caps() -> Seq<u8> {
    text_frame("capability=clean"@) + text_frame("capability=smudge"@) + flush()
}

/// The reply to one blob: `status=success` and the content, or
/// `status=error`.
pub open spec fn reply(out: Option<Seq<u8>>) -> Seq<u8> {
    match out {
        Some(b) => text_frame("status=success"@) + flush() + frames(b) + flush() + flush(),
        None => text_frame("status=error"@) + flush(),
    }
}

/// Sends a short text packet.
fn send_line(output: &mut Vec<u8>, line: &str)
    requires
        line@.len() <= 100,
    ensures
        final(output)@ == old(output)@ + text_frame(line@),
{
    proof {
        lemma_encode_len(line@);
    }
    let _ = write_text_packet(output, line);
}

/// The handshake tests the greeting's bytes where the text protocol tests
/// its text: for a greeting that is valid UTF-8 (whose text, what
/// `String::from_utf8_lossy` gives, is then its decoding), it holds the bytes
/// of `git-filter-client`, or of `version=2`, exactly when its text holds
/// those words.
pub proof fn lemma_greeting_text(d: Seq<u8>)
    requires
        valid_utf8(d),
    ensures
        contains_bytes(d, encode_utf8("git-filter-client"@)) <==> text_contains(
            decode_utf8(d),
            "git-filter-client"@,
        ),
        contains_bytes(d, encode_utf8("version=2"@)) <==> text_contains(decode_utf8(d), "version=2"@),
{
    reveal_strlit("git-filter-client");
    reveal_strlit("version=2");
    assert(is_ascii_chars("git-filter-client"@));
    assert(is_ascii_chars("version=2"@));
    lemma_bytes_contain_text(d, "git-filter-client"@);
    lemma_bytes_contain_text(d, "version=2"@);
}

/// The handshake: reads the client's greeting and answers it.
pub fn handshake(input: &mut &[u8], output: &mut Vec<u8>) -> (r: Result<(), Error>)
    ensures
        match section_at(old(input)@, false) {
            SectionRead::Eof => r matches Err(e) && is_protocol(e, "client closed during handshake"@),
            SectionRead::Invalid(k) => r matches Err(Error::Io(e)) && io_kind_is(e, k),
            SectionRead::Done(d, rest) => final(input)@ == rest && if !contains_bytes(
                d,
                encode_utf8("git-filter-client"@),
            ) {
                r matches Err(e) && is_protocol(e, "missing git-filter-client welcome"@)
            } else if !contains_bytes(d, encode_utf8("version=2"@)) {
                r matches Err(e) && is_protocol(e, "client did not offer version=2"@)
            } else {
                r is Ok && final(output)@ == old(output)@ + server_hello()
            },
        },
        r is Err ==> final(output)@ == old(output)@,
{
    let intro = match read_until_flush(input) {
        Err(e) => return Err(e),
        Ok(None) => return Err(protocol("client closed during handshake")),
        Ok(Some(b)) => b,
    };
    if !bytes_contain(intro.as_slice(), "git-filter-client".as_bytes()) {
        return Err(protocol("missing git-filter-client welcome"));
    }
    if !bytes_contain(intro.as_slice(), "version=2".as_bytes()) {
        return Err(protocol("client did not offer version=2"));
    }
    proof {
        reveal_strlit("git-filter-server");
        reveal_strlit("version=2");
    }
    send_line(output, "git-filter-server");
    send_line(output, "version=2");
    let _ = write_flush(output);
    Ok(())
}

/// The capabilities: reads the client's list (its contents do not matter)
/// and answers with ours.
pub fn capabilities(input: &mut &[u8], output: &mut Vec<u8>) -> (r: Result<(), Error>)
    ensures
        match section_at(old(input)@, false) {
            SectionRead::Eof => r matches Err(e) && is_protocol(e, "client closed during capabilities"@),
            SectionRead::Invalid(k) => r matches Err(Error::Io(e)) && io_kind_is(e, k),
            SectionRead::Done(_, rest) => final(input)@ == rest && r is Ok && final(output)@ == old(output)@
                + server_caps(),
        },
        r is Err ==> final(output)@ == old(output)@,
{
    match read_until_flush(input) {
        Err(e) => return Err(e),
        Ok(None) => return Err(protocol("client closed during capabilities")),
        Ok(Some(_)) => {},
    }
    proof {
        reveal_strlit("capability=clean");
        reveal_strlit("capability=smudge");
    }
    send_line(output, "capability=clean");
    send_line(output, "capability=smudge");
    let _ = write_flush(output);
    Ok(())
}

/// What handling one blob of `s` does: `Some(None)` at the end of the stream
/// (no more work), `Some(Some((rest, reply)))` when a blob was read (`rest`
/// follows it and `reply` is what may be answered, for an allowed outcome),
/// `None` on an error.
#[verifier::opaque]
pub open spec fn blob_at(s: Seq<u8>) -> Option<Option<(Seq<char>, Seq<char>, Seq<u8>, Seq<u8>)>> {
    match meta_at(s, false, Seq::empty()) {
        MetaRead::Eof => Some(None),
        MetaRead::Done(m, rest) => match section_at(rest, false) {
            SectionRead::Done(content, rest2) => Some(
                Some((meta_value(m, "command"@), meta_value(m, "pathname"@), content, rest2)),
            ),
            _ => None,
        },
        _ => None,
    }
}

/// Whether `after` is `before` followed by the reply for some allowed outcome
/// of blob `b`.
#[verifier::opaque]
pub open spec fn answered(b: (Seq<char>, Seq<char>, Seq<u8>, Seq<u8>), before: Seq<u8>, after: Seq<u8>) -> bool {
    exists|o: Option<Seq<u8>>| #[trigger] allowed(b.0, b.1, b.2, o) && after == before + reply(o)
}

/// Sends the reply for a transform outcome ([`reply`]).
fn respond(output: &mut Vec<u8>, result: &Result<Vec<u8>, Error>)
    ensures
        final(output)@ == old(output)@ + reply(outcome(*result)),
{
    match result {
        Ok(out) => {
            proof {
                reveal_strlit("status=success");
            }
            send_line(output, "status=success");
            let _ = write_flush(output);
            let _ = write_content(output, out.as_slice());
            let _ = write_flush(output);
        },
        Err(_) => {
            proof {
                reveal_strlit("status=error");
            }
            send_line(output, "status=error");
            let _ = write_flush(output);
        },
    }
}

/// Handles one blob request: reads its metadata and content, transforms it
/// and answers. `Ok(false)` when the client has closed the stream, `Ok(true)`
/// after a blob.
pub fn process_one(input: &mut &[u8], output: &mut Vec<u8>) -> (r: Result<bool, Error>)
    ensures
        blob_at(old(input)@) == Some(None::<(Seq<char>, Seq<char>, Seq<u8>, Seq<u8>)>) ==> r matches Ok(false),
        blob_at(old(input)@) matches Some(Some(b)) ==> (r matches Ok(true) && final(input)@ == b.3 && answered(
            b,
            old(output)@,
            final(output)@,
        )),
        blob_at(old(input)@) is None ==> r is Err,
        !(r matches Ok(true)) ==> final(output)@ == old(output)@,
{
    reveal(blob_at);
    let meta = match read_meta(input) {
        Err(e) => return Err(e),
        Ok(None) => return Ok(false),
        Ok(Some(m)) => m,
    };
    let empty = String::new();
    let command = match get_attr(&meta, "command") {
        Some(c) => c,
        None => &empty,
    };
    let pathname = match get_attr(&meta, "pathname") {
        Some(p) => p,
        None => &empty,
    };
    let content = match read_until_flush(input) {
        Err(e) => return Err(e),
        Ok(None) => return Err(protocol("client closed mid-content")),
        Ok(Some(c)) => c,
    };
    let result = transform(command.as_str(), pathname.as_str(), content.as_slice());
    respond(output, &result);
    proof {
        let m = entry_views(meta@);
        assert(command@ == meta_value(m, "command"@));
        assert(pathname@ == meta_value(m, "pathname"@));
        assert(allowed(meta_value(m, "command"@), meta_value(m, "pathname"@), content@, outcome(result)));
        let b = (meta_value(m, "command"@), meta_value(m, "pathname"@), content@, input@);
        assert(blob_at(old(input)@) == Some(Some(b)));
        assert(output@ == old(output)@ + reply(outcome(result)));
        assert(allowed(b.0, b.1, b.2, outcome(result)));
        assert(answered(b, old(output)@, output@)) by {
            reveal(answered);
        }
    }
    Ok(true)
}

/// The relation between what is left of the input after the capabilities,
/// the output answered from then on, and whether the session ends cleanly:
/// blob by blob, each reply for an allowed outcome, until the client closes
/// the stream (clean) or an error (not clean, nothing more answered).
#[verifier::opaque]
pub open spec fn serves(s: Seq<u8>, out: Seq<u8>, ok: bool) -> bool
    decreases s.len(),
{
    match blob_at(s) {
        Some(None) => ok && out.len() == 0,
        None => !ok && out.len() == 0,
        Some(Some((command, pathname, content, rest))) => {
            if rest.len() < s.len() {
                exists|o: Option<Seq<u8>>|
                    #[trigger] allowed(command, pathname, content, o) && reply(o).len() <= out.len()
                        && out.take(reply(o).len() as int) == reply(o) && serves(
                        rest,
                        out.skip(reply(o).len() as int),
                        ok,
                    )
            } else {
                false
            }
        },
    }
}

proof fn lemma_meta_shrinks(s: Seq<u8>, saw_any: bool, acc: Seq<(Seq<char>, Seq<char>)>)
    ensures
        meta_at(s, saw_any, acc) matches MetaRead::Done(_, rest) ==> rest.len() < s.len(),
    decreases s.len(),
{
    if let PacketRead::Data(d) = packet_at(s) {
        let acc2 = match meta_line(d) {
            Some(e) => insert_entry(acc, e.0, e.1),
            None => acc,
        };
        lemma_meta_shrinks(after_packet(s), true, acc2);
    }
}

proof fn lemma_section_shrinks(s: Seq<u8>, saw_any: bool)
    ensures
        section_at(s, saw_any) matches SectionRead::Done(_, rest) ==> rest.len() < s.len(),
    decreases s.len(),
{
    if let PacketRead::Data(d) = packet_at(s) {
        lemma_section_shrinks(after_packet(s), true);
    }
}

/// A blob read leaves less of the stream.
proof fn lemma_blob_shrinks(s: Seq<u8>)
    ensures
        blob_at(s) matches Some(Some(b)) ==> b.3.len() < s.len(),
{
    reveal(blob_at);
    lemma_meta_shrinks(s, false, Seq::empty());
    if let MetaRead::Done(m, rest) = meta_at(s, false, Seq::empty()) {
        lemma_section_shrinks(rest, false);
    }
}

/// The relation between a whole input stream, the output answered to it, and
/// whether the session ends cleanly: the handshake and the capabilities
/// exchanged, then the blobs served ([`serves`]); on a failed handshake or
/// capabilities exchange, not clean and nothing more answered.
#[verifier::opaque]
pub open spec fn session(s: Seq<u8>, out: Seq<u8>, ok: bool) -> bool {
    match section_at(s, false) {
        SectionRead::Done(d, rest) => if contains_bytes(d, encode_utf8("git-filter-client"@))
            && contains_bytes(d, encode_utf8("version=2"@)) {
            let h = server_hello().len() as int;
            &&& h <= out.len()
            &&& out.take(h) == server_hello()
            &&& match section_at(rest, false) {
                SectionRead::Done(_, rest2) => {
                    let c = server_caps().len() as int;
                    &&& h + c <= out.len()
                    &&& out.subrange(h, h + c) == server_caps()
                    &&& serves(rest2, out.skip(h + c), ok)
                },
                _ => !ok && out.len() == h,
            }
        } else {
            !ok && out.len() == 0
        },
        _ => !ok && out.len() == 0,
    }
}

proof fn lemma_serves_end(s: Seq<u8>)
    requires
        blob_at(s) is None || blob_at(s) == Some(None::<(Seq<char>, Seq<char>, Seq<u8>, Seq<u8>)>),
    ensures
        serves(s, Seq::empty(), blob_at(s) is Some),
{
    reveal(serves);
}

#[verifier::rlimit(50)]
proof fn lemma_serves_step(s: Seq<u8>, o: Option<Seq<u8>>, x: Seq<u8>, ok: bool)
    requires
        blob_at(s) matches Some(Some(b)) && allowed(b.0, b.1, b.2, o) && serves(b.3, x, ok),
    ensures
        serves(s, reply(o) + x, ok),
{
    reveal(serves);
    lemma_blob_shrinks(s);
    let y = reply(o) + x;
    assert(y.take(reply(o).len() as int) =~= reply(o));
    assert(y.skip(reply(o).len() as int) =~= x);
}

proof fn lemma_session_failed(s: Seq<u8>)
    requires
        !(section_at(s, false) matches SectionRead::Done(d, _) && contains_bytes(d, encode_utf8("git-filter-client"@))
            && contains_bytes(d, encode_utf8("version=2"@))),
    ensures
        session(s, Seq::empty(), false),
{
    reveal(session);
}

proof fn lemma_session_no_caps(s: Seq<u8>, rest: Seq<u8>)
    requires
        section_at(s, false) matches SectionRead::Done(d, r) && r == rest && contains_bytes(
            d,
            encode_utf8("git-filter-client"@),
        ) && contains_bytes(d, encode_utf8("version=2"@)),
        !(section_at(rest, false) is Done),
    ensures
        session(s, server_hello(), false),
{
    reveal(session);
    assert(server_hello().take(server_hello().len() as int) =~= server_hello());
}

/// The handshake and the capabilities exchange succeed on `s`, leaving `rest`
/// after the first and `rest2` after the second.
#[verifier::opaque]
spec fn opened(s: Seq<u8>, rest: Seq<u8>, rest2: Seq<u8>) -> bool {
    &&& section_at(s, false) matches SectionRead::Done(d, r) && r == rest && contains_bytes(
        d,
        encode_utf8("git-filter-client"@),
    ) && contains_bytes(d, encode_utf8("version=2"@))
    &&& section_at(rest, false) matches SectionRead::Done(_, r2) && r2 == rest2
}

proof fn lemma_session_serves(s: Seq<u8>, rest: Seq<u8>, rest2: Seq<u8>, x: Seq<u8>, ok: bool)
    requires
        opened(s, rest, rest2),
        serves(rest2, x, ok),
    ensures
        session(s, server_hello() + server_caps() + x, ok),
{
    reveal(opened);
    reveal(session);
    let u = server_hello() + server_caps() + x;
    let h = server_hello().len() as int;
    let c = server_caps().len() as int;
    assert(u.take(h) =~= server_hello());
    assert(u.subrange(h, h + c) =~= server_caps());
    assert(u.skip(h + c) =~= x);
}

proof fn lemma_advance(
    s: Seq<u8>,
    next: Seq<u8>,
    before: Seq<u8>,
    after: Seq<u8>,
    done: Seq<u8>,
    s2: Seq<u8>,
) -> (o: Option<Seq<u8>>)
    requires
        blob_at(s) matches Some(Some(b)) && b.3 == next && answered(b, before, after),
        forall|x: Seq<u8>, ok: bool| #[trigger] serves(s, x, ok) ==> serves(s2, done + x, ok),
    ensures
        after == before + reply(o),
        forall|x: Seq<u8>, ok: bool| #[trigger] serves(next, x, ok) ==> serves(s2, (done + reply(o)) + x, ok),
{
    let b = blob_at(s)->0->0;
    reveal(answered);
    let o = choose|o: Option<Seq<u8>>| #[trigger] allowed(b.0, b.1, b.2, o) && after == before + reply(o);
    assert forall|x: Seq<u8>, ok: bool| #[trigger] serves(next, x, ok) implies serves(s2, (done + reply(o)) + x, ok) by {
        lemma_serves_step(s, o, x, ok);
        assert((done + reply(o)) + x =~= done + (reply(o) + x));
    }
    o
}

/// Drives the whole protocol over the input stream, appending the answers to
/// `output` ([`session`]); ends cleanly when the client closes the stream
/// between blobs.
pub fn converse(input: &mut &[u8], output: &mut Vec<u8>) -> (r: Result<(), Error>)
    ensures
        final(output)@.len() >= old(output)@.len(),
        final(output)@.take(old(output)@.len() as int) == old(output)@,
        session(old(input)@, final(output)@.skip(old(output)@.len() as int), r is Ok),
{
    let ghost s0 = input@;
    let ghost base = output@;
    if let Err(e) = handshake(input, output) {
        proof {
            lemma_session_failed(s0);
            assert(output@.skip(base.len() as int) =~= Seq::<u8>::empty());
            assert(output@.take(base.len() as int) =~= base);
        }
        return Err(e);
    }
    let ghost s1 = input@;
    if let Err(e) = capabilities(input, output) {
        proof {
            lemma_session_no_caps(s0, s1);
            assert(output@.skip(base.len() as int) =~= server_hello());
            assert(output@.take(base.len() as int) =~= base);
        }
        return Err(e);
    }
    let ghost s2 = input@;
    let ghost prefix = server_hello() + server_caps();
    proof {
        assert(opened(s0, s1, s2)) by {
            reveal(opened);
        }
        assert(output@ =~= base + prefix);
        assert(output@.take(base.len() as int) =~= base);
    }
    let ghost mut answered_so_far: Seq<u8> = Seq::empty();
    loop
        invariant
            output@ == base + prefix + answered_so_far,
            forall|x: Seq<u8>, ok: bool|
                #[trigger] serves(input@, x, ok) ==> serves(s2, answered_so_far + x, ok),
            opened(s0, s1, s2),
            s0 == old(input)@,
            base == old(output)@,
            prefix == server_hello() + server_caps(),
        decreases input@.len(),
    {
        let ghost before_in = input@;
        let ghost before_out = output@;
        proof {
            lemma_blob_shrinks(input@);
        }
        match process_one(input, output) {
            Err(e) => {
                proof {
                    assert(output@ == before_out);
                    assert(output@ == base + prefix + answered_so_far);
                    lemma_serves_end(before_in);
                    assert(answered_so_far + Seq::<u8>::empty() =~= answered_so_far);
                    lemma_session_serves(s0, s1, s2, answered_so_far, false);
                    assert(output@.skip(base.len() as int) =~= prefix + answered_so_far);
                    assert(output@.take(base.len() as int) =~= base);
                }
                return Err(e);
            },
            Ok(false) => {
                proof {
                    assert(output@ == before_out);
                    assert(output@ == base + prefix + answered_so_far);
                    lemma_serves_end(before_in);
                    assert(answered_so_far + Seq::<u8>::empty() =~= answered_so_far);
                    lemma_session_serves(s0, s1, s2, answered_so_far, true);
                    assert(output@.skip(base.len() as int) =~= prefix + answered_so_far);
                    assert(output@.take(base.len() as int) =~= base);
                }
                return Ok(());
            },
            Ok(true) => {
                proof {
                    let o = lemma_advance(before_in, input@, before_out, output@, answered_so_far, s2);
                    answered_so_far = answered_so_far + reply(o);
                }
            },
        }
    }
}

} // verus!
