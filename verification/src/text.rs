//! Byte and string helpers shared by the printers.

use vstd::prelude::*;
use vstd::string::StringExecFns;
use vstd::utf8::{
    decode_utf8, encode_utf8, encode_utf8_decode_utf8, encode_utf8_valid_utf8, is_ascii_chars,
    is_ascii_chars_encode_utf8, valid_utf8,
};

verus! {

/// The UTF-8 bytes of a string literal or slice.
pub closed spec fn lit(s: &str) -> Seq<u8> {
    encode_utf8(s@)
}

/// Concatenation of sequences is associative.
pub broadcast proof fn lemma_seq_assoc<A>(a: Seq<A>, b: Seq<A>, c: Seq<A>)
    ensures
        #[trigger] ((a + b) + c) == a + (b + c),
{
    assert((a + b) + c =~= a + (b + c));
}

/// Byte-wise equality of two slices.
pub fn bytes_eq(a: &[u8], b: &[u8]) -> (r: bool)
    ensures
        r == (a@ == b@),
{
    if a.len() != b.len() {
        proof {
            assert(a@.len() != b@.len());
        }
        return false;
    }
    let mut i: usize = 0;
    while i < a.len()
        invariant
            0 <= i <= a.len(),
            a.len() == b.len(),
            forall|j: int| 0 <= j < i ==> a@[j] == b@[j],
        decreases a.len() - i,
    {
        if a[i] != b[i] {
            proof {
                assert(a@[i as int] != b@[i as int]);
            }
            return false;
        }
        i += 1;
    }
    proof {
        assert(a@ =~= b@);
    }
    true
}

/// Equality of two string slices, compared through their UTF-8 encodings.
pub fn str_eq(a: &str, b: &str) -> (r: bool)
    ensures
        r == (a@ == b@),
{
    let r = bytes_eq(a.as_bytes(), b.as_bytes());
    proof {
        encode_utf8_decode_utf8(a@);
        encode_utf8_decode_utf8(b@);
    }
    r
}

/// Appends `s` to `out`.
pub fn append_bytes(out: &mut Vec<u8>, s: &[u8])
    ensures
        final(out)@ == old(out)@ + s@,
{
    let ghost start = out@;
    let mut i: usize = 0;
    while i < s.len()
        invariant
            0 <= i <= s.len(),
            out@ == start + s@.subrange(0, i as int),
        decreases s.len() - i,
    {
        out.push(s[i]);
        proof {
            assert(s@.subrange(0, i as int + 1) =~= s@.subrange(0, i as int).push(s@[i as int]));
        }
        i += 1;
    }
    proof {
        assert(s@.subrange(0, s@.len() as int) =~= s@);
    }
}

/// Appends the UTF-8 bytes of `s` to `out`.
pub fn push_lit(out: &mut Vec<u8>, s: &str)
    ensures
        final(out)@ == old(out)@ + lit(s),
{
    append_bytes(out, s.as_bytes());
}

/// The UTF-8 bytes of `s`.
pub fn lit_bytes(s: &str) -> (r: &[u8])
    ensures
        r@ == lit(s),
{
    s.as_bytes()
}

/// Appends `s` to `out`.
pub fn push_str(out: &mut String, s: &str)
    ensures
        final(out)@ == old(out)@ + s@,
{
    out.append(s);
}

/// The UTF-8 bytes of a string.
pub fn string_bytes(s: &String) -> (r: Vec<u8>)
    ensures
        r@ == encode_utf8(s@),
{
    vstd::slice::slice_to_vec(s.as_str().as_bytes())
}

/// The string slice that `bytes` encode, when they are valid UTF-8.
///
/// Calls `std::str::from_utf8`, documented to succeed exactly on valid UTF-8;
/// the contract states the decoded characters with `vstd::utf8::decode_utf8`.
#[verifier::external_body]
pub(crate) fn str_from_utf8(bytes: &[u8]) -> (r: Option<&str>)
    ensures
        r is Some <==> valid_utf8(bytes@),
        r matches Some(s) ==> s@ == decode_utf8(bytes@),
{
    std::str::from_utf8(bytes).ok()
}

/// Whether `bytes` is well-formed UTF-8.
///
/// Calls `std::str::from_utf8`, which the standard library documents as
/// succeeding exactly on valid UTF-8; the contract states that with the
/// validity predicate of `vstd::utf8`.
#[verifier::external_body]
pub(crate) fn utf8_valid(bytes: &[u8]) -> (r: bool)
    ensures
        r == valid_utf8(bytes@),
{
    std::str::from_utf8(bytes).is_ok()
}

/// The string that the bytes encode, when they are valid UTF-8.
///
/// Calls `String::from_utf8`, documented to succeed exactly on valid UTF-8 and
/// to keep the bytes; the contract states the decoded characters with
/// `vstd::utf8::decode_utf8`.
#[verifier::external_body]
pub(crate) fn string_from_utf8(bytes: Vec<u8>) -> (r: Option<String>)
    ensures
        r is Some <==> valid_utf8(bytes@),
        r matches Some(s) ==> s@ == decode_utf8(bytes@),
{
    String::from_utf8(bytes).ok()
}

/// The lowercase hex digit of a nibble.
pub open spec fn hex_digit(v: u64) -> u8 {
    if v < 10 {
        (48 + v) as u8
    } else {
        (87 + v) as u8
    }
}

/// The 16-digit lowercase hexadecimal rendering of `x`, most significant first.
pub open spec fn hex16(x: u64) -> Seq<u8> {
    Seq::new(16, |i: int| hex_digit(((x as int / pow16(15 - i)) % 16) as u64))
}

/// `16^k`.
pub open spec fn pow16(k: int) -> int
    decreases k,
{
    if k <= 0 {
        1
    } else {
        16 * pow16(k - 1)
    }
}

/// Renders `x` as 16 lowercase hex digits (the `{:016x}` format).
pub fn hex16_bytes(x: u64) -> (r: Vec<u8>)
    ensures
        r@ == hex16(x),
{
    let mut r: Vec<u8> = Vec::new();
    let mut k: usize = 0;
    let mut div: u64 = 0x1000_0000_0000_0000;
    proof {
        reveal_with_fuel(pow16, 16);
        assert(pow16(15) == 0x1000_0000_0000_0000);
    }
    while k < 16
        invariant
            k <= 16,
            r@.len() == k,
            div as int == pow16(15 - k as int) || (k == 16 && div == 0),
            forall|j: int| 0 <= j < k ==> r@[j] == hex16(x)[j],
        decreases 16 - k,
    {
        proof {
            lemma_pow16_pos(15 - k as int);
        }
        let d = (x / div) % 16;
        r.push(if d < 10 { 48 + d as u8 } else { 87 + d as u8 });
        proof {
            assert(hex16(x)[k as int] == hex_digit(((x as int / pow16(15 - k as int)) % 16) as u64));
        }
        if k < 15 {
            proof {
                lemma_pow16_step(14 - k as int);
            }
            div = div / 16;
        } else {
            div = 0;
        }
        k += 1;
    }
    proof {
        assert(r@ =~= hex16(x));
    }
    r
}

proof fn lemma_pow16_pos(k: int)
    ensures
        pow16(k) >= 1,
    decreases k,
{
    if k > 0 {
        lemma_pow16_pos(k - 1);
    }
}

proof fn lemma_pow16_step(k: int)
    requires
        k >= 0,
    ensures
        pow16(k + 1) / 16 == pow16(k),
{
}

/// The characters that ASCII bytes stand for.
pub open spec fn ascii_chars(b: Seq<u8>) -> Seq<char> {
    b.map_values(|x: u8| x as char)
}

/// ASCII bytes are valid UTF-8 and decode to the characters they stand for.
pub proof fn lemma_ascii_utf8(b: Seq<u8>)
    requires
        forall|i: int| 0 <= i < b.len() ==> b[i] < 128,
    ensures
        valid_utf8(b),
        decode_utf8(b) == ascii_chars(b),
{
    let cs = ascii_chars(b);
    assert(is_ascii_chars(cs));
    is_ascii_chars_encode_utf8(cs);
    assert(encode_utf8(cs) =~= b);
    encode_utf8_valid_utf8(cs);
    encode_utf8_decode_utf8(cs);
}

/// The string of ASCII bytes.
pub fn ascii_string(b: Vec<u8>) -> (s: String)
    requires
        forall|i: int| 0 <= i < b@.len() ==> b@[i] < 128,
    ensures
        s@ == ascii_chars(b@),
{
    proof {
        lemma_ascii_utf8(b@);
    }
    let ghost bv = b@;
    match string_from_utf8(b) {
        Some(s) => s,
        None => {
            proof {
                assert(false);
            }
            String::new()
        },
    }
}

/// The 16-digit lowercase hexadecimal rendering of `x` as a string.
pub open spec fn hex_chars(x: u64) -> Seq<char> {
    ascii_chars(hex16(x))
}

/// Renders `x` as a 16-digit lowercase hexadecimal string (`{:016x}`).
pub fn hex_string(x: u64) -> (s: String)
    ensures
        s@ == hex_chars(x),
{
    let b = hex16_bytes(x);
    proof {
        assert forall|i: int| 0 <= i < b@.len() implies b@[i] < 128 by {
            assert(b@[i] == hex_digit(((x as int / pow16(15 - i)) % 16) as u64));
        }
    }
    ascii_string(b)
}

/// Unicode `White_Space`, the set that `char::is_whitespace` tests.
pub open spec fn is_white_space(c: char) -> bool {
    ('\u{9}' <= c && c <= '\u{d}') || c == ' ' || c == '\u{85}' || c == '\u{a0}' || c == '\u{1680}'
        || ('\u{2000}' <= c && c <= '\u{200a}') || c == '\u{2028}' || c == '\u{2029}' || c
        == '\u{202f}' || c == '\u{205f}' || c == '\u{3000}'
}

/// `s` without its trailing white space.
pub open spec fn trim_end_chars(s: Seq<char>) -> Seq<char>
    decreases s.len(),
{
    if s.len() > 0 && is_white_space(s.last()) {
        trim_end_chars(s.drop_last())
    } else {
        s
    }
}

/// `s` without its leading white space.
pub open spec fn trim_start_chars(s: Seq<char>) -> Seq<char>
    decreases s.len(),
{
    if s.len() > 0 && is_white_space(s.first()) {
        trim_start_chars(s.drop_first())
    } else {
        s
    }
}

/// `s` without leading and trailing white space.
pub open spec fn trim_chars(s: Seq<char>) -> Seq<char> {
    trim_start_chars(trim_end_chars(s))
}

/// `str::trim_end`: documented to remove trailing white space, where white
/// space is the Unicode `White_Space` property.
#[verifier::external_body]
pub(crate) fn trim_end(s: &str) -> (r: &str)
    ensures
        r@ == trim_end_chars(s@),
{
    s.trim_end()
}

/// `str::trim`: documented to remove leading and trailing white space, where
/// white space is the Unicode `White_Space` property.
#[verifier::external_body]
pub(crate) fn trim(s: &str) -> (r: &str)
    ensures
        r@ == trim_chars(s@),
{
    s.trim()
}

/// Whether `p` occurs in `h` at offset `k`.
pub open spec fn occurs_at(h: Seq<u8>, p: Seq<u8>, k: int) -> bool {
    0 <= k && k + p.len() <= h.len() && h.subrange(k, k + p.len()) == p
}

/// The first offset at or after `k` where `p` occurs in `h`, or -1.
pub open spec fn find_from(h: Seq<u8>, p: Seq<u8>, k: int) -> int
    decreases h.len() + 1 - k,
{
    if k < 0 || k + p.len() > h.len() {
        -1
    } else if occurs_at(h, p, k) {
        k
    } else {
        find_from(h, p, k + 1)
    }
}

/// `h` with its first occurrence of `p` replaced by `r` (unchanged when `p`
/// does not occur): `str::replacen(p, r, 1)` on the bytes.
pub open spec fn replace_first(h: Seq<u8>, p: Seq<u8>, r: Seq<u8>) -> Seq<u8> {
    let k = find_from(h, p, 0);
    if k < 0 {
        h
    } else {
        h.subrange(0, k) + r + h.subrange(k + p.len(), h.len() as int)
    }
}

/// Replaces the first occurrence of `p` in `h` by `r`.
pub fn replace_first_bytes(h: &[u8], p: &[u8], r: &[u8]) -> (out: Vec<u8>)
    ensures
        out@ == replace_first(h@, p@, r@),
{
    let mut k: usize = 0;
    let mut found = false;
    if p.len() <= h.len() {
        let last = h.len() - p.len();
        let mut done = false;
        while !found && !done
            invariant
                k <= last,
                last + p.len() == h.len(),
                found ==> !done && occurs_at(h@, p@, k as int) && find_from(h@, p@, 0) == k,
                !found && !done ==> find_from(h@, p@, 0) == find_from(h@, p@, k as int),
                done ==> !found && find_from(h@, p@, 0) == -1,
            decreases (last - k) * 2 + (if found || done { 0int } else { 1int }),
        {
            if bytes_eq(vstd::slice::slice_subrange(h, k, k + p.len()), p) {
                found = true;
            } else if k == last {
                done = true;
                proof {
                    assert(find_from(h@, p@, k as int + 1) == -1);
                }
            } else {
                k += 1;
            }
        }
    }
    if !found {
        return vstd::slice::slice_to_vec(h);
    }
    let mut out: Vec<u8> = Vec::new();
    append_bytes(&mut out, vstd::slice::slice_subrange(h, 0, k));
    append_bytes(&mut out, r);
    append_bytes(&mut out, vstd::slice::slice_subrange(h, k + p.len(), h.len()));
    out
}

// ─── Order of strings ────────────────────────────────────────────────────────

/// Strict lexicographic order of byte strings (the order of `str`).
pub open spec fn bytes_lt(a: Seq<u8>, b: Seq<u8>) -> bool
    decreases a.len(),
{
    if a.len() == 0 {
        b.len() > 0
    } else if b.len() == 0 {
        false
    } else if a[0] < b[0] {
        true
    } else if a[0] > b[0] {
        false
    } else {
        bytes_lt(a.drop_first(), b.drop_first())
    }
}

/// Strict order of attribute names: the order of their UTF-8 bytes, which is
/// the order of `String`.
pub open spec fn name_lt(a: Seq<char>, b: Seq<char>) -> bool {
    bytes_lt(encode_utf8(a), encode_utf8(b))
}

/// Whether `a` sorts strictly before `b`.
pub fn str_lt(a: &str, b: &str) -> (r: bool)
    ensures
        r == name_lt(a@, b@),
{
    let x = a.as_bytes();
    let y = b.as_bytes();
    let mut i: usize = 0;
    proof {
        assert(x@.skip(0) =~= x@);
        assert(y@.skip(0) =~= y@);
    }
    while i < x.len() && i < y.len() && x[i] == y[i]
        invariant
            i <= x@.len(),
            i <= y@.len(),
            bytes_lt(x@, y@) == bytes_lt(x@.skip(i as int), y@.skip(i as int)),
        decreases x.len() - i,
    {
        proof {
            assert(x@.skip(i as int).drop_first() =~= x@.skip(i + 1));
            assert(y@.skip(i as int).drop_first() =~= y@.skip(i + 1));
        }
        i += 1;
    }
    if i == x.len() {
        i < y.len()
    } else if i == y.len() {
        false
    } else {
        x[i] < y[i]
    }
}

/// No byte string sorts before itself.
pub proof fn lemma_bytes_lt_irrefl(a: Seq<u8>)
    ensures
        !bytes_lt(a, a),
    decreases a.len(),
{
    if a.len() > 0 {
        lemma_bytes_lt_irrefl(a.drop_first());
    }
}

/// The order of byte strings is transitive.
pub proof fn lemma_bytes_lt_trans(a: Seq<u8>, b: Seq<u8>, c: Seq<u8>)
    requires
        bytes_lt(a, b),
        bytes_lt(b, c),
    ensures
        bytes_lt(a, c),
    decreases a.len(),
{
    if a.len() > 0 && b.len() > 0 && c.len() > 0 && a[0] == b[0] && b[0] == c[0] {
        lemma_bytes_lt_trans(a.drop_first(), b.drop_first(), c.drop_first());
    }
}

/// Distinct byte strings are ordered one way or the other.
pub proof fn lemma_bytes_lt_total(a: Seq<u8>, b: Seq<u8>)
    ensures
        a == b || bytes_lt(a, b) || bytes_lt(b, a),
    decreases a.len(),
{
    if a.len() == 0 && b.len() == 0 {
        assert(a =~= b);
    } else if a.len() > 0 && b.len() > 0 && a[0] == b[0] {
        lemma_bytes_lt_total(a.drop_first(), b.drop_first());
        if a.drop_first() == b.drop_first() {
            assert(a =~= seq![a[0]] + a.drop_first());
            assert(b =~= seq![b[0]] + b.drop_first());
        }
    }
}

/// Distinct names are ordered one way or the other.
pub proof fn lemma_name_lt_total(a: Seq<char>, b: Seq<char>)
    requires
        a != b,
    ensures
        name_lt(a, b) || name_lt(b, a),
{
    vstd::utf8::encode_utf8_decode_utf8(a);
    vstd::utf8::encode_utf8_decode_utf8(b);
    lemma_bytes_lt_total(encode_utf8(a), encode_utf8(b));
}

// ─── Numbers ─────────────────────────────────────────────────────────────────

/// The decimal digit of `d < 10`.
pub open spec fn digit(d: nat) -> char {
    (48 + d) as char
}

/// `n` in decimal.
pub open spec fn decimal(n: nat) -> Seq<char>
    decreases n,
{
    if n < 10 {
        seq![digit(n)]
    } else {
        decimal(n / 10).push(digit(n % 10))
    }
}

/// `String::push`: appends one character.
#[verifier::external_body]
pub(crate) fn push_char(s: &mut String, c: char)
    ensures
        final(s)@ == old(s)@.push(c),
{
    s.push(c);
}

/// Appends `n` in decimal.
pub fn push_decimal(out: &mut String, n: u64)
    ensures
        final(out)@ == old(out)@ + decimal(n as nat),
    decreases n,
{
    if n >= 10 {
        push_decimal(out, n / 10);
    }
    push_char(out, ((48 + n % 10) as u8) as char);
}

/// A UTF-8 encoding takes at most four bytes per character.
pub proof fn lemma_encode_len(s: Seq<char>)
    ensures
        encode_utf8(s).len() <= 4 * s.len(),
    decreases s.len(),
{
    if s.len() > 0 {
        lemma_encode_len(s.drop_first());
    }
}

/// The UTF-8 encoding of a text that ends in a line break ends in the byte
/// `\n`.
pub proof fn lemma_encode_ends_in_newline(t: Seq<char>)
    requires
        t.len() > 0,
        t.last() == '\n',
    ensures
        encode_utf8(t).len() > 0,
        encode_utf8(t).last() == 10u8,
    decreases t.len(),
{
    if t.len() == 1 {
        assert(t[0] as u32 == 10u32);
        assert((10u32 & 0x7Fu32) as u8 == 10u8) by (bit_vector);
        assert(t.drop_first() =~= Seq::<char>::empty());
        assert(encode_utf8(t.drop_first()) =~= Seq::<u8>::empty());
        assert(vstd::utf8::leading_byte_width_1(10u32) == 10u8);
        assert(vstd::utf8::encode_scalar(10u32) =~= seq![10u8]);
        assert(encode_utf8(t) == vstd::utf8::encode_scalar(t[0] as u32) + encode_utf8(t.drop_first()));
        assert(encode_utf8(t) =~= seq![10u8]);
    } else {
        assert(t.drop_first().last() == t.last());
        lemma_encode_ends_in_newline(t.drop_first());
    }
}

/// Whether the text `p` occurs in the text `t`.
pub open spec fn text_contains(t: Seq<char>, p: Seq<char>) -> bool {
    exists|i: int| 0 <= i && i + p.len() <= t.len() && #[trigger] t.subrange(i, i + p.len()) == p
}

/// Encoding is compatible with concatenation.
pub proof fn lemma_encode_concat(a: Seq<char>, b: Seq<char>)
    ensures
        encode_utf8(a + b) == encode_utf8(a) + encode_utf8(b),
    decreases a.len(),
{
    if a.len() == 0 {
        assert(a + b =~= b);
        assert(encode_utf8(a) =~= Seq::<u8>::empty());
        assert(encode_utf8(a) + encode_utf8(b) =~= encode_utf8(b));
    } else {
        lemma_encode_concat(a.drop_first(), b);
        assert((a + b).drop_first() =~= a.drop_first() + b);
        assert((a + b)[0] == a[0]);
        let e = vstd::utf8::encode_scalar(a[0] as u32);
        assert(encode_utf8(a + b) == e + encode_utf8((a + b).drop_first()));
        assert(encode_utf8(a) == e + encode_utf8(a.drop_first()));
        assert(e + (encode_utf8(a.drop_first()) + encode_utf8(b)) =~= (e + encode_utf8(a.drop_first()))
            + encode_utf8(b));
    }
}

proof fn lemma_find_from_finds(h: Seq<u8>, p: Seq<u8>, k: int, x: int)
    requires
        0 <= k <= x,
        occurs_at(h, p, x),
    ensures
        find_from(h, p, k) >= 0,
    decreases x - k,
{
    if k < x && !occurs_at(h, p, k) {
        lemma_find_from_finds(h, p, k + 1, x);
    }
}

proof fn lemma_find_from_found(h: Seq<u8>, p: Seq<u8>, k: int)
    requires
        0 <= k,
        find_from(h, p, k) >= 0,
    ensures
        occurs_at(h, p, find_from(h, p, k)),
    decreases h.len() + 1 - k,
{
    if k + p.len() <= h.len() && !occurs_at(h, p, k) {
        lemma_find_from_found(h, p, k + 1);
    }
}

proof fn lemma_or_high(x: u8, m: u8)
    requires
        m >= 0x80,
    ensures
        (m | x) >= 0x80,
{
    assert(m >= 0x80 ==> (m | x) >= 0x80) by (bit_vector);
}

/// A character below 0x80 encodes as that one byte; any other character as
/// bytes of 0x80 and above.
proof fn lemma_scalar_bytes(c: char)
    ensures
        (c as u32) < 0x80 ==> vstd::utf8::encode_scalar(c as u32) == seq![(c as u32) as u8],
        (c as u32) >= 0x80 ==> vstd::utf8::encode_scalar(c as u32).len() >= 2 && forall|i: int|
            0 <= i < vstd::utf8::encode_scalar(c as u32).len() ==> #[trigger] vstd::utf8::encode_scalar(
                c as u32,
            )[i] >= 0x80,
{
    vstd::utf8::char_is_scalar(c);
    let v = c as u32;
    if v < 0x80 {
        assert(v < 0x80 ==> (v & 0x7F) as u8 == v as u8) by (bit_vector);
        assert(vstd::utf8::encode_scalar(v) =~= seq![v as u8]);
    } else {
        lemma_or_high(((v >> 6) & 0x1F) as u8, 0xC0);
        lemma_or_high(((v >> 12) & 0x0F) as u8, 0xE0);
        lemma_or_high(((v >> 18) & 0x7) as u8, 0xF0);
        lemma_or_high((v & 0x3F) as u8, 0x80);
        lemma_or_high(((v >> 6) & 0x3F) as u8, 0x80);
        lemma_or_high(((v >> 12) & 0x3F) as u8, 0x80);
    }
}

proof fn lemma_ascii_char_eq(c: char, d: char)
    requires
        (c as u32) < 0x80,
        '\0' <= d <= '\u{7f}',
        (c as u32) as u8 == d as u8,
    ensures
        c == d,
{
    let x = c as u32;
    let y = d as u32;
    assert(d as u8 == y as u8);
    assert(x < 0x80 && y < 0x80 && x as u8 == y as u8 ==> x == y) by (bit_vector);
    vstd::utf8::char_u32_cast(c, x);
    vstd::utf8::char_u32_cast(d, y);
}

/// Where the encoding of a text begins with the bytes of an ASCII text, the
/// text begins with it.
proof fn lemma_ascii_prefix(t: Seq<char>, p: Seq<char>)
    requires
        is_ascii_chars(p),
        p.len() <= encode_utf8(t).len(),
        encode_utf8(t).subrange(0, p.len() as int) == encode_utf8(p),
    ensures
        p.len() <= t.len(),
        t.subrange(0, p.len() as int) == p,
    decreases p.len(),
{
    is_ascii_chars_encode_utf8(p);
    if p.len() == 0 {
        assert(t.subrange(0, 0) =~= p);
    } else {
        if t.len() == 0 {
            assert(encode_utf8(t) =~= Seq::<u8>::empty());
        }
        let c = t[0];
        let e = vstd::utf8::encode_scalar(c as u32);
        lemma_scalar_bytes(c);
        assert(encode_utf8(t) == e + encode_utf8(t.drop_first()));
        assert(encode_utf8(t)[0] == encode_utf8(p)[0]);
        assert(p[0] as u8 == encode_utf8(p)[0]);
        assert(encode_utf8(t)[0] == e[0]);
        assert('\0' <= p[0] <= '\u{7f}');
        assert((p[0] as u8) < 0x80);
        assert((c as u32) < 0x80);
        lemma_ascii_char_eq(c, p[0]);
        let q = p.drop_first();
        assert(is_ascii_chars(q));
        is_ascii_chars_encode_utf8(q);
        assert(encode_utf8(p) == vstd::utf8::encode_scalar(p[0] as u32) + encode_utf8(q));
        assert(encode_utf8(t.drop_first()).subrange(0, q.len() as int) =~= encode_utf8(q)) by {
            assert forall|i: int| 0 <= i < q.len() implies encode_utf8(t.drop_first())[i] == encode_utf8(q)[i] by {
                assert(encode_utf8(t)[i + 1] == encode_utf8(t.drop_first())[i]);
                assert(encode_utf8(p)[i + 1] == encode_utf8(q)[i]);
                assert(encode_utf8(t).subrange(0, p.len() as int)[i + 1] == encode_utf8(t)[i + 1]);
            }
        }
        lemma_ascii_prefix(t.drop_first(), q);
        assert(t.subrange(0, p.len() as int) =~= seq![c] + t.drop_first().subrange(0, q.len() as int));
        assert(p =~= seq![p[0]] + q);
    }
}

/// Where the bytes of an ASCII text occur in the encoding of a text, the
/// text holds it.
proof fn lemma_ascii_occurs(t: Seq<char>, p: Seq<char>, k: int)
    requires
        is_ascii_chars(p),
        p.len() > 0,
        occurs_at(encode_utf8(t), encode_utf8(p), k),
    ensures
        text_contains(t, p),
    decreases t.len(),
{
    is_ascii_chars_encode_utf8(p);
    if t.len() == 0 {
        assert(encode_utf8(t) =~= Seq::<u8>::empty());
    }
    let c = t[0];
    let e = vstd::utf8::encode_scalar(c as u32);
    let r = t.drop_first();
    lemma_scalar_bytes(c);
    assert(encode_utf8(t) == e + encode_utf8(r));
    let ep = encode_utf8(p);
    if k >= e.len() {
        assert(occurs_at(encode_utf8(r), ep, k - e.len())) by {
            assert(encode_utf8(r).subrange(k - e.len(), k - e.len() + ep.len()) =~= encode_utf8(t).subrange(
                k,
                k + ep.len(),
            ));
        }
        lemma_ascii_occurs(r, p, k - e.len());
        let i = choose|i: int| 0 <= i && i + p.len() <= r.len() && #[trigger] r.subrange(i, i + p.len()) == p;
        assert(t.subrange(i + 1, i + 1 + p.len()) =~= r.subrange(i, i + p.len()));
    } else {
        assert(encode_utf8(t)[k] == ep[0]);
        assert(encode_utf8(t)[k] == e[k]);
        assert(ep[0] == p[0] as u8);
        assert('\0' <= p[0] <= '\u{7f}');
        assert((c as u32) < 0x80);
        assert(k == 0);
        assert(encode_utf8(t).subrange(0, p.len() as int) =~= ep);
        lemma_ascii_prefix(t, p);
        assert(t.subrange(0, 0 + p.len() as int) == p);
    }
}

/// For valid UTF-8, looking for the bytes of an ASCII text is looking for
/// the text in what the bytes decode to.
pub proof fn lemma_bytes_contain_text(d: Seq<u8>, p: Seq<char>)
    requires
        valid_utf8(d),
        is_ascii_chars(p),
        p.len() > 0,
    ensures
        contains_bytes(d, encode_utf8(p)) <==> text_contains(decode_utf8(d), p),
{
    let t = decode_utf8(d);
    vstd::utf8::decode_utf8_encode_utf8(d);
    assert(encode_utf8(t) == d);
    if contains_bytes(d, encode_utf8(p)) {
        lemma_find_from_found(d, encode_utf8(p), 0);
        lemma_ascii_occurs(t, p, find_from(d, encode_utf8(p), 0));
    }
    if text_contains(t, p) {
        let i = choose|i: int| 0 <= i && i + p.len() <= t.len() && #[trigger] t.subrange(i, i + p.len()) == p;
        let a = t.subrange(0, i);
        let b = t.subrange(i + p.len() as int, t.len() as int);
        assert(t =~= a + p + b);
        lemma_encode_concat(a, p);
        lemma_encode_concat(a + p, b);
        let ea = encode_utf8(a);
        let ep = encode_utf8(p);
        assert(d == ea + ep + encode_utf8(b));
        assert(occurs_at(d, ep, ea.len() as int)) by {
            assert(d.subrange(ea.len() as int, (ea.len() + ep.len()) as int) =~= ep);
        }
        lemma_find_from_finds(d, ep, 0, ea.len() as int);
    }
}

/// Whether `p` occurs in `h` ([`find_from`] finds it).
pub open spec fn contains_bytes(h: Seq<u8>, p: Seq<u8>) -> bool {
    find_from(h, p, 0) >= 0
}

/// Whether `p` occurs in `h` ([`contains_bytes`]).
pub fn bytes_contain(h: &[u8], p: &[u8]) -> (r: bool)
    ensures
        r == contains_bytes(h@, p@),
{
    if p.len() > h.len() {
        return false;
    }
    let last = h.len() - p.len();
    let mut k: usize = 0;
    loop
        invariant
            k <= last,
            last + p@.len() == h@.len(),
            h@.len() == h.len(),
            p@.len() == p.len(),
            find_from(h@, p@, 0) == find_from(h@, p@, k as int),
        decreases last - k,
    {
        if bytes_eq(vstd::slice::slice_subrange(h, k, k + p.len()), p) {
            return true;
        }
        if k == last {
            proof {
                assert(find_from(h@, p@, k as int + 1) == -1);
            }
            return false;
        }
        k += 1;
    }
}

} // verus!
