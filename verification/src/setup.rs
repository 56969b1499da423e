//! The `.gitattributes` lines that route the supported languages through
//! git-ast.
//!
//! The clean/smudge filter applies to Rust, JSON and HTML; the structural
//! merge and diff drivers to JSON. Adding the lines is idempotent: a line is
//! appended only when no line of the file, trimmed, already reads it.

use vstd::prelude::*;
use crate::filters::find_char;
use crate::html::{chars_vec, string_of};
use crate::text::{lemma_seq_assoc, push_char, push_str, str_eq, trim, trim_chars, trim_end_chars, trim_start_chars};
use vstd::string::StringExecFns;

verus! {

broadcast use lemma_seq_assoc;

/// The lines git-ast needs in `.gitattributes`, in order.
pub open spec fn attr_lines() -> Seq<Seq<char>> {
    seq![
        "*.rs filter=git-ast"@,
        "*.json filter=git-ast"@,
        "*.json merge=git-ast"@,
        "*.json diff=git-ast"@,
        "*.html filter=git-ast"@,
        "*.htm filter=git-ast"@,
    ]
}

/// The line-break separated segments of `s` from index `i` on.
pub open spec fn segments(s: Seq<char>, i: int) -> Seq<Seq<char>>
    decreases s.len() + 1 - i,
{
    if i < 0 || i > s.len() {
        Seq::empty()
    } else {
        let j = find_char(s, '\n', i);
        proof {
            lemma_find_char_bounds(s, '\n', i);
        }
        if j < 0 {
            seq![s.subrange(i, s.len() as int)]
        } else {
            seq![s.subrange(i, j)] + segments(s, j + 1)
        }
    }
}

/// Whether some line of `s`, trimmed, reads `line`.
pub open spec fn has_line(s: Seq<char>, line: Seq<char>) -> bool {
    exists|k: int| 0 <= k < segments(s, 0).len() && trim_chars(#[trigger] segments(s, 0)[k]) == line
}

/// `s` with `line` appended on a line of its own, unless it is there already.
pub open spec fn with_line(s: Seq<char>, line: Seq<char>) -> Seq<char> {
    if has_line(s, line) {
        s
    } else {
        (if s.len() > 0 && s.last() != '\n' {
            s.push('\n')
        } else {
            s
        }) + line + seq!['\n']
    }
}

/// `s` with the first `k` of git-ast's lines ensured, in order.
pub open spec fn with_lines(s: Seq<char>, k: int) -> Seq<char>
    decreases k,
{
    if k <= 0 {
        s
    } else {
        with_line(with_lines(s, k - 1), attr_lines()[k - 1])
    }
}

/// The first `c` at or after `i` is one, and none comes before it.
pub proof fn lemma_find_char_bounds(s: Seq<char>, c: char, i: int)
    requires
        0 <= i,
    ensures
        find_char(s, c, i) == -1 || (i <= find_char(s, c, i) < s.len() && s[find_char(s, c, i)] == c),
        forall|k: int| i <= k < (if find_char(s, c, i) < 0 { s.len() as int } else { find_char(s, c, i) }) ==> s[k] != c,
    decreases s.len() - i,
{
    if i < s.len() && s[i] != c {
        lemma_find_char_bounds(s, c, i + 1);
    }
}

/// Whether some line of `s`, trimmed, reads `line` ([`has_line`]).
fn has_line_exec(s: &str, line: &str) -> (r: bool)
    ensures
        r == has_line(s@, line@),
{
    let cs = chars_vec(s);
    let ghost all = segments(cs@, 0);
    let ghost mut seen: Seq<Seq<char>> = Seq::empty();
    let mut i: usize = 0;
    loop
        invariant
            cs@ == s@,
            all == segments(cs@, 0),
            i <= cs@.len(),
            all == seen + segments(cs@, i as int),
            forall|k: int| 0 <= k < seen.len() ==> trim_chars(#[trigger] seen[k]) != line@,
        decreases cs@.len() - i,
    {
        let mut j = i;
        while j < cs.len() && cs[j] != '\n'
            invariant
                i <= j <= cs@.len(),
                find_char(cs@, '\n', i as int) == find_char(cs@, '\n', j as int),
            decreases cs@.len() - j,
        {
            j += 1;
        }
        let seg = string_of(&cs, i, j);
        let t = trim(seg.as_str());
        proof {
            assert(seg@ == cs@.subrange(i as int, j as int));
        }
        if str_eq(t, line) {
            proof {
                assert(segments(cs@, i as int)[0] == seg@);
                assert(all[seen.len() as int] == seg@);
            }
            return true;
        }
        if j == cs.len() {
            proof {
                assert(segments(cs@, i as int) =~= seq![seg@]);
                assert forall|k: int| 0 <= k < all.len() implies trim_chars(#[trigger] all[k]) != line@ by {
                    if k < seen.len() {
                        assert(all[k] == seen[k]);
                    } else {
                        assert(all[k] == seg@);
                    }
                }
            }
            return false;
        }
        proof {
            assert(segments(cs@, i as int) == seq![seg@] + segments(cs@, j + 1));
            let old_seen = seen;
            seen = seen.push(seg@);
            assert(all =~= seen + segments(cs@, j + 1));
            assert forall|k: int| 0 <= k < seen.len() implies trim_chars(#[trigger] seen[k]) != line@ by {
                if k < old_seen.len() {
                    assert(seen[k] == old_seen[k]);
                }
            }
        }
        i = j + 1;
    }
}

/// The line of index `k` of [`attr_lines`].
fn attr_line(k: usize) -> (r: &'static str)
    requires
        k < 6,
    ensures
        r@ == attr_lines()[k as int],
{
    if k == 0 {
        "*.rs filter=git-ast"
    } else if k == 1 {
        "*.json filter=git-ast"
    } else if k == 2 {
        "*.json merge=git-ast"
    } else if k == 3 {
        "*.json diff=git-ast"
    } else if k == 4 {
        "*.html filter=git-ast"
    } else {
        "*.htm filter=git-ast"
    }
}

/// `existing` `.gitattributes` text with each of git-ast's lines appended
/// unless already present ([`with_lines`]); `None` when nothing changes.
pub fn ensure_attributes(existing: &str) -> (r: Option<String>)
    ensures
        match r {
            Some(t) => t@ == with_lines(existing@, 6) && t@ != existing@,
            None => with_lines(existing@, 6) == existing@,
        },
{
    let mut updated = String::from_str(existing);
    let mut changed = false;
    let mut k: usize = 0;
    while k < 6
        invariant
            k <= 6,
            updated@ == with_lines(existing@, k as int),
            changed ==> updated@.len() > existing@.len(),
            !changed ==> updated@ == existing@,
        decreases 6 - k,
    {
        let line = attr_line(k);
        if !has_line_exec(updated.as_str(), line) {
            if !updated.as_str().is_empty() && !crate::html::ends_with_char(updated.as_str(), '\n') {
                push_char(&mut updated, '\n');
            }
            push_str(&mut updated, line);
            push_char(&mut updated, '\n');
            changed = true;
        }
        k += 1;
    }
    if changed {
        Some(updated)
    } else {
        None
    }
}

// ─── Idempotence ─────────────────────────────────────────────────────────────

/// Searching `a + b` from inside `b` is searching `b`, shifted.
proof fn lemma_find_char_shift(a: Seq<char>, b: Seq<char>, c: char, i: int)
    requires
        0 <= i,
    ensures
        find_char(a + b, c, a.len() + i) == (if find_char(b, c, i) < 0 {
            -1
        } else {
            a.len() + find_char(b, c, i)
        }),
    decreases b.len() - i,
{
    if i < b.len() {
        assert((a + b)[a.len() + i] == b[i]);
        if b[i] != c {
            lemma_find_char_shift(a, b, c, i + 1);
            assert(a.len() + i + 1 == a.len() + (i + 1));
        }
    }
}

/// Searching `a + b` from inside `a` finds what `a` holds, else what `b` holds.
proof fn lemma_find_char_prefix(a: Seq<char>, b: Seq<char>, c: char, i: int)
    requires
        0 <= i <= a.len(),
    ensures
        find_char(a + b, c, i) == (if find_char(a, c, i) >= 0 {
            find_char(a, c, i)
        } else if find_char(b, c, 0) < 0 {
            -1
        } else {
            a.len() + find_char(b, c, 0)
        }),
    decreases a.len() - i,
{
    if i == a.len() {
        lemma_find_char_shift(a, b, c, 0);
    } else {
        assert((a + b)[i] == a[i]);
        if a[i] != c {
            lemma_find_char_prefix(a, b, c, i + 1);
        }
    }
}

/// The segments of `a + b` from inside `b` are those of `b`.
proof fn lemma_segments_shift(a: Seq<char>, b: Seq<char>, i: int)
    requires
        0 <= i <= b.len(),
    ensures
        segments(a + b, a.len() + i) == segments(b, i),
    decreases b.len() - i,
{
    let j = find_char(b, '\n', i);
    lemma_find_char_bounds(b, '\n', i);
    lemma_find_char_shift(a, b, '\n', i);
    if j < 0 {
        assert((a + b).subrange(a.len() + i, (a + b).len() as int) =~= b.subrange(i, b.len() as int));
    } else {
        assert((a + b).subrange(a.len() + i, a.len() + j) =~= b.subrange(i, j));
        lemma_segments_shift(a, b, j + 1);
        assert(a.len() + j + 1 == a.len() + (j + 1));
    }
}

/// The segments of `a + b`: those of `a` but its last, which runs on into the
/// first of `b`, then the rest of `b`'s.
proof fn lemma_segments_concat(a: Seq<char>, b: Seq<char>, i: int)
    requires
        0 <= i <= a.len(),
    ensures
        segments(a, i).len() >= 1,
        segments(b, 0).len() >= 1,
        segments(a + b, i) == segments(a, i).drop_last() + seq![segments(a, i).last() + segments(b, 0)[0]]
            + segments(b, 0).drop_first(),
    decreases a.len() - i,
{
    let j = find_char(a, '\n', i);
    lemma_find_char_bounds(a, '\n', i);
    lemma_find_char_bounds(b, '\n', 0);
    lemma_find_char_prefix(a, b, '\n', i);
    let sa = segments(a, i);
    let sb = segments(b, 0);
    let f = find_char(b, '\n', 0);
    if j >= 0 {
        lemma_segments_concat(a, b, j + 1);
        assert((a + b).subrange(i, j) =~= a.subrange(i, j));
        let rest = segments(a, j + 1);
        assert(sa == seq![a.subrange(i, j)] + rest);
        assert(sa.drop_last() =~= seq![a.subrange(i, j)] + rest.drop_last());
        assert(sa.last() == rest.last());
        assert(segments(a + b, i) =~= sa.drop_last() + seq![sa.last() + sb[0]] + sb.drop_first());
    } else if f < 0 {
        assert((a + b).subrange(i, (a + b).len() as int) =~= a.subrange(i, a.len() as int) + b);
        assert(sb == seq![b.subrange(0, b.len() as int)]);
        assert(b.subrange(0, b.len() as int) =~= b);
        assert(segments(a + b, i) =~= sa.drop_last() + seq![sa.last() + sb[0]] + sb.drop_first());
    } else {
        assert((a + b).subrange(i, a.len() + f) =~= a.subrange(i, a.len() as int) + b.subrange(0, f));
        lemma_segments_shift(a, b, f + 1);
        assert(a.len() + f + 1 == a.len() + (f + 1));
        assert(sb == seq![b.subrange(0, f)] + segments(b, f + 1));
        assert(segments(a + b, i) =~= sa.drop_last() + seq![sa.last() + sb[0]] + sb.drop_first());
    }
}

/// The segments of a lone line break.
proof fn lemma_segments_newline()
    ensures
        segments(seq!['\n'], 0) == seq![Seq::<char>::empty(), Seq::<char>::empty()],
{
    let b = seq!['\n'];
    assert(find_char(b, '\n', 0) == 0);
    assert(find_char(b, '\n', 1) == -1);
    assert(b.subrange(0, 0) =~= Seq::<char>::empty());
    assert(b.subrange(1, 1) =~= Seq::<char>::empty());
    assert(segments(b, 1) == seq![Seq::<char>::empty()]);
    assert(segments(b, 0) =~= seq![Seq::<char>::empty(), Seq::<char>::empty()]);
}

/// A text ending in a line break ends with an empty segment.
proof fn lemma_segments_trailing(s: Seq<char>)
    requires
        s.len() > 0,
        s.last() == '\n',
    ensures
        segments(s, 0).len() >= 1,
        segments(s, 0).last() == Seq::<char>::empty(),
{
    let a = s.drop_last();
    assert(s =~= a + seq!['\n']);
    lemma_segments_newline();
    lemma_segments_concat(a, seq!['\n'], 0);
}

/// A line without a break, followed by one, is that line and an empty segment.
proof fn lemma_segments_line(l: Seq<char>)
    requires
        forall|k: int| 0 <= k < l.len() ==> l[k] != '\n',
    ensures
        segments(l + seq!['\n'], 0) == seq![l, Seq::<char>::empty()],
{
    lemma_find_char_bounds(l, '\n', 0);
    assert(l.subrange(0, l.len() as int) =~= l);
    assert(segments(l, 0) == seq![l]);
    lemma_segments_newline();
    lemma_segments_concat(l, seq!['\n'], 0);
    assert(l + Seq::<char>::empty() =~= l);
    assert(segments(l + seq!['\n'], 0) =~= seq![l, Seq::<char>::empty()]);
}

/// The empty text trims to nothing.
#[verifier::spinoff_prover]
proof fn lemma_trim_empty()
    ensures
        trim_chars(Seq::<char>::empty()) == Seq::<char>::empty(),
{
}

/// What one line needs to be appended and then found: not empty, no line
/// break in it, and no white space to trim at its ends.
pub open spec fn plain_line(l: Seq<char>) -> bool {
    &&& l.len() > 0
    &&& forall|k: int| 0 <= k < l.len() ==> l[k] != '\n'
    &&& trim_chars(l) == l
}

/// After [`with_line`], `l` is present, and every line present before still is.
#[verifier::spinoff_prover]
proof fn lemma_with_line(s: Seq<char>, l: Seq<char>, m: Seq<char>)
    requires
        plain_line(l),
        m.len() > 0,
    ensures
        has_line(with_line(s, l), l),
        has_line(s, m) ==> has_line(with_line(s, l), m),
{
    if has_line(s, l) {
        return;
    }
    let t = with_line(s, l);
    lemma_segments_concat(s, Seq::<char>::empty(), 0);
    let sa = segments(s, 0);
    lemma_segments_line(l);
    lemma_trim_empty();
    if s.len() > 0 && s.last() != '\n' {
        let b = seq!['\n'] + (l + seq!['\n']);
        assert(t =~= s + b);
        assert(find_char(b, '\n', 0) == 0);
        assert(b.subrange(0, 0) =~= Seq::<char>::empty());
        lemma_segments_shift(seq!['\n'], l + seq!['\n'], 0);
        assert(segments(b, 0) =~= seq![Seq::<char>::empty(), l, Seq::<char>::empty()]);
        lemma_segments_concat(s, b, 0);
        let st = segments(t, 0);
        assert(sa.last() + Seq::<char>::empty() =~= sa.last());
        assert(st =~= sa + seq![l, Seq::<char>::empty()]);
        assert(st[sa.len() as int] == l);
        assert(trim_chars(st[sa.len() as int]) == l);
        if has_line(s, m) {
            let k = choose|k: int| 0 <= k < sa.len() && trim_chars(#[trigger] sa[k]) == m;
            assert(st[k] == sa[k]);
        }
    } else {
        let b = l + seq!['\n'];
        assert(t =~= s + b);
        if s.len() == 0 {
            assert(find_char(s, '\n', 0) == -1);
            assert(s.subrange(0, 0) =~= Seq::<char>::empty());
            assert(sa == seq![Seq::<char>::empty()]);
        } else {
            lemma_segments_trailing(s);
        }
        assert(sa.last() == Seq::<char>::empty());
        lemma_segments_concat(s, b, 0);
        let st = segments(t, 0);
        assert(Seq::<char>::empty() + l =~= l);
        assert(st =~= sa.drop_last() + seq![l, Seq::<char>::empty()]);
        assert(st[sa.len() - 1] == l);
        assert(trim_chars(st[sa.len() - 1]) == l);
        if has_line(s, m) {
            let k = choose|k: int| 0 <= k < sa.len() && trim_chars(#[trigger] sa[k]) == m;
            if k < sa.len() - 1 {
                assert(st[k] == sa[k]);
            } else {
                assert(sa[k] == Seq::<char>::empty());
                assert(false);
            }
        }
    }
}

/// Each of git-ast's lines is a [`plain_line`].
#[verifier::spinoff_prover]
proof fn lemma_attr_lines_plain(j: int)
    requires
        0 <= j < 6,
    ensures
        plain_line(attr_lines()[j]),
{
    reveal_strlit("*.rs filter=git-ast");
    reveal_strlit("*.json filter=git-ast");
    reveal_strlit("*.json merge=git-ast");
    reveal_strlit("*.json diff=git-ast");
    reveal_strlit("*.html filter=git-ast");
    reveal_strlit("*.htm filter=git-ast");
    let l = attr_lines()[j];
    assert(l.len() > 0);
    assert(l.first() == '*');
    assert(l.last() == 't');
    assert(trim_end_chars(l) == l);
    assert(trim_start_chars(l) == l);
    assert forall|k: int| 0 <= k < l.len() implies l[k] != '\n' by {
        assert(l[k] != '\n');
    }
}

/// After the first `k` of git-ast's lines are ensured, each of them is present,
/// and so is every line that was present before.
proof fn lemma_with_lines_present(s: Seq<char>, k: int, m: Seq<char>)
    requires
        0 <= k <= 6,
        m.len() > 0,
    ensures
        forall|j: int| 0 <= j < k ==> has_line(with_lines(s, k), #[trigger] attr_lines()[j]),
        has_line(s, m) ==> has_line(with_lines(s, k), m),
    decreases k,
{
    if k > 0 {
        lemma_with_lines_present(s, k - 1, m);
        let prev = with_lines(s, k - 1);
        lemma_attr_lines_plain(k - 1);
        lemma_with_line(prev, attr_lines()[k - 1], m);
        assert forall|j: int| 0 <= j < k implies has_line(with_lines(s, k), #[trigger] attr_lines()[j]) by {
            if j < k - 1 {
                lemma_attr_lines_plain(j);
                lemma_with_lines_present(s, k - 1, attr_lines()[j]);
                lemma_with_line(prev, attr_lines()[k - 1], attr_lines()[j]);
            }
        }
    }
}

/// A text that has all of git-ast's lines is left as it is.
proof fn lemma_with_lines_fixed(t: Seq<char>, k: int)
    requires
        0 <= k <= 6,
        forall|j: int| 0 <= j < 6 ==> has_line(t, #[trigger] attr_lines()[j]),
    ensures
        with_lines(t, k) == t,
    decreases k,
{
    if k > 0 {
        lemma_with_lines_fixed(t, k - 1);
        assert(has_line(t, attr_lines()[k - 1]));
    }
}

/// Ensuring git-ast's lines is idempotent: on a text that already went through
/// it, it changes nothing, so [`ensure_attributes`] run on its own output
/// returns `None`.
pub proof fn lemma_ensure_idempotent(s: Seq<char>)
    ensures
        with_lines(with_lines(s, 6), 6) == with_lines(s, 6),
{
    lemma_attr_lines_plain(0);
    lemma_with_lines_present(s, 6, attr_lines()[0]);
    lemma_with_lines_fixed(with_lines(s, 6), 6);
}

} // verus!
