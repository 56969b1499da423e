//! Refactor-aware blame, computed on demand.
//!
//! For each top-level item of a file's newest committed version, [`blame`]
//! reports the commit that last changed it, following it through renames, so
//! that a pure rename does not reset its history: the item is matched
//! commit-to-commit with [`match_defs`], newest to oldest, and blamed on the
//! oldest commit up to which its body is unchanged. The history itself (the
//! commits that touched the file and its bytes at each) is read by the caller.

use vstd::prelude::*;
use crate::identity::{corr_views, match_defs, matching, new_name, Corr, Correspondence};
use crate::printer::{inspect, inspected, rust_parses, Def};
use crate::text::{push_char, push_str, str_eq};
use vstd::string::StringExecFns;
use crate::Error;

verus! {

/// The commit that last changed one definition.
#[derive(Debug, Clone, PartialEq, Eq)]
pub struct Blame {
    /// Short commit hash.
    pub commit: String,
    /// Kind of the definition (`fn`, `struct`, …).
    pub kind: &'static str,
    /// The definition's name in the current version.
    pub name: String,
}

/// How a tracked item (by its newer name) corresponds in the older version.
pub enum StepSpec {
    Unchanged,
    /// Renamed, body unchanged; the older name.
    Renamed(Seq<char>),
    /// Body edited.
    Changed,
    /// Not present in the older version.
    Added,
}

/// The first correspondence that speaks of `name` on its newer side decides.
pub open spec fn classify_spec(corr: Seq<Corr>, name: Seq<char>) -> StepSpec
    decreases corr.len(),
{
    if corr.len() == 0 {
        StepSpec::Added
    } else {
        match corr[0] {
            Corr::Unchanged(n) if n == name => StepSpec::Unchanged,
            Corr::Renamed(f, t) if t == name => StepSpec::Renamed(f),
            Corr::RenamedEdited(_, t, _) if t == name => StepSpec::Changed,
            Corr::Modified(n) if n == name => StepSpec::Changed,
            Corr::Added(n) if n == name => StepSpec::Added,
            _ => classify_spec(corr.drop_first(), name),
        }
    }
}

/// The index of the commit an item named `name` at commit `i` is blamed on:
/// walking to older commits while its body stays the same (under the same
/// or an older name).
#[verifier::opaque]
pub open spec fn trace(defs: Seq<Seq<Def>>, name: Seq<char>, i: int) -> int
    decreases defs.len() - i,
{
    if i < 0 || i + 1 >= defs.len() {
        i
    } else {
        match classify_spec(matching(defs[i + 1], defs[i]), name) {
            StepSpec::Unchanged => trace(defs, name, i + 1),
            StepSpec::Renamed(from) => trace(defs, from, i + 1),
            _ => i,
        }
    }
}

/// Whether `cs[x]` is the first correspondence that names `name` on its
/// newer side.
pub open spec fn first_naming(cs: Seq<Corr>, name: Seq<char>, x: int) -> bool {
    &&& 0 <= x < cs.len()
    &&& new_name(cs[x]) == Some(name)
    &&& forall|y: int| 0 <= y < x ==> new_name(#[trigger] cs[y]) != Some(name)
}

proof fn lemma_classify_first(cs: Seq<Corr>, name: Seq<char>, x: int)
    requires
        first_naming(cs, name, x),
    ensures
        classify_spec(cs, name) == match cs[x] {
            Corr::Unchanged(_) => StepSpec::Unchanged,
            Corr::Renamed(f, _) => StepSpec::Renamed(f),
            Corr::Added(_) => StepSpec::Added,
            _ => StepSpec::Changed,
        },
    decreases x,
{
    if x > 0 {
        assert(new_name(cs[0]) != Some(name));
        let rest = cs.drop_first();
        assert forall|y: int| 0 <= y < x - 1 implies new_name(#[trigger] rest[y]) != Some(name) by {
            assert(rest[y] == cs[y + 1]);
        }
        assert(rest[x - 1] == cs[x]);
        lemma_classify_first(rest, name, x - 1);
    }
}

proof fn lemma_classify_unnamed(cs: Seq<Corr>, name: Seq<char>)
    requires
        forall|y: int| 0 <= y < cs.len() ==> new_name(#[trigger] cs[y]) != Some(name),
    ensures
        classify_spec(cs, name) is Added,
    decreases cs.len(),
{
    if cs.len() > 0 {
        assert(new_name(cs[0]) != Some(name));
        let rest = cs.drop_first();
        assert forall|y: int| 0 <= y < rest.len() implies new_name(#[trigger] rest[y]) != Some(name) by {
            assert(rest[y] == cs[y + 1]);
        }
        lemma_classify_unnamed(rest, name);
    }
}

/// Blame passes only an unchanged body: the item named `name` at commit `i`
/// is followed to the older commit `i + 1` exactly when the correspondence
/// that names it on the newer side (the first one) is `Unchanged`, or a pure
/// `Renamed`, under whose older name it is then followed. An edited body
/// (`Modified`, or `RenamedEdited`: renamed and edited), an item added at
/// `i`, or one that no correspondence names, is blamed on commit `i`.
pub proof fn lemma_blame_stops_at_edits(defs: Seq<Seq<Def>>, name: Seq<char>, i: int)
    requires
        0 <= i,
        i + 1 < defs.len(),
    ensures
        forall|x: int|
            #[trigger] first_naming(matching(defs[i + 1], defs[i]), name, x) ==> match matching(
                defs[i + 1],
                defs[i],
            )[x] {
                Corr::Unchanged(_) => trace(defs, name, i) == trace(defs, name, i + 1),
                Corr::Renamed(f, _) => trace(defs, name, i) == trace(defs, f, i + 1),
                _ => trace(defs, name, i) == i,
            },
        (forall|y: int|
            0 <= y < matching(defs[i + 1], defs[i]).len() ==> new_name(#[trigger] matching(defs[i + 1], defs[i])[y])
                != Some(name)) ==> trace(defs, name, i) == i,
{
    reveal(trace);
    let cs = matching(defs[i + 1], defs[i]);
    assert forall|x: int| #[trigger] first_naming(cs, name, x) implies match cs[x] {
        Corr::Unchanged(_) => trace(defs, name, i) == trace(defs, name, i + 1),
        Corr::Renamed(f, _) => trace(defs, name, i) == trace(defs, f, i + 1),
        _ => trace(defs, name, i) == i,
    } by {
        lemma_classify_first(cs, name, x);
    }
    if forall|y: int| 0 <= y < cs.len() ==> new_name(#[trigger] cs[y]) != Some(name) {
        lemma_classify_unnamed(cs, name);
    }
}

/// The first seven characters of a commit hash (all of it when shorter).
pub open spec fn short(commit: Seq<char>) -> Seq<char> {
    if commit.len() <= 7 {
        commit
    } else {
        commit.take(7)
    }
}

/// Whether `b` blames head definition `d` on the commit `trace` finds.
pub open spec fn blame_is(b: Blame, d: Def, commits: Seq<Seq<char>>, defs: Seq<Seq<Def>>) -> bool {
    &&& b.commit@ == short(commits[trace(defs, d.name@, 0)])
    &&& b.kind == d.kind
    &&& b.name@ == d.name@
}

/// The definitions at each commit, as sequences.
pub open spec fn defs_views(defs: Seq<Vec<Def>>) -> Seq<Seq<Def>> {
    defs.map_values(|v: Vec<Def>| v@)
}

/// The commits, as character sequences.
pub open spec fn commit_views(commits: Seq<String>) -> Seq<Seq<char>> {
    commits.map_values(|c: String| c@)
}

/// What an item steps to in the older version ([`classify_spec`]).
enum Step {
    Unchanged,
    Renamed(String),
    Changed,
    Added,
}

/// How the item named `name` corresponds in the older version.
fn classify(corr: &[Correspondence], name: &str) -> (r: Step)
    ensures
        match classify_spec(corr_views(corr@), name@) {
            StepSpec::Unchanged => r is Unchanged,
            StepSpec::Renamed(f) => r matches Step::Renamed(s) && s@ == f,
            StepSpec::Changed => r is Changed,
            StepSpec::Added => r is Added,
        },
{
    let ghost cs = corr_views(corr@);
    let mut i: usize = 0;
    proof {
        assert(cs.skip(0) =~= cs);
    }
    while i < corr.len()
        invariant
            i <= corr@.len(),
            cs == corr_views(corr@),
            classify_spec(cs, name@) == classify_spec(cs.skip(i as int), name@),
        decreases corr.len() - i,
    {
        proof {
            assert(cs.skip(i as int).drop_first() =~= cs.skip(i + 1));
            assert(cs.skip(i as int)[0] == corr@[i as int]@);
        }
        match &corr[i] {
            Correspondence::Unchanged { name: n } => {
                if str_eq(n.as_str(), name) {
                    return Step::Unchanged;
                }
            },
            Correspondence::Renamed { from, to } => {
                if str_eq(to.as_str(), name) {
                    return Step::Renamed(from.clone());
                }
            },
            Correspondence::RenamedEdited { to, .. } => {
                if str_eq(to.as_str(), name) {
                    return Step::Changed;
                }
            },
            Correspondence::Modified { name: n } => {
                if str_eq(n.as_str(), name) {
                    return Step::Changed;
                }
            },
            Correspondence::Added { name: n } => {
                if str_eq(n.as_str(), name) {
                    return Step::Added;
                }
            },
            _ => {},
        }
        i += 1;
    }
    Step::Added
}

/// The first seven characters of a commit hash ([`short`]).
fn short_exec(commit: &str) -> (r: String)
    ensures
        r@ == short(commit@),
{
    let cs = crate::html::chars_vec(commit);
    let mut s = String::new();
    let mut i: usize = 0;
    while i < cs.len() && i < 7
        invariant
            i <= cs@.len(),
            i <= 7,
            cs@ == commit@,
            s@ == cs@.take(i as int),
        decreases cs.len() - i,
    {
        push_char(&mut s, cs[i]);
        proof {
            assert(cs@.take(i + 1) =~= cs@.take(i as int).push(cs@[i as int]));
        }
        i += 1;
    }
    proof {
        if cs@.len() <= 7 {
            assert(cs@.take(cs@.len() as int) =~= cs@);
        }
    }
    s
}

/// Blames each definition of the newest version (`defs[0]`) on the commit
/// that last changed its body, walking the history newest to oldest
/// ([`trace`]); `commits` and `defs` run in the same order.
pub fn blame_defs(commits: &Vec<String>, defs: &Vec<Vec<Def>>) -> (r: Vec<Blame>)
    requires
        commits@.len() == defs@.len(),
        defs@.len() > 0,
    ensures
        r@.len() == defs@[0]@.len(),
        forall|h: int|
            0 <= h < r@.len() ==> blame_is(#[trigger] r@[h], defs@[0]@[h], commit_views(commits@), defs_views(defs@)),
{
    reveal(trace);
    let ghost ds = defs_views(defs@);
    let ghost cv = commit_views(commits@);
    let mut out: Vec<Blame> = Vec::new();
    let mut h: usize = 0;
    while h < defs[0].len()
        invariant
            commits@.len() == defs@.len(),
            defs@.len() > 0,
            ds == defs_views(defs@),
            cv == commit_views(commits@),
            h <= defs@[0]@.len(),
            out@.len() == h,
            forall|k: int| 0 <= k < h ==> blame_is(#[trigger] out@[k], defs@[0]@[k], cv, ds),
        decreases defs[0].len() - h,
    {
        let head = &defs[0][h];
        let mut name = head.name.clone();
        let mut i: usize = 0;
        let mut done = false;
        proof {
            reveal(trace);
            assert(ds[0] == defs@[0]@);
        }
        let last = commits.len() - 1;
        while !done && i < last
            invariant
                commits@.len() == defs@.len(),
                last + 1 == defs@.len(),
                ds == defs_views(defs@),
                ds.len() == defs@.len(),
                i < defs@.len(),
                trace(ds, head.name@, 0) == if done {
                    i as int
                } else {
                    trace(ds, name@, i as int)
                },
            decreases defs@.len() - i, if done { 0int } else { 1int },
        {
            let corr = match_defs(defs[i + 1].as_slice(), defs[i].as_slice());
            proof {
                reveal(trace);
                assert(ds[i + 1] == defs@[i + 1]@);
                assert(ds[i as int] == defs@[i as int]@);
            }
            match classify(corr.as_slice(), name.as_str()) {
                Step::Unchanged => {
                    i += 1;
                },
                Step::Renamed(from) => {
                    name = from;
                    i += 1;
                },
                _ => {
                    done = true;
                },
            }
        }
        proof {
            reveal(trace);
            assert(cv[i as int] == commits@[i as int]@);
        }
        out.push(Blame { commit: short_exec(commits[i].as_str()), kind: head.kind, name: head.name.clone() });
        h += 1;
    }
    out
}

/// `bs` is the blame of the definitions `d` found at each commit: the newest
/// version's as the parser gives them, each older one's as the parser gives
/// them or none.
#[verifier::opaque]
pub open spec fn history_blame(bs: Seq<Blame>, d: Seq<Seq<Def>>, commits: Seq<String>, sources: Seq<Vec<u8>>) -> bool {
    &&& d.len() == commits.len()
    &&& inspected(sources[0]@, d[0])
    &&& forall|i: int|
        0 < i < d.len() ==> if rust_parses(sources[i]@) {
            inspected(sources[i]@, #[trigger] d[i])
        } else {
            d[i].len() == 0
        }
    &&& bs.len() == d[0].len()
    &&& forall|h: int| 0 <= h < bs.len() ==> blame_is(#[trigger] bs[h], d[0][h], commit_views(commits), d)
}

/// Blames every top-level item of a file's newest committed version, following
/// each item through renames to the commit that last changed its body.
///
/// `commits` are the commits that touched `file`, newest first, and `sources`
/// the file's bytes at each. [`Error::Driver`] when there is no commit; the
/// parser's error when the newest version does not parse (older versions
/// that do not parse count as having no definitions); otherwise the blame of
/// [`blame_defs`] over the definitions found at each commit.
#[verifier::spinoff_prover]
pub fn blame(file: &str, commits: &Vec<String>, sources: &Vec<Vec<u8>>) -> (r: Result<Vec<Blame>, Error>)
    requires
        commits@.len() == sources@.len(),
    ensures
        (r matches Err(e) && e is Driver) <==> commits@.len() == 0,
        (r matches Err(e) && e is Parsing) <==> commits@.len() > 0 && !rust_parses(sources@[0]@),
        r matches Err(e) ==> e is Driver || e is Parsing,
        r is Ok ==> exists|d: Seq<Seq<Def>>| #[trigger] history_blame(r->Ok_0@, d, commits@, sources@),
{
    if commits.len() == 0 {
        let mut m = String::from_str(file);
        push_str(&mut m, ": no committed history");
        return Err(Error::Driver(m));
    }
    let head = match inspect(sources[0].as_slice()) {
        Ok(d) => d,
        Err(e) => return Err(e),
    };
    let mut defs: Vec<Vec<Def>> = Vec::new();
    defs.push(head);
    let mut i: usize = 1;
    while i < sources.len()
        invariant
            1 <= i <= sources@.len(),
            commits@.len() == sources@.len(),
            defs@.len() == i,
            inspected(sources@[0]@, defs@[0]@),
            forall|k: int|
                0 < k < i ==> if rust_parses(sources@[k]@) {
                    inspected(sources@[k]@, #[trigger] defs@[k]@)
                } else {
                    defs@[k]@.len() == 0
                },
        decreases sources.len() - i,
    {
        let d = match inspect(sources[i].as_slice()) {
            Ok(d) => d,
            Err(_) => Vec::new(),
        };
        defs.push(d);
        i += 1;
    }
    let bs = blame_defs(commits, &defs);
    proof {
        let d = defs_views(defs@);
        assert(d[0] == defs@[0]@);
        assert forall|k: int| 0 < k < d.len() implies if rust_parses(sources@[k]@) {
            inspected(sources@[k]@, #[trigger] d[k])
        } else {
            d[k].len() == 0
        } by {
            assert(d[k] == defs@[k]@);
        }
        assert(history_blame(bs@, d, commits@, sources@)) by {
            reveal(history_blame);
        }
        assert(exists|d: Seq<Seq<Def>>| #[trigger] history_blame(bs@, d, commits@, sources@));
    }
    let res: Result<Vec<Blame>, Error> = Ok(bs);
    proof {
        assert(res->Ok_0 == bs);
        assert(res->Ok_0@ == bs@);
        assert(exists|d: Seq<Seq<Def>>| #[trigger] history_blame(res->Ok_0@, d, commits@, sources@));
    }
    res
}

} // verus!
