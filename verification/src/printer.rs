//! The canonical Rust printer.
//!
//! [`canonicalize`] parses Rust source with Tree-sitter and re-emits it in one
//! canonical style by walking the tree. It covers a documented subset of Rust
//! (`use`, `const`/`static`, named and unit structs, unit-variant enums, impl
//! blocks, functions with `let` statements and expressions, comments) and is
//! fail-closed: a syntax error is a [`Error::Parsing`], and any construct outside
//! the subset (visibility modifiers, generic parameters, `where` clauses,
//! function modifiers such as `async`, `const`, `unsafe` or `extern`,
//! patterns other than a name or `_`, receivers with a lifetime or a type) is a
//! [`Error::Generation`], so nothing is dropped silently. Receivers are printed
//! as `self`, `mut self`, `&self` or `&mut self`; output always ends in a line
//! break.
//!
//! The printing itself is [`print_source_file`], whose result is stated exactly
//! by the spec function [`source_file`] over the tree.

use vstd::prelude::*;
use crate::cst::{
    child_by_field, fidx, find_kind, first_kind, find_named, find_named_kind, first_named, first_named_kind, has,
    kind_is, node_str, parse_with, text, Cst, Grammar, cst_is, parse_spec,
};
use crate::text::{
    append_bytes, decimal, lemma_encode_ends_in_newline, hex_chars, hex_string, lemma_seq_assoc, push_decimal, push_str,
    replace_first, replace_first_bytes, str_eq, string_bytes, trim_end, trim_end_chars,
};
use crate::hash::{fnv1a, fnv1a_exec, hash_subtree, node_hash, postorder, sorted_u64};
pub use crate::hash::subtree_hashes;
use vstd::string::StringExecFns;
use crate::Error;
use vstd::utf8::{encode_utf8, encode_utf8_valid_utf8, valid_utf8};

verus! {

broadcast use lemma_seq_assoc;

// ─── Specification ───────────────────────────────────────────────────────────

/// Concatenation of two printed pieces; `None` (a construct that cannot be
/// printed) absorbs.
pub open spec fn cat(a: Option<Seq<char>>, b: Option<Seq<char>>) -> Option<Seq<char>> {
    match a {
        Some(x) => match b {
            Some(y) => Some(x + y),
            None => None,
        },
        None => None,
    }
}

/// A literal piece.
pub open spec fn l(s: &str) -> Option<Seq<char>> {
    Some(s@)
}

/// `d` levels of four-space indentation.
pub open spec fn indent(d: nat) -> Seq<char>
    decreases d,
{
    if d == 0 {
        Seq::empty()
    } else {
        indent((d - 1) as nat) + "    "@
    }
}

/// One level deeper (saturating).
pub open spec fn deeper(d: usize) -> usize {
    if d < usize::MAX {
        (d + 1) as usize
    } else {
        d
    }
}

/// Whether `k` is a leaf kind that prints as its own text.
pub open spec fn is_atom(k: Seq<char>) -> bool {
    k == "identifier"@ || k == "integer_literal"@ || k == "float_literal"@ || k
        == "primitive_type"@ || k == "string_literal"@ || k == "char_literal"@ || k
        == "boolean_literal"@ || k == "field_identifier"@ || k == "type_identifier"@ || k
        == "self"@
}

/// Whether `k` is a comment kind.
pub open spec fn is_comment(k: Seq<char>) -> bool {
    k == "line_comment"@ || k == "block_comment"@
}

/// Scans the named children from `i` for reference modifiers: `Some(true)` if
/// a `mutable_specifier` occurs, `None` if a `lifetime` occurs first.
pub open spec fn ref_scan(cs: Seq<Cst>, i: int) -> Option<bool>
    decreases cs.len() - i,
{
    if i < 0 || i >= cs.len() {
        Some(false)
    } else if cs[i].named && cs[i].kind@ == "lifetime"@ {
        None
    } else {
        match ref_scan(cs, i + 1) {
            Some(m) => Some(m || (cs[i].named && cs[i].kind@ == "mutable_specifier"@)),
            None => None,
        }
    }
}

/// The canonical text of an expression or type.
pub open spec fn expr(src: Seq<u8>, n: Cst) -> Option<Seq<char>>
    decreases n, 3nat, 0nat,
{
    let k = n.kind@;
    let cs = n.children@;
    if is_atom(k) {
        text(src, n)
    } else if k == "binary_expression"@ {
        let a = fidx(n, "left"@);
        let o = fidx(n, "operator"@);
        let b = fidx(n, "right"@);
        if has(n, a) && has(n, o) && has(n, b) {
            cat(
                expr(src, cs[a]),
                cat(l(" "), cat(text(src, cs[o]), cat(l(" "), expr(src, cs[b])))),
            )
        } else {
            None
        }
    } else if k == "call_expression"@ {
        let f = fidx(n, "function"@);
        let a = fidx(n, "arguments"@);
        if has(n, f) && has(n, a) {
            cat(expr(src, cs[f]), cat(l("("), cat(elist(src, cs[a], EMode::Args, 0, true), l(")"))))
        } else {
            None
        }
    } else if k == "arguments"@ {
        cat(l("("), cat(elist(src, n, EMode::Args, 0, true), l(")")))
    } else if k == "parenthesized_expression"@ {
        let a = find_named(cs, 0);
        if has(n, a) {
            cat(l("("), cat(expr(src, cs[a]), l(")")))
        } else {
            None
        }
    } else if k == "macro_invocation"@ {
        let m = if fidx(n, "macro"@) >= 0 {
            fidx(n, "macro"@)
        } else {
            find_named(cs, 0)
        };
        let t = find_named_kind(cs, "token_tree"@, 0);
        if has(n, m) && has(n, t) {
            cat(text(src, cs[m]), cat(l("!"), elist(src, cs[t], EMode::Tokens, 0, true)))
        } else {
            None
        }
    } else if k == "field_expression"@ {
        let v = fidx(n, "value"@);
        let f = fidx(n, "field"@);
        if has(n, v) && has(n, f) {
            cat(expr(src, cs[v]), cat(l("."), text(src, cs[f])))
        } else {
            None
        }
    } else if k == "struct_expression"@ {
        let m = fidx(n, "name"@);
        let b = fidx(n, "body"@);
        if has(n, m) && has(n, b) {
            cat(
                expr(src, cs[m]),
                cat(
                    l(" {"),
                    cat(
                        elist(src, cs[b], EMode::Inits, 0, true),
                        if exists|j: int| 0 <= j < cs[b].children@.len() && #[trigger] cs[b].children@[j].named {
                            l(" }")
                        } else {
                            l("}")
                        },
                    ),
                ),
            )
        } else {
            None
        }
    } else if k == "scoped_identifier"@ || k == "scoped_type_identifier"@ {
        let m = fidx(n, "name"@);
        let p = fidx(n, "path"@);
        if has(n, m) {
            if has(n, p) {
                cat(expr(src, cs[p]), cat(l("::"), text(src, cs[m])))
            } else {
                cat(l("::"), text(src, cs[m]))
            }
        } else {
            None
        }
    } else if k == "reference_type"@ {
        let t = fidx(n, "type"@);
        if has(n, t) {
            match ref_scan(cs, 0) {
                Some(is_mut) => cat(
                    l("&"),
                    cat(
                        if is_mut {
                            l("mut ")
                        } else {
                            l("")
                        },
                        expr(src, cs[t]),
                    ),
                ),
                None => None,
            }
        } else {
            None
        }
    } else if k == "generic_type"@ {
        let t = fidx(n, "type"@);
        let a = fidx(n, "type_arguments"@);
        if has(n, t) && has(n, a) {
            cat(
                expr(src, cs[t]),
                cat(l("<"), cat(elist(src, cs[a], EMode::TypeArgs, 0, true), l(">"))),
            )
        } else {
            None
        }
    } else {
        None
    }
}

/// How the children of an expression-level node are rendered as a list.
#[derive(Clone, Copy, PartialEq, Eq, Structural)]
pub enum EMode {
    /// Call arguments: `a, b`.
    Args,
    /// Generic type arguments: `A, B`.
    TypeArgs,
    /// Struct literal initializers: ` x: 1, y`.
    Inits,
    /// All tokens of a macro token tree.
    Tokens,
}

/// The rendering of the children of `p` from index `i` on, in mode `m`;
/// `first` tells whether no element has been emitted yet. Only named children
/// count, except for tokens, where every child does.
pub open spec fn elist(src: Seq<u8>, p: Cst, m: EMode, i: int, first: bool) -> Option<Seq<char>>
    decreases p, 2nat, p.children@.len() - i,
{
    if i < 0 || i >= p.children@.len() {
        Some(Seq::empty())
    } else if !(m is Tokens) && !p.children@[i].named {
        elist(src, p, m, i + 1, first)
    } else {
        cat(eelem(src, p.children@[i], m, first), elist(src, p, m, i + 1, false))
    }
}

/// `", "` between list elements.
pub open spec fn comma(first: bool) -> Option<Seq<char>> {
    if first {
        l("")
    } else {
        l(", ")
    }
}

/// A blank line between items.
pub open spec fn blank(first: bool) -> Option<Seq<char>> {
    if first {
        l("")
    } else {
        l("\n")
    }
}

/// One element of an expression-level list (with its leading separator).
pub open spec fn eelem(src: Seq<u8>, c: Cst, m: EMode, first: bool) -> Option<Seq<char>>
    decreases c, 4nat, 0nat,
{
    let k = c.kind@;
    let cs = c.children@;
    match m {
        EMode::Args | EMode::TypeArgs => cat(comma(first), expr(src, c)),
        EMode::Inits => cat(
            if first {
                l(" ")
            } else {
                l(", ")
            },
            if k == "field_initializer"@ {
                let f = fidx(c, "field"@);
                let v = fidx(c, "value"@);
                if has(c, f) && has(c, v) {
                    cat(text(src, cs[f]), cat(l(": "), expr(src, cs[v])))
                } else {
                    None
                }
            } else if k == "shorthand_field_initializer"@ {
                text(src, c)
            } else {
                None
            },
        ),
        EMode::Tokens => match text(src, c) {
            Some(t) => if t == "("@ || t == "["@ || t == "{"@ || t == ")"@ || t
                == "]"@ || t == "}"@ {
                Some(t)
            } else if t == ","@ {
                l(", ")
            } else if c.named {
                expr(src, c)
            } else {
                Some(t)
            },
            None => None,
        },
    }
}

/// Whether a node carries what the printer does not keep: a visibility
/// modifier, generic parameters, a `where` clause, function modifiers
/// (`async`, `const`, `unsafe`, `extern`), or `unsafe` on an `impl`.
pub open spec fn outside_subset(n: Cst) -> bool {
    find_kind(n.children@, "visibility_modifier"@, 0) >= 0 || find_kind(n.children@, "type_parameters"@, 0)
        >= 0 || find_kind(n.children@, "where_clause"@, 0) >= 0 || find_kind(n.children@, "function_modifiers"@, 0)
        >= 0 || find_kind(n.children@, "unsafe"@, 0) >= 0
}

/// A `self` receiver in canonical form: `self`, `mut self`, `&self` or
/// `&mut self`; none with a lifetime or a type.
pub open spec fn receiver(c: Cst) -> Option<Seq<char>> {
    let cs = c.children@;
    if find_kind(cs, "lifetime"@, 0) >= 0 || find_kind(cs, ":"@, 0) >= 0 {
        None
    } else {
        Some(
            (if find_kind(cs, "&"@, 0) >= 0 {
                "&"@
            } else {
                ""@
            }) + (if find_kind(cs, "mutable_specifier"@, 0) >= 0 {
                "mut "@
            } else {
                ""@
            }) + "self"@,
        )
    }
}

/// The name bound by a pattern: only a plain identifier or `_` is kept.
pub open spec fn binding(src: Seq<u8>, p: Cst) -> Option<Seq<char>> {
    if p.kind@ == "identifier"@ || p.kind@ == "_"@ {
        text(src, p)
    } else {
        None
    }
}

/// One function parameter.
pub open spec fn param(src: Seq<u8>, c: Cst) -> Option<Seq<char>> {
    let k = c.kind@;
    let cs = c.children@;
    if k == "self_parameter"@ {
        receiver(c)
    } else if k == "parameter"@ {
        let p = fidx(c, "pattern"@);
        let t = fidx(c, "type"@);
        if has(c, p) && has(c, t) && find_kind(cs, "mutable_specifier"@, 0) < 0 {
            cat(binding(src, cs[p]), cat(l(": "), expr(src, cs[t])))
        } else {
            None
        }
    } else {
        None
    }
}

/// The parameters (named children of `p`) from index `i` on.
pub open spec fn params(src: Seq<u8>, p: Cst, i: int, first: bool) -> Option<Seq<char>>
    decreases p.children@.len() - i,
{
    if i < 0 || i >= p.children@.len() {
        Some(Seq::empty())
    } else if !p.children@[i].named {
        params(src, p, i + 1, first)
    } else {
        cat(cat(comma(first), param(src, p.children@[i])), params(src, p, i + 1, false))
    }
}

/// The canonical text of one statement at depth `d`.
pub open spec fn stmt(src: Seq<u8>, n: Cst, d: usize) -> Option<Seq<char>> {
    let k = n.kind@;
    let cs = n.children@;
    if is_comment(k) {
        cat(Some(indent(d as nat)), cat(text(src, n), l("\n")))
    } else if k == "let_declaration"@ {
        let p = fidx(n, "pattern"@);
        let v = fidx(n, "value"@);
        let t = fidx(n, "type"@);
        if has(n, p) && find_kind(cs, "else"@, 0) < 0 {
            cat(
                Some(indent(d as nat)),
                cat(
                    l(
                        if find_kind(cs, "mutable_specifier"@, 0) >= 0 {
                            "let mut "
                        } else {
                            "let "
                        },
                    ),
                    cat(
                        binding(src, cs[p]),
                        cat(
                            if has(n, t) {
                                cat(l(": "), expr(src, cs[t]))
                            } else {
                                l("")
                            },
                            cat(
                                if has(n, v) {
                                    cat(l(" = "), expr(src, cs[v]))
                                } else {
                                    l("")
                                },
                                l(";\n"),
                            ),
                        ),
                    ),
                ),
            )
        } else {
            None
        }
    } else if k == "expression_statement"@ {
        let a = find_named(cs, 0);
        if has(n, a) {
            cat(Some(indent(d as nat)), cat(expr(src, cs[a]), l(";\n")))
        } else {
            None
        }
    } else {
        cat(Some(indent(d as nat)), cat(expr(src, n), l("\n")))
    }
}

/// The statements (named children of `p`) from index `i` on, at depth `d`.
pub open spec fn stmts(src: Seq<u8>, p: Cst, d: usize, i: int) -> Option<Seq<char>>
    decreases p.children@.len() - i,
{
    if i < 0 || i >= p.children@.len() {
        Some(Seq::empty())
    } else if !p.children@[i].named {
        stmts(src, p, d, i + 1)
    } else {
        cat(stmt(src, p.children@[i], d), stmts(src, p, d, i + 1))
    }
}

/// The canonical text of a block whose braces sit at depth `d`.
pub open spec fn block(src: Seq<u8>, n: Cst, d: usize) -> Option<Seq<char>> {
    cat(l("{\n"), cat(stmts(src, n, deeper(d), 0), cat(Some(indent(d as nat)), l("}\n"))))
}

/// The canonical text of a function at depth `d`.
pub open spec fn function(src: Seq<u8>, n: Cst, d: usize) -> Option<Seq<char>> {
    let cs = n.children@;
    let m = fidx(n, "name"@);
    let p = fidx(n, "parameters"@);
    let b = fidx(n, "body"@);
    let r = fidx(n, "return_type"@);
    if has(n, m) && has(n, p) && has(n, b) && !outside_subset(n) {
        cat(
            Some(indent(d as nat)),
            cat(
                l("fn "),
                cat(
                    text(src, cs[m]),
                    cat(
                        cat(l("("), cat(params(src, cs[p], 0, true), l(")"))),
                        cat(
                            if has(n, r) {
                                cat(l(" -> "), expr(src, cs[r]))
                            } else {
                                l("")
                            },
                            cat(l(" "), block(src, cs[b], d)),
                        ),
                    ),
                ),
            ),
        )
    } else {
        None
    }
}

/// One named struct field at depth `d`.
pub open spec fn field_decl(src: Seq<u8>, c: Cst, d: usize) -> Option<Seq<char>> {
    let cs = c.children@;
    if c.kind@ == "field_declaration"@ {
        let f = fidx(c, "name"@);
        let t = fidx(c, "type"@);
        if has(c, f) && has(c, t) && !outside_subset(c) {
            cat(
                Some(indent(d as nat)),
                cat(text(src, cs[f]), cat(l(": "), cat(expr(src, cs[t]), l(",\n")))),
            )
        } else {
            None
        }
    } else {
        None
    }
}

/// The struct fields (named children of `p`) from index `i` on, at depth `d`.
pub open spec fn fields(src: Seq<u8>, p: Cst, d: usize, i: int) -> Option<Seq<char>>
    decreases p.children@.len() - i,
{
    if i < 0 || i >= p.children@.len() {
        Some(Seq::empty())
    } else if !p.children@[i].named {
        fields(src, p, d, i + 1)
    } else {
        cat(field_decl(src, p.children@[i], d), fields(src, p, d, i + 1))
    }
}

/// One unit enum variant at depth `d`.
pub open spec fn variant(src: Seq<u8>, c: Cst, d: usize) -> Option<Seq<char>> {
    if c.kind@ == "enum_variant"@ && fidx(c, "body"@) < 0 {
        let f = fidx(c, "name"@);
        if has(c, f) {
            cat(Some(indent(d as nat)), cat(text(src, c.children@[f]), l(",\n")))
        } else {
            None
        }
    } else {
        None
    }
}

/// The enum variants (named children of `p`) from index `i` on, at depth `d`.
pub open spec fn variants(src: Seq<u8>, p: Cst, d: usize, i: int) -> Option<Seq<char>>
    decreases p.children@.len() - i,
{
    if i < 0 || i >= p.children@.len() {
        Some(Seq::empty())
    } else if !p.children@[i].named {
        variants(src, p, d, i + 1)
    } else {
        cat(variant(src, p.children@[i], d), variants(src, p, d, i + 1))
    }
}

/// One member of an impl body at depth `d`: a function or a comment.
pub open spec fn impl_member(src: Seq<u8>, c: Cst, d: usize) -> Option<Seq<char>> {
    if c.kind@ == "function_item"@ {
        function(src, c, d)
    } else if is_comment(c.kind@) {
        cat(Some(indent(d as nat)), cat(text(src, c), l("\n")))
    } else {
        None
    }
}

/// The impl members (named children of `p`) from index `i` on, at depth `d`,
/// a blank line between members.
pub open spec fn members(src: Seq<u8>, p: Cst, d: usize, i: int, first: bool) -> Option<Seq<char>>
    decreases p.children@.len() - i,
{
    if i < 0 || i >= p.children@.len() {
        Some(Seq::empty())
    } else if !p.children@[i].named {
        members(src, p, d, i + 1, first)
    } else {
        cat(cat(blank(first), impl_member(src, p.children@[i], d)), members(src, p, d, i + 1, false))
    }
}

/// The canonical text of the argument of a `use` declaration.
pub open spec fn use_argument(src: Seq<u8>, n: Cst) -> Option<Seq<char>> {
    let k = n.kind@;
    if k == "identifier"@ || k == "scoped_identifier"@ {
        expr(src, n)
    } else if k == "use_wildcard"@ {
        let a = find_named(n.children@, 0);
        if has(n, a) {
            cat(expr(src, n.children@[a]), l("::*"))
        } else {
            None
        }
    } else {
        None
    }
}

/// `use ARG;`
pub open spec fn use_item(src: Seq<u8>, n: Cst, d: usize) -> Option<Seq<char>> {
    let a = fidx(n, "argument"@);
    if has(n, a) {
        cat(Some(indent(d as nat)), cat(l("use "), cat(use_argument(src, n.children@[a]), l(";\n"))))
    } else {
        None
    }
}

/// `const NAME: TYPE = VALUE;` / `static NAME: TYPE = VALUE;`
pub open spec fn const_item(src: Seq<u8>, n: Cst, d: usize) -> Option<Seq<char>> {
    let cs = n.children@;
    let m = fidx(n, "name"@);
    let t = fidx(n, "type"@);
    let v = fidx(n, "value"@);
    if has(n, m) && has(n, t) && has(n, v) {
        cat(
            Some(indent(d as nat)),
            cat(
                if n.kind@ == "static_item"@ {
                    l("static ")
                } else {
                    l("const ")
                },
                cat(
                    text(src, cs[m]),
                    cat(l(": "), cat(expr(src, cs[t]), cat(l(" = "), cat(expr(src, cs[v]), l(";\n"))))),
                ),
            ),
        )
    } else {
        None
    }
}

/// `struct Name { fields }` or `struct Name;`
pub open spec fn struct_item(src: Seq<u8>, n: Cst, d: usize) -> Option<Seq<char>> {
    let cs = n.children@;
    let m = fidx(n, "name"@);
    let b = fidx(n, "body"@);
    if has(n, m) {
        cat(
            Some(indent(d as nat)),
            cat(
                l("struct "),
                cat(
                    text(src, cs[m]),
                    if has(n, b) == false {
                        l(";\n")
                    } else if cs[b].kind@ == "field_declaration_list"@ {
                        cat(
                            l(" {\n"),
                            cat(fields(src, cs[b], deeper(d), 0), cat(Some(indent(d as nat)), l("}\n"))),
                        )
                    } else {
                        None
                    },
                ),
            ),
        )
    } else {
        None
    }
}

/// `enum Name { variants }`
pub open spec fn enum_item(src: Seq<u8>, n: Cst, d: usize) -> Option<Seq<char>> {
    let cs = n.children@;
    let m = fidx(n, "name"@);
    let b = fidx(n, "body"@);
    if has(n, m) && has(n, b) {
        cat(
            Some(indent(d as nat)),
            cat(
                l("enum "),
                cat(
                    text(src, cs[m]),
                    cat(l(" {\n"), cat(variants(src, cs[b], deeper(d), 0), cat(Some(indent(d as nat)), l("}\n")))),
                ),
            ),
        )
    } else {
        None
    }
}

/// `impl [Trait for] Type { members }`
pub open spec fn impl_item(src: Seq<u8>, n: Cst, d: usize) -> Option<Seq<char>> {
    let cs = n.children@;
    let t = fidx(n, "type"@);
    let b = fidx(n, "body"@);
    let r = fidx(n, "trait"@);
    if has(n, t) && has(n, b) {
        cat(
            Some(indent(d as nat)),
            cat(
                l("impl "),
                cat(
                    if has(n, r) {
                        cat(expr(src, cs[r]), l(" for "))
                    } else {
                        l("")
                    },
                    cat(
                        expr(src, cs[t]),
                        cat(
                            l(" {\n"),
                            cat(members(src, cs[b], deeper(d), 0, true), cat(Some(indent(d as nat)), l("}\n"))),
                        ),
                    ),
                ),
            ),
        )
    } else {
        None
    }
}

/// The canonical text of one item at depth `d`.
pub open spec fn item(src: Seq<u8>, n: Cst, d: usize) -> Option<Seq<char>> {
    let k = n.kind@;
    if outside_subset(n) {
        None
    } else if k == "function_item"@ {
        function(src, n, d)
    } else if k == "use_declaration"@ {
        use_item(src, n, d)
    } else if k == "const_item"@ || k == "static_item"@ {
        const_item(src, n, d)
    } else if k == "struct_item"@ {
        struct_item(src, n, d)
    } else if k == "enum_item"@ {
        enum_item(src, n, d)
    } else if k == "impl_item"@ {
        impl_item(src, n, d)
    } else if is_comment(k) {
        cat(Some(indent(d as nat)), cat(text(src, n), l("\n")))
    } else {
        None
    }
}

/// The top-level items (named children of `p`) from index `i` on, a blank line
/// between items.
pub open spec fn items(src: Seq<u8>, p: Cst, i: int, first: bool) -> Option<Seq<char>>
    decreases p.children@.len() - i,
{
    if i < 0 || i >= p.children@.len() {
        Some(Seq::empty())
    } else if !p.children@[i].named {
        items(src, p, i + 1, first)
    } else {
        cat(cat(blank(first), item(src, p.children@[i], 0)), items(src, p, i + 1, false))
    }
}

/// The canonical text of a whole source file, always ending in a line break
/// (a file without items prints as one).
pub open spec fn source_file(src: Seq<u8>, root: Cst) -> Option<Seq<char>> {
    match items(src, root, 0, true) {
        Some(t) => Some(
            if t.len() == 0 {
                "\n"@
            } else {
                t
            },
        ),
        None => None,
    }
}

/// Whether a printed text, where there is one, ends in a line break.
pub open spec fn ends_in_newline(o: Option<Seq<char>>) -> bool {
    o matches Some(t) ==> t.len() > 0 && t.last() == '\n'
}

proof fn lemma_cat_ends_in_newline(a: Option<Seq<char>>, b: Option<Seq<char>>)
    requires
        ends_in_newline(b),
    ensures
        ends_in_newline(cat(a, b)),
{
    if let (Some(x), Some(y)) = (a, b) {
        assert((x + y).last() == y.last());
    }
}

/// Every top-level item prints as lines, the last one ended.
#[verifier::spinoff_prover]
#[verifier::rlimit(50)]
proof fn lemma_item_ends_in_newline(src: Seq<u8>, n: Cst, d: usize)
    ensures
        ends_in_newline(item(src, n, d)),
{
    reveal_strlit("}\n");
    reveal_strlit(";\n");
    reveal_strlit("\n");
    assert forall|a: Option<Seq<char>>, b: Option<Seq<char>>| ends_in_newline(b) implies ends_in_newline(
        #[trigger] cat(a, b),
    ) by {
        lemma_cat_ends_in_newline(a, b);
    }
    let k = n.kind@;
    if outside_subset(n) {
    } else if k == "function_item"@ {
        let b = fidx(n, "body"@);
        assert(ends_in_newline(block(src, n.children@[b], d)));
    } else if k == "use_declaration"@ {
    } else if k == "const_item"@ || k == "static_item"@ {
    } else if k == "struct_item"@ {
    } else if k == "enum_item"@ {
    } else if k == "impl_item"@ {
    } else {
    }
}

proof fn lemma_items_end_in_newline(src: Seq<u8>, p: Cst, i: int, first: bool)
    ensures
        items(src, p, i, first) matches Some(t) ==> t.len() == 0 || t.last() == '\n',
    decreases p.children@.len() - i,
{
    if i < 0 || i >= p.children@.len() {
    } else if !p.children@[i].named {
        lemma_items_end_in_newline(src, p, i + 1, first);
    } else {
        lemma_items_end_in_newline(src, p, i + 1, false);
        lemma_item_ends_in_newline(src, p.children@[i], 0);
        let head = cat(blank(first), item(src, p.children@[i], 0));
        lemma_cat_ends_in_newline(blank(first), item(src, p.children@[i], 0));
        if let (Some(x), Some(y)) = (head, items(src, p, i + 1, false)) {
            if y.len() == 0 {
                assert(x + y =~= x);
            } else {
                assert((x + y).last() == y.last());
            }
        }
    }
}

/// Every canonical printing of a Rust source is UTF-8 text whose last byte
/// is a line break, whatever the source (an empty file prints as one).
pub proof fn lemma_canonical_ends_in_newline(src: Seq<u8>, root: Cst, has_error: bool, r: Result<Vec<u8>, Error>)
    requires
        canonical_result(src, root, has_error, r),
    ensures
        r matches Ok(out) ==> valid_utf8(out@) && out@.len() > 0 && out@.last() == 10u8,
{
    if let Ok(out) = r {
        lemma_items_end_in_newline(src, root, 0, true);
        reveal_strlit("\n");
        let t = source_file(src, root)->Some_0;
        assert(t.len() > 0 && t.last() == '\n');
        lemma_encode_ends_in_newline(t);
        encode_utf8_valid_utf8(t);
    }
}

/// What a printing step did: on `Some(t)` it succeeded and appended `t`; on
/// `None` it failed with a generation error.
pub open spec fn emits(r: Result<(), Error>, s: Option<Seq<char>>, before: Seq<char>, after: Seq<char>) -> bool {
    match s {
        Some(t) => r is Ok && after == before + t,
        None => r matches Err(e) && e is Generation,
    }
}

proof fn lemma_cat_assoc(a: Seq<char>, b: Seq<char>, rest: Option<Seq<char>>)
    ensures
        cat(Some(a), cat(Some(b), rest)) == cat(Some(a + b), rest),
{
    if let Some(r) = rest {
        assert(a + (b + r) =~= (a + b) + r);
    }
}

// ─── Printing ────────────────────────────────────────────────────────────────

/// The error for a construct outside the supported subset.
fn unsupported(n: &Cst, context: &str) -> (e: Error)
    ensures
        e matches Error::Generation(m) && m@ == "unsupported "@ + context@ + ": `"@ + n.kind@ + "` (offset "@
            + decimal(n.start as nat) + ")"@,
{
    let mut m = String::new();
    push_str(&mut m, "unsupported ");
    push_str(&mut m, context);
    push_str(&mut m, ": `");
    push_str(&mut m, n.kind);
    push_str(&mut m, "` (offset ");
    push_decimal(&mut m, n.start as u64);
    push_str(&mut m, ")");
    Error::Generation(m)
}

/// The error for a node that lacks a required field.
fn missing(n: &Cst, f: &str) -> (e: Error)
    ensures
        e matches Error::Generation(m) && m@ == "`"@ + n.kind@ + "` node is missing field `"@ + f@ + "`"@,
{
    let mut m = String::new();
    push_str(&mut m, "`");
    push_str(&mut m, n.kind);
    push_str(&mut m, "` node is missing field `");
    push_str(&mut m, f);
    push_str(&mut m, "`");
    Error::Generation(m)
}

/// Appends the source text of `n`.
fn push_text(src: &[u8], n: &Cst, out: &mut String) -> (r: Result<(), Error>)
    ensures
        emits(r, text(src@, *n), old(out)@, final(out)@),
{
    match node_str(src, n) {
        Some(t) => {
            push_str(out, t);
            Ok(())
        },
        None => Err(Error::Generation("non-utf8 token".to_string())),
    }
}

/// Whether a node carries a visibility modifier, generic parameters or a
/// `where` clause ([`outside_subset`]).
fn outside_subset_exec(n: &Cst) -> (r: bool)
    ensures
        r == outside_subset(*n),
{
    first_kind(n, "visibility_modifier").is_some() || first_kind(n, "type_parameters").is_some() || first_kind(
        n,
        "where_clause",
    ).is_some() || first_kind(n, "function_modifiers").is_some() || first_kind(n, "unsafe").is_some()
}

/// Appends a `self` receiver in canonical form ([`receiver`]).
fn push_receiver(c: &Cst, out: &mut String) -> (r: Result<(), Error>)
    ensures
        emits(r, receiver(*c), old(out)@, final(out)@),
{
    if first_kind(c, "lifetime").is_some() || first_kind(c, ":").is_some() {
        return Err(unsupported(c, "receiver"));
    }
    let ghost before = out@;
    if first_kind(c, "&").is_some() {
        push_str(out, "&");
    } else {
        push_str(out, "");
    }
    if first_kind(c, "mutable_specifier").is_some() {
        push_str(out, "mut ");
    } else {
        push_str(out, "");
    }
    push_str(out, "self");
    proof {
        assert(out@ =~= before + receiver(*c)->Some_0);
    }
    Ok(())
}

/// Appends the name a pattern binds; only a plain identifier or `_`
/// ([`binding`]).
fn push_binding(src: &[u8], p: &Cst, out: &mut String) -> (r: Result<(), Error>)
    ensures
        emits(r, binding(src@, *p), old(out)@, final(out)@),
{
    if kind_is(p, "identifier") || kind_is(p, "_") {
        push_text(src, p, out)
    } else {
        Err(unsupported(p, "pattern"))
    }
}

/// Appends `d` levels of indentation.
fn push_indent(out: &mut String, d: usize)
    ensures
        final(out)@ == old(out)@ + indent(d as nat),
{
    let ghost before = out@;
    let mut k: usize = 0;
    while k < d
        invariant
            k <= d,
            out@ == before + indent(k as nat),
        decreases d - k,
    {
        push_str(out, "    ");
        k += 1;
        proof {
            assert(indent(k as nat) == indent((k - 1) as nat) + "    "@);
        }
    }
}

fn next_depth(d: usize) -> (r: usize)
    ensures
        r == deeper(d),
{
    if d < usize::MAX {
        d + 1
    } else {
        d
    }
}

fn atom_kind(n: &Cst) -> (r: bool)
    ensures
        r == is_atom(n.kind@),
{
    kind_is(n, "identifier") || kind_is(n, "integer_literal") || kind_is(n, "float_literal")
        || kind_is(n, "primitive_type") || kind_is(n, "string_literal") || kind_is(
        n,
        "char_literal",
    ) || kind_is(n, "boolean_literal") || kind_is(n, "field_identifier") || kind_is(
        n,
        "type_identifier",
    ) || kind_is(n, "self")
}

fn comment_kind(n: &Cst) -> (r: bool)
    ensures
        r == is_comment(n.kind@),
{
    kind_is(n, "line_comment") || kind_is(n, "block_comment")
}

/// Scans the named children of `n` for `mut` and lifetimes.
fn scan_reference(n: &Cst) -> (r: Option<bool>)
    ensures
        r == ref_scan(n.children@, 0),
{
    let mut i = n.children.len();
    let mut m = false;
    let mut lifetime = false;
    while i > 0
        invariant
            i <= n.children@.len(),
            lifetime ==> ref_scan(n.children@, i as int) is None,
            !lifetime ==> ref_scan(n.children@, i as int) == Some(m),
        decreases i,
    {
        i -= 1;
        let c = &n.children[i];
        if c.named && kind_is(c, "lifetime") {
            lifetime = true;
        } else {
            m = m || (c.named && kind_is(c, "mutable_specifier"));
        }
    }
    if lifetime {
        None
    } else {
        Some(m)
    }
}

/// Prints an expression or type.
#[verifier::spinoff_prover]
#[verifier::rlimit(100)]
fn print_expr(src: &[u8], n: &Cst, out: &mut String) -> (r: Result<(), Error>)
    ensures
        emits(r, expr(src@, *n), old(out)@, final(out)@),
    decreases n, 3nat, 0nat,
{
    if atom_kind(n) {
        return push_text(src, n, out);
    }
    if kind_is(n, "binary_expression") {
        let a = child_by_field(n, "left");
        let o = child_by_field(n, "operator");
        let b = child_by_field(n, "right");
        if let (Some(a), Some(o), Some(b)) = (a, o, b) {
            if let Err(e) = print_expr(src, &n.children[a], out) {
                return Err(e);
            }
            push_str(out, " ");
            if let Err(e) = push_text(src, &n.children[o], out) {
                return Err(e);
            }
            push_str(out, " ");
            return print_expr(src, &n.children[b], out);
        }
        return Err(missing(n, "left/operator/right"));
    }
    if kind_is(n, "call_expression") {
        let f = child_by_field(n, "function");
        let a = child_by_field(n, "arguments");
        if let (Some(f), Some(a)) = (f, a) {
            if let Err(e) = print_expr(src, &n.children[f], out) {
                return Err(e);
            }
            push_str(out, "(");
            if let Err(e) = print_elist(src, &n.children[a], EMode::Args, out) {
                return Err(e);
            }
            push_str(out, ")");
            return Ok(());
        }
        return Err(missing(n, "function/arguments"));
    }
    if kind_is(n, "arguments") {
        push_str(out, "(");
        if let Err(e) = print_elist(src, n, EMode::Args, out) {
            return Err(e);
        }
        push_str(out, ")");
        return Ok(());
    }
    if kind_is(n, "parenthesized_expression") {
        if let Some(a) = first_named(n) {
            push_str(out, "(");
            if let Err(e) = print_expr(src, &n.children[a], out) {
                return Err(e);
            }
            push_str(out, ")");
            return Ok(());
        }
        return Err(unsupported(n, "empty parentheses"));
    }
    if kind_is(n, "macro_invocation") {
        let m = match child_by_field(n, "macro") {
            Some(m) => Some(m),
            None => first_named(n),
        };
        let t = first_named_kind(n, "token_tree");
        if let (Some(m), Some(t)) = (m, t) {
            if let Err(e) = push_text(src, &n.children[m], out) {
                return Err(e);
            }
            push_str(out, "!");
            if let Err(e) = print_elist(src, &n.children[t], EMode::Tokens, out) {
                return Err(e);
            }
            return Ok(());
        }
        return Err(unsupported(n, "macro without name or token tree"));
    }
    if kind_is(n, "field_expression") {
        let v = child_by_field(n, "value");
        let f = child_by_field(n, "field");
        if let (Some(v), Some(f)) = (v, f) {
            if let Err(e) = print_expr(src, &n.children[v], out) {
                return Err(e);
            }
            push_str(out, ".");
            return push_text(src, &n.children[f], out);
        }
        return Err(missing(n, "value/field"));
    }
    if kind_is(n, "struct_expression") {
        let m = child_by_field(n, "name");
        let b = child_by_field(n, "body");
        if let (Some(m), Some(b)) = (m, b) {
            if let Err(e) = print_expr(src, &n.children[m], out) {
                return Err(e);
            }
            push_str(out, " {");
            let any = match print_elist(src, &n.children[b], EMode::Inits, out) {
                Ok(any) => any,
                Err(e) => return Err(e),
            };
            if any {
                push_str(out, " }");
            } else {
                push_str(out, "}");
            }
            return Ok(());
        }
        return Err(missing(n, "name/body"));
    }
    if kind_is(n, "scoped_identifier") || kind_is(n, "scoped_type_identifier") {
        let m = child_by_field(n, "name");
        let p = child_by_field(n, "path");
        if let Some(m) = m {
            if let Some(p) = p {
                if let Err(e) = print_expr(src, &n.children[p], out) {
                    return Err(e);
                }
            }
            push_str(out, "::");
            return push_text(src, &n.children[m], out);
        }
        return Err(missing(n, "name"));
    }
    if kind_is(n, "reference_type") {
        if let Some(t) = child_by_field(n, "type") {
            match scan_reference(n) {
                Some(is_mut) => {
                    push_str(out, "&");
                    if is_mut {
                        push_str(out, "mut ");
                    } else {
                        push_str(out, "");
                    }
                    return print_expr(src, &n.children[t], out);
                },
                None => return Err(unsupported(n, "reference lifetime")),
            }
        }
        return Err(missing(n, "type"));
    }
    if kind_is(n, "generic_type") {
        let t = child_by_field(n, "type");
        let a = child_by_field(n, "type_arguments");
        if let (Some(t), Some(a)) = (t, a) {
            if let Err(e) = print_expr(src, &n.children[t], out) {
                return Err(e);
            }
            push_str(out, "<");
            if let Err(e) = print_elist(src, &n.children[a], EMode::TypeArgs, out) {
                return Err(e);
            }
            push_str(out, ">");
            return Ok(());
        }
        return Err(missing(n, "type/type_arguments"));
    }
    Err(unsupported(n, "expression"))
}

/// Prints the children of `p` as an expression-level list in mode `m`.
/// Returns whether any element was printed.
fn print_elist(src: &[u8], p: &Cst, m: EMode, out: &mut String) -> (r: Result<bool, Error>)
    ensures
        match elist(src@, *p, m, 0, true) {
            Some(t) => r is Ok && final(out)@ == old(out)@ + t,
            None => r matches Err(e) && e is Generation,
        },
        r matches Ok(any) ==> (!(m is Tokens) ==> (any <==> exists|j: int|
            0 <= j < p.children@.len() && #[trigger] p.children@[j].named)),
    decreases p, 2nat, 0nat,
{
    let ghost before = out@;
    let ghost mut acc: Seq<char> = Seq::empty();
    let mut first = true;
    let mut i: usize = 0;
    let tokens = match m {
        EMode::Tokens => true,
        _ => false,
    };
    while i < p.children.len()
        invariant
            i <= p.children@.len(),
            tokens == (m is Tokens),
            out@ == before + acc,
            elist(src@, *p, m, 0, true) == cat(Some(acc), elist(src@, *p, m, i as int, first)),
            !tokens ==> (first <==> forall|j: int| 0 <= j < i ==> !(#[trigger] p.children@[j].named)),
        decreases p.children.len() - i,
    {
        let c = &p.children[i];
        if tokens || c.named {
            if let Err(e) = print_eelem(src, c, m, first, out) {
                return Err(e);
            }
            proof {
                let e = eelem(src@, *c, m, first).unwrap();
                lemma_cat_assoc(acc, e, elist(src@, *p, m, i as int + 1, false));
                assert(out@ =~= before + (acc + e));
                acc = acc + e;
            }
            first = false;
        }
        i += 1;
    }
    proof {
        assert(acc + Seq::<char>::empty() =~= acc);
    }
    Ok(!first)
}

/// Prints one element of an expression-level list (with its separator).
fn print_eelem(src: &[u8], c: &Cst, m: EMode, first: bool, out: &mut String) -> (r: Result<(), Error>)
    ensures
        emits(r, eelem(src@, *c, m, first), old(out)@, final(out)@),
    decreases c, 4nat, 0nat,
{
    match m {
        EMode::Args | EMode::TypeArgs => {
            if first {
                push_str(out, "");
            } else {
                push_str(out, ", ");
            }
            print_expr(src, c, out)
        },
        EMode::Inits => {
            if first {
                push_str(out, " ");
            } else {
                push_str(out, ", ");
            }
            if kind_is(c, "field_initializer") {
                let f = child_by_field(c, "field");
                let v = child_by_field(c, "value");
                if let (Some(f), Some(v)) = (f, v) {
                    if let Err(e) = push_text(src, &c.children[f], out) {
                        return Err(e);
                    }
                    push_str(out, ": ");
                    return print_expr(src, &c.children[v], out);
                }
                return Err(missing(c, "field/value"));
            }
            if kind_is(c, "shorthand_field_initializer") {
                return push_text(src, c, out);
            }
            Err(unsupported(c, "struct field initializer"))
        },
        EMode::Tokens => {
            match node_str(src, c) {
                Some(t) => {
                    if str_eq(t, "(") || str_eq(t, "[") || str_eq(t, "{") || str_eq(t, ")") || str_eq(t, "]") || str_eq(t, "}") {
                        push_str(out, t);
                        Ok(())
                    } else if str_eq(t, ",") {
                        push_str(out, ", ");
                        Ok(())
                    } else if c.named {
                        print_expr(src, c, out)
                    } else {
                        push_str(out, t);
                        Ok(())
                    }
                },
                None => Err(Error::Generation("non-utf8 token".to_string())),
            }
        },
    }
}

/// Prints the parameters of a function.
fn print_params(src: &[u8], p: &Cst, out: &mut String) -> (r: Result<(), Error>)
    ensures
        emits(r, params(src@, *p, 0, true), old(out)@, final(out)@),
{
    let ghost before = out@;
    let ghost mut acc: Seq<char> = Seq::empty();
    let mut first = true;
    let mut i: usize = 0;
    while i < p.children.len()
        invariant
            i <= p.children@.len(),
            out@ == before + acc,
            params(src@, *p, 0, true) == cat(Some(acc), params(src@, *p, i as int, first)),
        decreases p.children.len() - i,
    {
        let c = &p.children[i];
        if c.named {
            if first {
                push_str(out, "");
            } else {
                push_str(out, ", ");
            }
            if let Err(e) = print_param(src, c, out) {
                return Err(e);
            }
            proof {
                let e = cat(comma(first), param(src@, *c)).unwrap();
                lemma_cat_assoc(acc, e, params(src@, *p, i as int + 1, false));
                assert(out@ =~= before + (acc + e));
                acc = acc + e;
            }
            first = false;
        }
        i += 1;
    }
    proof {
        assert(acc + Seq::<char>::empty() =~= acc);
    }
    Ok(())
}

/// Prints the statements of a block at depth `d`.
fn print_stmts(src: &[u8], p: &Cst, d: usize, out: &mut String) -> (r: Result<(), Error>)
    ensures
        emits(r, stmts(src@, *p, d, 0), old(out)@, final(out)@),
{
    let ghost before = out@;
    let ghost mut acc: Seq<char> = Seq::empty();
    let mut i: usize = 0;
    while i < p.children.len()
        invariant
            i <= p.children@.len(),
            out@ == before + acc,
            stmts(src@, *p, d, 0) == cat(Some(acc), stmts(src@, *p, d, i as int)),
        decreases p.children.len() - i,
    {
        let c = &p.children[i];
        if c.named {
            if let Err(e) = print_stmt(src, c, d, out) {
                return Err(e);
            }
            proof {
                let e = stmt(src@, *c, d).unwrap();
                lemma_cat_assoc(acc, e, stmts(src@, *p, d, i as int + 1));
                assert(out@ =~= before + (acc + e));
                acc = acc + e;
            }
        }
        i += 1;
    }
    proof {
        assert(acc + Seq::<char>::empty() =~= acc);
    }
    Ok(())
}

/// Prints the fields of a struct at depth `d`.
fn print_fields(src: &[u8], p: &Cst, d: usize, out: &mut String) -> (r: Result<(), Error>)
    ensures
        emits(r, fields(src@, *p, d, 0), old(out)@, final(out)@),
{
    let ghost before = out@;
    let ghost mut acc: Seq<char> = Seq::empty();
    let mut i: usize = 0;
    while i < p.children.len()
        invariant
            i <= p.children@.len(),
            out@ == before + acc,
            fields(src@, *p, d, 0) == cat(Some(acc), fields(src@, *p, d, i as int)),
        decreases p.children.len() - i,
    {
        let c = &p.children[i];
        if c.named {
            if let Err(e) = print_field(src, c, d, out) {
                return Err(e);
            }
            proof {
                let e = field_decl(src@, *c, d).unwrap();
                lemma_cat_assoc(acc, e, fields(src@, *p, d, i as int + 1));
                assert(out@ =~= before + (acc + e));
                acc = acc + e;
            }
        }
        i += 1;
    }
    proof {
        assert(acc + Seq::<char>::empty() =~= acc);
    }
    Ok(())
}

/// Prints the variants of an enum at depth `d`.
fn print_variants(src: &[u8], p: &Cst, d: usize, out: &mut String) -> (r: Result<(), Error>)
    ensures
        emits(r, variants(src@, *p, d, 0), old(out)@, final(out)@),
{
    let ghost before = out@;
    let ghost mut acc: Seq<char> = Seq::empty();
    let mut i: usize = 0;
    while i < p.children.len()
        invariant
            i <= p.children@.len(),
            out@ == before + acc,
            variants(src@, *p, d, 0) == cat(Some(acc), variants(src@, *p, d, i as int)),
        decreases p.children.len() - i,
    {
        let c = &p.children[i];
        if c.named {
            if let Err(e) = print_variant(src, c, d, out) {
                return Err(e);
            }
            proof {
                let e = variant(src@, *c, d).unwrap();
                lemma_cat_assoc(acc, e, variants(src@, *p, d, i as int + 1));
                assert(out@ =~= before + (acc + e));
                acc = acc + e;
            }
        }
        i += 1;
    }
    proof {
        assert(acc + Seq::<char>::empty() =~= acc);
    }
    Ok(())
}

/// Prints the members of an impl body at depth `d`.
fn print_members(src: &[u8], p: &Cst, d: usize, out: &mut String) -> (r: Result<(), Error>)
    ensures
        emits(r, members(src@, *p, d, 0, true), old(out)@, final(out)@),
{
    let ghost before = out@;
    let ghost mut acc: Seq<char> = Seq::empty();
    let mut first = true;
    let mut i: usize = 0;
    while i < p.children.len()
        invariant
            i <= p.children@.len(),
            out@ == before + acc,
            members(src@, *p, d, 0, true) == cat(Some(acc), members(src@, *p, d, i as int, first)),
        decreases p.children.len() - i,
    {
        let c = &p.children[i];
        if c.named {
            if first {
                push_str(out, "");
            } else {
                push_str(out, "\n");
            }
            if let Err(e) = print_member(src, c, d, out) {
                return Err(e);
            }
            proof {
                let e = cat(blank(first), impl_member(src@, *c, d)).unwrap();
                lemma_cat_assoc(acc, e, members(src@, *p, d, i as int + 1, false));
                assert(out@ =~= before + (acc + e));
                acc = acc + e;
            }
            first = false;
        }
        i += 1;
    }
    proof {
        assert(acc + Seq::<char>::empty() =~= acc);
    }
    Ok(())
}

/// Prints the top-level items of a source file.
fn print_items(src: &[u8], p: &Cst, out: &mut String) -> (r: Result<(), Error>)
    ensures
        emits(r, items(src@, *p, 0, true), old(out)@, final(out)@),
{
    let ghost before = out@;
    let ghost mut acc: Seq<char> = Seq::empty();
    let mut first = true;
    let mut i: usize = 0;
    while i < p.children.len()
        invariant
            i <= p.children@.len(),
            out@ == before + acc,
            items(src@, *p, 0, true) == cat(Some(acc), items(src@, *p, i as int, first)),
        decreases p.children.len() - i,
    {
        let c = &p.children[i];
        if c.named {
            if first {
                push_str(out, "");
            } else {
                push_str(out, "\n");
            }
            if let Err(e) = print_item(src, c, 0, out) {
                return Err(e);
            }
            proof {
                let e = cat(blank(first), item(src@, *c, 0)).unwrap();
                lemma_cat_assoc(acc, e, items(src@, *p, i as int + 1, false));
                assert(out@ =~= before + (acc + e));
                acc = acc + e;
            }
            first = false;
        }
        i += 1;
    }
    proof {
        assert(acc + Seq::<char>::empty() =~= acc);
    }
    Ok(())
}

/// Prints one function parameter.
fn print_param(src: &[u8], c: &Cst, out: &mut String) -> (r: Result<(), Error>)
    ensures
        emits(r, param(src@, *c), old(out)@, final(out)@),
{
    if kind_is(c, "self_parameter") {
        return push_receiver(c, out);
    }
    if kind_is(c, "parameter") {
        let p = child_by_field(c, "pattern");
        let t = child_by_field(c, "type");
        if first_kind(c, "mutable_specifier").is_some() {
            return Err(unsupported(c, "mutable parameter"));
        }
        if let (Some(p), Some(t)) = (p, t) {
            if let Err(e) = push_binding(src, &c.children[p], out) {
                return Err(e);
            }
            push_str(out, ": ");
            return print_expr(src, &c.children[t], out);
        }
        return Err(missing(c, "pattern/type"));
    }
    Err(unsupported(c, "parameter"))
}

/// Prints one statement at depth `d`.
fn print_stmt(src: &[u8], n: &Cst, d: usize, out: &mut String) -> (r: Result<(), Error>)
    ensures
        emits(r, stmt(src@, *n, d), old(out)@, final(out)@),
{
    if comment_kind(n) {
        push_indent(out, d);
        if let Err(e) = push_text(src, n, out) {
            return Err(e);
        }
        push_str(out, "\n");
        return Ok(());
    }
    if kind_is(n, "let_declaration") {
        if first_kind(n, "else").is_some() {
            return Err(unsupported(n, "let-else"));
        }
        if let Some(p) = child_by_field(n, "pattern") {
            push_indent(out, d);
            if first_kind(n, "mutable_specifier").is_some() {
                push_str(out, "let mut ");
            } else {
                push_str(out, "let ");
            }
            if let Err(e) = push_binding(src, &n.children[p], out) {
                return Err(e);
            }
            if let Some(t) = child_by_field(n, "type") {
                push_str(out, ": ");
                if let Err(e) = print_expr(src, &n.children[t], out) {
                    return Err(e);
                }
            } else {
                push_str(out, "");
            }
            if let Some(v) = child_by_field(n, "value") {
                push_str(out, " = ");
                if let Err(e) = print_expr(src, &n.children[v], out) {
                    return Err(e);
                }
            } else {
                push_str(out, "");
            }
            push_str(out, ";\n");
            return Ok(());
        }
        return Err(missing(n, "pattern"));
    }
    if kind_is(n, "expression_statement") {
        if let Some(a) = first_named(n) {
            push_indent(out, d);
            if let Err(e) = print_expr(src, &n.children[a], out) {
                return Err(e);
            }
            push_str(out, ";\n");
            return Ok(());
        }
        return Err(unsupported(n, "empty expression statement"));
    }
    push_indent(out, d);
    if let Err(e) = print_expr(src, n, out) {
        return Err(e);
    }
    push_str(out, "\n");
    Ok(())
}

/// Prints a block whose braces sit at depth `d`.
fn print_block(src: &[u8], n: &Cst, d: usize, out: &mut String) -> (r: Result<(), Error>)
    ensures
        emits(r, block(src@, *n, d), old(out)@, final(out)@),
{
    push_str(out, "{\n");
    if let Err(e) = print_stmts(src, n, next_depth(d), out) {
        return Err(e);
    }
    push_indent(out, d);
    push_str(out, "}\n");
    Ok(())
}

/// Prints a function at depth `d`.
#[verifier::rlimit(40)]
fn print_function(src: &[u8], n: &Cst, d: usize, out: &mut String) -> (r: Result<(), Error>)
    ensures
        emits(r, function(src@, *n, d), old(out)@, final(out)@),
{
    let m = child_by_field(n, "name");
    let p = child_by_field(n, "parameters");
    let b = child_by_field(n, "body");
    if outside_subset_exec(n) {
        return Err(unsupported(n, "function signature"));
    }
    if let (Some(m), Some(p), Some(b)) = (m, p, b) {
        push_indent(out, d);
        push_str(out, "fn ");
        if let Err(e) = push_text(src, &n.children[m], out) {
            return Err(e);
        }
        push_str(out, "(");
        if let Err(e) = print_params(src, &n.children[p], out) {
            return Err(e);
        }
        push_str(out, ")");
        if let Some(r) = child_by_field(n, "return_type") {
            push_str(out, " -> ");
            if let Err(e) = print_expr(src, &n.children[r], out) {
                return Err(e);
            }
        } else {
            push_str(out, "");
        }
        push_str(out, " ");
        return print_block(src, &n.children[b], d, out);
    }
    Err(missing(n, "name/parameters/body"))
}

/// Prints one named struct field at depth `d`.
fn print_field(src: &[u8], c: &Cst, d: usize, out: &mut String) -> (r: Result<(), Error>)
    ensures
        emits(r, field_decl(src@, *c, d), old(out)@, final(out)@),
{
    if !kind_is(c, "field_declaration") {
        return Err(unsupported(c, "struct field"));
    }
    let f = child_by_field(c, "name");
    let t = child_by_field(c, "type");
    if outside_subset_exec(c) {
        return Err(unsupported(c, "struct field"));
    }
    if let (Some(f), Some(t)) = (f, t) {
        push_indent(out, d);
        if let Err(e) = push_text(src, &c.children[f], out) {
            return Err(e);
        }
        push_str(out, ": ");
        if let Err(e) = print_expr(src, &c.children[t], out) {
            return Err(e);
        }
        push_str(out, ",\n");
        return Ok(());
    }
    Err(missing(c, "name/type"))
}

/// Prints one unit enum variant at depth `d`.
fn print_variant(src: &[u8], c: &Cst, d: usize, out: &mut String) -> (r: Result<(), Error>)
    ensures
        emits(r, variant(src@, *c, d), old(out)@, final(out)@),
{
    if !kind_is(c, "enum_variant") {
        return Err(unsupported(c, "enum variant"));
    }
    if child_by_field(c, "body").is_some() {
        return Err(unsupported(c, "enum variant with fields"));
    }
    if let Some(f) = child_by_field(c, "name") {
        push_indent(out, d);
        if let Err(e) = push_text(src, &c.children[f], out) {
            return Err(e);
        }
        push_str(out, ",\n");
        return Ok(());
    }
    Err(missing(c, "name"))
}

/// Prints one member of an impl body at depth `d`.
fn print_member(src: &[u8], c: &Cst, d: usize, out: &mut String) -> (r: Result<(), Error>)
    ensures
        emits(r, impl_member(src@, *c, d), old(out)@, final(out)@),
{
    if kind_is(c, "function_item") {
        return print_function(src, c, d, out);
    }
    if comment_kind(c) {
        push_indent(out, d);
        if let Err(e) = push_text(src, c, out) {
            return Err(e);
        }
        push_str(out, "\n");
        return Ok(());
    }
    Err(unsupported(c, "impl item"))
}

/// Prints the argument of a `use` declaration.
fn print_use_argument(src: &[u8], n: &Cst, out: &mut String) -> (r: Result<(), Error>)
    ensures
        emits(r, use_argument(src@, *n), old(out)@, final(out)@),
{
    if kind_is(n, "identifier") || kind_is(n, "scoped_identifier") {
        return print_expr(src, n, out);
    }
    if kind_is(n, "use_wildcard") {
        if let Some(a) = first_named(n) {
            if let Err(e) = print_expr(src, &n.children[a], out) {
                return Err(e);
            }
            push_str(out, "::*");
            return Ok(());
        }
        return Err(unsupported(n, "use wildcard"));
    }
    Err(unsupported(n, "use argument"))
}

/// Prints a `use` declaration at depth `d`.
fn print_use(src: &[u8], n: &Cst, d: usize, out: &mut String) -> (r: Result<(), Error>)
    ensures
        emits(r, use_item(src@, *n, d), old(out)@, final(out)@),
{
    if let Some(a) = child_by_field(n, "argument") {
        push_indent(out, d);
        push_str(out, "use ");
        if let Err(e) = print_use_argument(src, &n.children[a], out) {
            return Err(e);
        }
        push_str(out, ";\n");
        return Ok(());
    }
    Err(missing(n, "argument"))
}

/// Prints a `const` or `static` item at depth `d`.
fn print_const(src: &[u8], n: &Cst, d: usize, out: &mut String) -> (r: Result<(), Error>)
    ensures
        emits(r, const_item(src@, *n, d), old(out)@, final(out)@),
{
    let m = child_by_field(n, "name");
    let t = child_by_field(n, "type");
    let v = child_by_field(n, "value");
    if let (Some(m), Some(t), Some(v)) = (m, t, v) {
        push_indent(out, d);
        if kind_is(n, "static_item") {
            push_str(out, "static ");
        } else {
            push_str(out, "const ");
        }
        if let Err(e) = push_text(src, &n.children[m], out) {
            return Err(e);
        }
        push_str(out, ": ");
        if let Err(e) = print_expr(src, &n.children[t], out) {
            return Err(e);
        }
        push_str(out, " = ");
        if let Err(e) = print_expr(src, &n.children[v], out) {
            return Err(e);
        }
        push_str(out, ";\n");
        return Ok(());
    }
    Err(missing(n, "name/type/value"))
}

/// Prints a struct at depth `d`.
fn print_struct(src: &[u8], n: &Cst, d: usize, out: &mut String) -> (r: Result<(), Error>)
    ensures
        emits(r, struct_item(src@, *n, d), old(out)@, final(out)@),
{
    if let Some(m) = child_by_field(n, "name") {
        push_indent(out, d);
        push_str(out, "struct ");
        if let Err(e) = push_text(src, &n.children[m], out) {
            return Err(e);
        }
        match child_by_field(n, "body") {
            None => {
                push_str(out, ";\n");
                return Ok(());
            },
            Some(b) => {
                if !kind_is(&n.children[b], "field_declaration_list") {
                    return Err(unsupported(&n.children[b], "struct body"));
                }
                push_str(out, " {\n");
                if let Err(e) = print_fields(src, &n.children[b], next_depth(d), out) {
                    return Err(e);
                }
                push_indent(out, d);
                push_str(out, "}\n");
                return Ok(());
            },
        }
    }
    Err(missing(n, "name"))
}

/// Prints an enum at depth `d`.
fn print_enum(src: &[u8], n: &Cst, d: usize, out: &mut String) -> (r: Result<(), Error>)
    ensures
        emits(r, enum_item(src@, *n, d), old(out)@, final(out)@),
{
    let m = child_by_field(n, "name");
    let b = child_by_field(n, "body");
    if let (Some(m), Some(b)) = (m, b) {
        push_indent(out, d);
        push_str(out, "enum ");
        if let Err(e) = push_text(src, &n.children[m], out) {
            return Err(e);
        }
        push_str(out, " {\n");
        if let Err(e) = print_variants(src, &n.children[b], next_depth(d), out) {
            return Err(e);
        }
        push_indent(out, d);
        push_str(out, "}\n");
        return Ok(());
    }
    Err(missing(n, "name/body"))
}

/// Prints an impl block at depth `d`.
fn print_impl(src: &[u8], n: &Cst, d: usize, out: &mut String) -> (r: Result<(), Error>)
    ensures
        emits(r, impl_item(src@, *n, d), old(out)@, final(out)@),
{
    let t = child_by_field(n, "type");
    let b = child_by_field(n, "body");
    if let (Some(t), Some(b)) = (t, b) {
        push_indent(out, d);
        push_str(out, "impl ");
        if let Some(r) = child_by_field(n, "trait") {
            if let Err(e) = print_expr(src, &n.children[r], out) {
                return Err(e);
            }
            push_str(out, " for ");
        } else {
            push_str(out, "");
        }
        if let Err(e) = print_expr(src, &n.children[t], out) {
            return Err(e);
        }
        push_str(out, " {\n");
        if let Err(e) = print_members(src, &n.children[b], next_depth(d), out) {
            return Err(e);
        }
        push_indent(out, d);
        push_str(out, "}\n");
        return Ok(());
    }
    Err(missing(n, "type/body"))
}

/// Prints one item at depth `d`.
fn print_item(src: &[u8], n: &Cst, d: usize, out: &mut String) -> (r: Result<(), Error>)
    ensures
        emits(r, item(src@, *n, d), old(out)@, final(out)@),
{
    if outside_subset_exec(n) {
        return Err(unsupported(n, "item"));
    }
    if kind_is(n, "function_item") {
        return print_function(src, n, d, out);
    }
    if kind_is(n, "use_declaration") {
        return print_use(src, n, d, out);
    }
    if kind_is(n, "const_item") || kind_is(n, "static_item") {
        return print_const(src, n, d, out);
    }
    if kind_is(n, "struct_item") {
        return print_struct(src, n, d, out);
    }
    if kind_is(n, "enum_item") {
        return print_enum(src, n, d, out);
    }
    if kind_is(n, "impl_item") {
        return print_impl(src, n, d, out);
    }
    if comment_kind(n) {
        push_indent(out, d);
        if let Err(e) = push_text(src, n, out) {
            return Err(e);
        }
        push_str(out, "\n");
        return Ok(());
    }
    Err(unsupported(n, "top-level item"))
}

/// Prints a whole parsed source file: its named top-level children as items,
/// one blank line between items. The result is exactly [`source_file`].
pub fn print_source_file(src: &[u8], root: &Cst) -> (r: Result<String, Error>)
    ensures
        match source_file(src@, *root) {
            Some(t) => r matches Ok(out) && out@ == t,
            None => r matches Err(e) && e is Generation,
        },
{
    let mut out = String::new();
    match print_items(src, root, &mut out) {
        Ok(()) => {
            proof {
                assert(out@ =~= Seq::<char>::empty() + out@);
            }
            if out.as_str().is_empty() {
                push_str(&mut out, "\n");
            }
            Ok(out)
        },
        Err(e) => Err(e),
    }
}

/// What [`canonicalize`] returns for a parse: a parsing error when the parser
/// reported a syntax error, otherwise the printing of the tree.
pub open spec fn canonical_result(src: Seq<u8>, root: Cst, has_error: bool, r: Result<Vec<u8>, Error>) -> bool {
    if has_error {
        r matches Err(e) && e is Parsing
    } else {
        match source_file(src, root) {
            Some(t) => r matches Ok(out) && out@ == encode_utf8(t),
            None => r matches Err(e) && e is Generation,
        }
    }
}

/// The canonical form of an already parsed source: [`canonical_result`].
pub fn canonicalize_parsed(source: &[u8], root: &Cst, has_error: bool) -> (r: Result<Vec<u8>, Error>)
    ensures
        canonical_result(source@, *root, has_error, r),
{
    if has_error {
        return Err(
            Error::Parsing("source has syntax errors; fix them or bypass the filter".to_string()),
        );
    }
    match print_source_file(source, root) {
        Ok(s) => Ok(string_bytes(&s)),
        Err(e) => Err(e),
    }
}

/// Parses `source` as Rust and returns its canonical form.
///
/// The result is [`canonical_result`] of the tree that Tree-sitter gives for
/// the source ([`parse_spec`]): [`Error::Parsing`] when it reports a syntax
/// error (or no tree is given), [`Error::Generation`] when it holds a
/// construct outside the supported subset, otherwise its printing
/// ([`source_file`]).
pub fn canonicalize(source: &[u8]) -> (r: Result<Vec<u8>, Error>)
    ensures
        match parse_spec(Grammar::Rust, source@) {
            Some((t, err)) => exists|root: Cst| #[trigger] cst_is(root, t) && canonical_result(source@, root, err, r),
            None => r matches Err(e) && e is Parsing,
        },
{
    let parsed = match parse_with(source, Grammar::Rust) {
        Ok(p) => p,
        Err(e) => return Err(e),
    };
    let r = canonicalize_parsed(source, &parsed.root, parsed.has_error);
    proof {
        let t = parse_spec(Grammar::Rust, source@)->Some_0.0;
        assert(cst_is(parsed.root, t));
    }
    r
}

// ─── Definitions ─────────────────────────────────────────────────────────────

/// A top-level definition surfaced by [`inspect`].
#[derive(Debug, Clone, PartialEq, Eq)]
pub struct Def {
    /// Kind of definition: `"fn"`, `"struct"`, `"enum"`, `"const"`, `"static"`,
    /// or `"impl"`.
    pub kind: &'static str,
    /// The declared name.
    pub name: String,
    /// Content identity: hash of the definition's canonical form, so stable
    /// across reformatting; couples name and body.
    pub content_hash: String,
    /// Shape identity: the same hash with the declared name blanked.
    pub shape_hash: String,
    /// The multiset of Merkle subtree hashes of the definition, sorted.
    pub subtree_hashes: Vec<u64>,
}

/// What a definition is, as plain mathematical values: its kind and name, the
/// hashes behind its content and shape identities, and its subtree hashes in
/// post-order.
pub struct DefSpec {
    pub kind: Seq<char>,
    pub name: Seq<char>,
    pub content_hash: u64,
    pub shape_hash: u64,
    pub subtrees: Seq<u64>,
}

/// Whether `d` is the definition that `s` describes.
pub open spec fn def_is(d: Def, s: DefSpec) -> bool {
    &&& d.kind@ == s.kind
    &&& d.name@ == s.name
    &&& d.content_hash@ == hex_chars(s.content_hash)
    &&& d.shape_hash@ == hex_chars(s.shape_hash)
    &&& sorted_u64(d.subtree_hashes@)
    &&& d.subtree_hashes@.to_multiset() == s.subtrees.to_multiset()
}

/// Whether the definitions are, in order, those that `specs` describe.
pub open spec fn defs_are(defs: Seq<Def>, specs: Seq<DefSpec>) -> bool {
    defs.len() == specs.len() && forall|i: int| 0 <= i < defs.len() ==> def_is(#[trigger] defs[i], specs[i])
}

/// The keyword of a top-level item kind that [`inspect`] lists.
pub open spec fn def_kind(k: Seq<char>) -> Option<Seq<char>> {
    if k == "function_item"@ {
        Some("fn"@)
    } else if k == "struct_item"@ {
        Some("struct"@)
    } else if k == "enum_item"@ {
        Some("enum"@)
    } else if k == "const_item"@ {
        Some("const"@)
    } else if k == "static_item"@ {
        Some("static"@)
    } else if k == "impl_item"@ {
        Some("impl"@)
    } else {
        None
    }
}

/// The declared name of an item: the text of its `name` field (`type` for an
/// impl), or `?` when it has none.
pub open spec fn item_name(src: Seq<u8>, c: Cst) -> Seq<char> {
    let f = if c.kind@ == "impl_item"@ {
        fidx(c, "type"@)
    } else {
        fidx(c, "name"@)
    };
    if has(c, f) && text(src, c.children@[f]) is Some {
        text(src, c.children@[f]).unwrap()
    } else {
        "?"@
    }
}

/// The definition that a top-level item yields, if any: items of other kinds,
/// and items that cannot be printed, yield none.
pub open spec fn item_def(src: Seq<u8>, c: Cst) -> Option<DefSpec> {
    match def_kind(c.kind@) {
        None => None,
        Some(kind) => match item(src, c, 0) {
            None => None,
            Some(canon) => {
                let name = item_name(src, c);
                let bytes = encode_utf8(canon);
                let content = fnv1a(bytes);
                let shape = if c.kind@ == "impl_item"@ {
                    content
                } else {
                    fnv1a(
                        replace_first(
                            bytes,
                            encode_utf8(kind) + encode_utf8(" "@) + encode_utf8(name),
                            encode_utf8(kind) + encode_utf8(" _"@),
                        ),
                    )
                };
                Some(
                    DefSpec {
                        kind,
                        name,
                        content_hash: content,
                        shape_hash: shape,
                        subtrees: postorder(src, c),
                    },
                )
            },
        },
    }
}

/// The definitions of the named children of the root from index `i` on.
pub open spec fn item_defs(src: Seq<u8>, root: Cst, i: int) -> Seq<DefSpec>
    decreases root.children@.len() - i,
{
    if i < 0 || i >= root.children@.len() {
        Seq::empty()
    } else if !root.children@[i].named {
        item_defs(src, root, i + 1)
    } else {
        match item_def(src, root.children@[i]) {
            Some(d) => seq![d] + item_defs(src, root, i + 1),
            None => item_defs(src, root, i + 1),
        }
    }
}

fn def_keyword(c: &Cst) -> (r: Option<&'static str>)
    ensures
        match def_kind(c.kind@) {
            Some(k) => r matches Some(s) && s@ == k,
            None => r is None,
        },
{
    if kind_is(c, "function_item") {
        Some("fn")
    } else if kind_is(c, "struct_item") {
        Some("struct")
    } else if kind_is(c, "enum_item") {
        Some("enum")
    } else if kind_is(c, "const_item") {
        Some("const")
    } else if kind_is(c, "static_item") {
        Some("static")
    } else if kind_is(c, "impl_item") {
        Some("impl")
    } else {
        None
    }
}

/// The declared name of an item.
fn declared_name(src: &[u8], c: &Cst) -> (r: String)
    ensures
        r@ == item_name(src@, *c),
{
    let f = if kind_is(c, "impl_item") {
        child_by_field(c, "type")
    } else {
        child_by_field(c, "name")
    };
    if let Some(f) = f {
        if let Some(t) = node_str(src, &c.children[f]) {
            return String::from_str(t);
        }
    }
    String::from_str("?")
}

/// The definition of one top-level item, if it yields one.
fn make_item_def(src: &[u8], c: &Cst) -> (r: Option<Def>)
    ensures
        match item_def(src@, *c) {
            Some(s) => r matches Some(d) && def_is(d, s),
            None => r is None,
        },
{
    let kind = match def_keyword(c) {
        Some(k) => k,
        None => return None,
    };
    let mut canon = String::new();
    if print_item(src, c, 0, &mut canon).is_err() {
        return None;
    }
    proof {
        assert(canon@ =~= Seq::<char>::empty() + canon@);
    }
    let name = declared_name(src, c);
    let bytes = string_bytes(&canon);
    let content = fnv1a_exec(bytes.as_slice());
    let shape = if kind_is(c, "impl_item") {
        content
    } else {
        let mut pat: Vec<u8> = Vec::new();
        append_bytes(&mut pat, kind.as_bytes());
        append_bytes(&mut pat, " ".as_bytes());
        append_bytes(&mut pat, name.as_str().as_bytes());
        let mut rep: Vec<u8> = Vec::new();
        append_bytes(&mut rep, kind.as_bytes());
        append_bytes(&mut rep, " _".as_bytes());
        let shaped = replace_first_bytes(bytes.as_slice(), pat.as_slice(), rep.as_slice());
        fnv1a_exec(shaped.as_slice())
    };
    let subtrees = subtree_hashes(c, src);
    Some(
        Def {
            kind,
            name,
            content_hash: hex_string(content),
            shape_hash: hex_string(shape),
            subtree_hashes: subtrees,
        },
    )
}

/// The definitions of an already parsed source: an error when the parser
/// reported a syntax error, otherwise [`item_defs`] of the root in order.
pub fn inspect_parsed(source: &[u8], root: &Cst, has_error: bool) -> (r: Result<Vec<Def>, Error>)
    ensures
        has_error ==> (r matches Err(e) && e is Parsing),
        !has_error ==> (r matches Ok(defs) && defs_are(defs@, item_defs(source@, *root, 0))),
{
    if has_error {
        return Err(
            Error::Parsing("source has syntax errors; fix them or bypass the filter".to_string()),
        );
    }
    let mut defs: Vec<Def> = Vec::new();
    let ghost mut done: Seq<DefSpec> = Seq::empty();
    let mut i: usize = 0;
    while i < root.children.len()
        invariant
            i <= root.children@.len(),
            item_defs(source@, *root, 0) == done + item_defs(source@, *root, i as int),
            defs_are(defs@, done),
        decreases root.children.len() - i,
    {
        let c = &root.children[i];
        if c.named {
            match make_item_def(source, c) {
                Some(d) => {
                    proof {
                        let s = item_def(source@, *c).unwrap();
                        assert(done + item_defs(source@, *root, i as int) =~= done.push(s)
                            + item_defs(source@, *root, i as int + 1));
                        done = done.push(s);
                    }
                    defs.push(d);
                },
                None => {},
            }
        }
        i += 1;
    }
    proof {
        assert(done + Seq::<DefSpec>::empty() =~= done);
    }
    Ok(defs)
}

/// Whether Rust `source` parses without a syntax error ([`parse_spec`]).
pub open spec fn rust_parses(source: Seq<u8>) -> bool {
    parse_spec(Grammar::Rust, source) matches Some((_, err)) && !err
}

/// Whether `defs` are the definitions ([`item_defs`]) of the tree that
/// Tree-sitter gives for `source`.
#[verifier::opaque]
pub open spec fn inspected(source: Seq<u8>, defs: Seq<Def>) -> bool {
    parse_spec(Grammar::Rust, source) matches Some((t, _)) && exists|root: Cst| #[trigger] cst_is(root, t)
        && defs_are(defs, item_defs(source, root, 0))
}

/// Lists the top-level definitions of Rust `source` (functions, structs,
/// enums, consts, statics, impls), each with formatting-invariant content and
/// shape hashes. Definitions outside the supported subset are skipped; a
/// syntax error is an [`Error::Parsing`]. The listing is [`item_defs`] of the
/// tree that Tree-sitter produced for the source.
pub fn inspect(source: &[u8]) -> (r: Result<Vec<Def>, Error>)
    ensures
        r is Ok <==> rust_parses(source@),
        r matches Err(e) ==> e is Parsing,
        r matches Ok(defs) ==> inspected(source@, defs@),
{
    reveal(inspected);
    let parsed = match parse_with(source, Grammar::Rust) {
        Ok(p) => p,
        Err(e) => return Err(e),
    };
    let r = inspect_parsed(source, &parsed.root, parsed.has_error);
    proof {
        let t = parse_spec(Grammar::Rust, source@)->Some_0.0;
        assert(cst_is(parsed.root, t));
    }
    r
}

// ─── Statements ──────────────────────────────────────────────────────────────

/// One statement of a function body.
#[derive(Debug, Clone, PartialEq, Eq)]
pub struct Statement {
    /// Merkle hash of the statement subtree (exact identity).
    pub hash: u64,
    /// The statement's subtree-hash multiset, sorted.
    pub subtrees: Vec<u64>,
    /// Canonical text of the statement (no indentation, no trailing newline).
    pub text: String,
}

/// What a statement is, as plain values: its Merkle hash, its subtree hashes in
/// post-order, and its canonical text.
pub struct StatementSpec {
    pub hash: u64,
    pub subtrees: Seq<u64>,
    pub text: Seq<char>,
}

/// Whether `s` is the statement that `t` describes.
pub open spec fn statement_is(s: Statement, t: StatementSpec) -> bool {
    &&& s.hash == t.hash
    &&& sorted_u64(s.subtrees@)
    &&& s.subtrees@.to_multiset() == t.subtrees.to_multiset()
    &&& s.text@ == t.text
}

/// Whether the statements are, in order, those that `specs` describe.
pub open spec fn statements_are(ss: Seq<Statement>, specs: Seq<StatementSpec>) -> bool {
    ss.len() == specs.len() && forall|i: int| 0 <= i < ss.len() ==> statement_is(#[trigger] ss[i], specs[i])
}

/// Index of the first named child of `root` at or after `i` that is a function
/// whose `name` field reads `name`, or -1.
pub open spec fn find_function(src: Seq<u8>, root: Cst, name: Seq<char>, i: int) -> int
    decreases root.children@.len() - i,
{
    if i < 0 || i >= root.children@.len() {
        -1
    } else {
        let c = root.children@[i];
        let f = fidx(c, "name"@);
        if c.named && c.kind@ == "function_item"@ && has(c, f) && text(src, c.children@[f])
            == Some(name) {
            i
        } else {
            find_function(src, root, name, i + 1)
        }
    }
}

/// Whether the `k`-th child of `root` is a top-level function named `name`
/// (a method inside an `impl` block is not a child of the root).
pub open spec fn top_function_named(src: Seq<u8>, root: Cst, k: int, name: Seq<char>) -> bool {
    let c = root.children@[k];
    let f = fidx(c, "name"@);
    has(root, k) && c.named && c.kind@ == "function_item"@ && has(c, f) && text(src, c.children@[f]) == Some(
        name,
    )
}

/// Whether the source declares a top-level function named `name`.
pub open spec fn declares_function(src: Seq<u8>, root: Cst, name: Seq<char>) -> bool {
    exists|k: int| #[trigger] top_function_named(src, root, k, name)
}

proof fn lemma_find_function_found(src: Seq<u8>, root: Cst, name: Seq<char>, i: int)
    requires
        0 <= i,
        find_function(src, root, name, i) >= 0,
    ensures
        top_function_named(src, root, find_function(src, root, name, i), name),
    decreases root.children@.len() - i,
{
    let c = root.children@[i];
    let f = fidx(c, "name"@);
    if c.named && c.kind@ == "function_item"@ && has(c, f) && text(src, c.children@[f]) == Some(name) {
        assert(find_function(src, root, name, i) == i);
    } else {
        assert(find_function(src, root, name, i) == find_function(src, root, name, i + 1));
        lemma_find_function_found(src, root, name, i + 1);
    }
}

proof fn lemma_find_function_finds(src: Seq<u8>, root: Cst, name: Seq<char>, i: int, k: int)
    requires
        0 <= i <= k,
        top_function_named(src, root, k, name),
    ensures
        find_function(src, root, name, i) >= 0,
    decreases k - i,
{
    if i < k && find_function(src, root, name, i) != i {
        lemma_find_function_finds(src, root, name, i + 1, k);
    }
}

/// When [`function_statements`] has nothing: on a syntax error, when no
/// top-level function carries the name (methods inside `impl` blocks do not
/// count), or when the body of the first one that does holds a statement
/// outside the supported subset. Otherwise it has that body's statements.
pub proof fn lemma_statements_none(src: Seq<u8>, root: Cst, has_error: bool, name: Seq<char>)
    ensures
        has_error ==> statements_of(src, root, has_error, name) is None,
        !declares_function(src, root, name) ==> statements_of(src, root, has_error, name) is None,
        !has_error && declares_function(src, root, name) ==> {
            let f = root.children@[find_function(src, root, name, 0)];
            &&& top_function_named(src, root, find_function(src, root, name, 0), name)
            &&& statements_of(src, root, has_error, name) == if has(f, fidx(f, "body"@)) {
                body_statements(src, f.children@[fidx(f, "body"@)], 0)
            } else {
                None
            }
        },
{
    if find_function(src, root, name, 0) >= 0 {
        lemma_find_function_found(src, root, name, 0);
    }
    if declares_function(src, root, name) {
        let k = choose|k: int| #[trigger] top_function_named(src, root, k, name);
        lemma_find_function_finds(src, root, name, 0, k);
    }
}

/// The statement that the node `c` is: its Merkle hash, its subtree hashes,
/// and its canonical text without trailing white space; `None` when it falls
/// outside the supported subset.
#[verifier::opaque]
pub open spec fn statement_spec(src: Seq<u8>, c: Cst) -> Option<StatementSpec> {
    match stmt(src, c, 0) {
        None => None,
        Some(t) => Some(
            StatementSpec { hash: node_hash(src, c), subtrees: postorder(src, c), text: trim_end_chars(t) },
        ),
    }
}

/// The statements (named children of `body`) from index `i` on; `None` when
/// one of them cannot be printed.
pub open spec fn body_statements(src: Seq<u8>, body: Cst, i: int) -> Option<Seq<StatementSpec>>
    decreases body.children@.len() - i,
{
    if i < 0 || i >= body.children@.len() {
        Some(Seq::empty())
    } else if !body.children@[i].named {
        body_statements(src, body, i + 1)
    } else {
        match statement_spec(src, body.children@[i]) {
            None => None,
            Some(t) => match body_statements(src, body, i + 1) {
                None => None,
                Some(rest) => Some(seq![t] + rest),
            },
        }
    }
}

/// The statements of the function `name` in a parse: none when the parse has a
/// syntax error, when no top-level function has that name, when it has no
/// body, or when a statement falls outside the supported subset.
pub open spec fn statements_of(src: Seq<u8>, root: Cst, has_error: bool, name: Seq<char>) -> Option<
    Seq<StatementSpec>,
> {
    if has_error {
        None
    } else {
        let k = find_function(src, root, name, 0);
        if has(root, k) {
            let f = root.children@[k];
            let b = fidx(f, "body"@);
            if has(f, b) {
                body_statements(src, f.children@[b], 0)
            } else {
                None
            }
        } else {
            None
        }
    }
}

fn find_function_exec(src: &[u8], root: &Cst, name: &str) -> (r: Option<usize>)
    ensures
        match r {
            Some(k) => find_function(src@, *root, name@, 0) == k && (k as int) < root.children@.len(),
            None => find_function(src@, *root, name@, 0) == -1,
        },
{
    let mut i: usize = 0;
    while i < root.children.len()
        invariant
            i <= root.children@.len(),
            find_function(src@, *root, name@, 0) == find_function(src@, *root, name@, i as int),
        decreases root.children.len() - i,
    {
        let c = &root.children[i];
        if c.named && kind_is(c, "function_item") {
            if let Some(f) = child_by_field(c, "name") {
                if let Some(t) = node_str(src, &c.children[f]) {
                    if str_eq(t, name) {
                        return Some(i);
                    }
                }
            }
        }
        i += 1;
    }
    None
}

/// The statement that the node `c` is: its hash, its sorted subtree hashes and
/// its canonical text; `None` when it falls outside the supported subset.
fn statement_exec(source: &[u8], c: &Cst) -> (r: Option<Statement>)
    ensures
        match statement_spec(source@, *c) {
            Some(t) => r matches Some(st) && statement_is(st, t),
            None => r is None,
        },
{
    reveal(statement_spec);
    let mut p = String::new();
    let printed = print_stmt(source, c, 0, &mut p);
    if printed.is_err() {
        return None;
    }
    proof {
        assert(p@ =~= Seq::<char>::empty() + p@);
    }
    let mut scratch: Vec<u64> = Vec::new();
    let h = hash_subtree(source, c, &mut scratch);
    let subtrees = subtree_hashes(c, source);
    let text = String::from_str(trim_end(p.as_str()));
    Some(Statement { hash: h, subtrees, text })
}

/// The statements of the function `fn_name` in an already parsed source:
/// exactly [`statements_of`].
pub fn function_statements_parsed(source: &[u8], root: &Cst, has_error: bool, fn_name: &str) -> (r:
    Option<Vec<Statement>>)
    ensures
        match statements_of(source@, *root, has_error, fn_name@) {
            Some(specs) => r matches Some(ss) && statements_are(ss@, specs),
            None => r is None,
        },
{
    if has_error {
        return None;
    }
    let k = match find_function_exec(source, root, fn_name) {
        Some(k) => k,
        None => return None,
    };
    let func = &root.children[k];
    let b = match child_by_field(func, "body") {
        Some(b) => b,
        None => return None,
    };
    let body = &func.children[b];
    let mut out: Vec<Statement> = Vec::new();
    let ghost mut done: Seq<StatementSpec> = Seq::empty();
    let mut i: usize = 0;
    proof {
        assert(statements_of(source@, *root, has_error, fn_name@) == body_statements(source@, *body, 0));
    }
    while i < body.children.len()
        invariant
            i <= body.children@.len(),
            statements_of(source@, *root, has_error, fn_name@) == body_statements(source@, *body, 0),
            body_statements(source@, *body, 0) == match body_statements(source@, *body, i as int) {
                Some(rest) => Some(done + rest),
                None => None,
            },
            statements_are(out@, done),
        decreases body.children.len() - i,
    {
        let c = &body.children[i];
        if c.named {
            let st = match statement_exec(source, c) {
                Some(st) => st,
                None => {
                    proof {
                        assert(body_statements(source@, *body, i as int) is None);
                    }
                    return None;
                },
            };
            proof {
                let t = statement_spec(source@, *c).unwrap();
                match body_statements(source@, *body, i as int + 1) {
                    Some(rest) => {
                        assert(done + (seq![t] + rest) =~= done.push(t) + rest);
                    },
                    None => {},
                }
                done = done.push(t);
            }
            out.push(st);
        }
        i += 1;
    }
    proof {
        assert(done + Seq::<StatementSpec>::empty() =~= done);
    }
    Some(out)
}

/// The ordered statements of the named function's body, each with its Merkle
/// hash, subtree multiset, and canonical text. `None` if the source does not
/// parse, no such function exists, or its body falls outside the supported
/// subset. The result is [`statements_of`] the tree that Tree-sitter produced.
pub fn function_statements(source: &[u8], fn_name: &str) -> (r: Option<Vec<Statement>>)
    ensures
        match parse_spec(Grammar::Rust, source@) {
            Some((t, err)) => exists|root: Cst| #[trigger] cst_is(root, t) && match statements_of(
                source@,
                root,
                err,
                fn_name@,
            ) {
                Some(specs) => r matches Some(ss) && statements_are(ss@, specs),
                None => r is None,
            },
            None => r is None,
        },
{
    let parsed = match parse_with(source, Grammar::Rust) {
        Ok(p) => p,
        Err(_) => return None,
    };
    let r = function_statements_parsed(source, &parsed.root, parsed.has_error, fn_name);
    proof {
        let t = parse_spec(Grammar::Rust, source@)->Some_0.0;
        assert(cst_is(parsed.root, t));
    }
    r
}

} // verus!
