//! Canonical printing changes only the layout. For the constructs described
//! here in the shapes Tree-sitter builds them (operator expressions and
//! calls, statements, blocks, functions and files of functions), the printed
//! text without its blank space reads exactly as the tree's tokens do: no
//! token is dropped, added or moved, so the printed program is the same.

use vstd::prelude::*;
use vstd::utf8::{decode_utf8, encode_utf8_decode_utf8};
use crate::Error;
use crate::cst::{fidx, find_field, find_kind, find_named, find_named_kind, text, text_or_empty, Cst};
use crate::printer::{
    ref_scan, binding, blank, block, canonical_result, comma, deeper, eelem, elist, expr, indent, is_atom, is_comment, item,
    items, param, params, source_file, stmt, stmts, EMode,
};

verus! {

/// Whether `c` is blank space between tokens.
pub open spec fn is_blank(c: char) -> bool {
    c == ' ' || c == '\n' || c == '\t' || c == '\r'
}

/// The text without its blank space: what stays the same when only the
/// layout changes.
pub open spec fn nonblank(s: Seq<char>) -> Seq<char>
    decreases s.len(),
{
    if s.len() == 0 {
        s
    } else if is_blank(s.last()) {
        nonblank(s.drop_last())
    } else {
        nonblank(s.drop_last()).push(s.last())
    }
}

proof fn lemma_nonblank_concat(a: Seq<char>, b: Seq<char>)
    ensures
        nonblank(a + b) == nonblank(a) + nonblank(b),
    decreases b.len(),
{
    if b.len() == 0 {
        assert(a + b =~= a);
        assert(nonblank(a) + nonblank(b) =~= nonblank(a));
    } else {
        assert((a + b).drop_last() =~= a + b.drop_last());
        assert((a + b).last() == b.last());
        lemma_nonblank_concat(a, b.drop_last());
        if !is_blank(b.last()) {
            assert(nonblank(a) + nonblank(b.drop_last()).push(b.last()) =~= (nonblank(a) + nonblank(
                b.drop_last(),
            )).push(b.last()));
        }
    }
}

proof fn lemma_arguments_not_atom()
    ensures
        !is_atom("arguments"@),
{
    reveal_strlit("arguments");
    reveal_strlit("identifier");
    reveal_strlit("integer_literal");
    reveal_strlit("float_literal");
    reveal_strlit("primitive_type");
    reveal_strlit("string_literal");
    reveal_strlit("char_literal");
    reveal_strlit("boolean_literal");
    reveal_strlit("field_identifier");
    reveal_strlit("type_identifier");
    reveal_strlit("self");
    let a = "arguments"@;
    assert(a[0] == 'a');
    assert(a != "identifier"@ && a != "integer_literal"@) by {
        assert("identifier"@[0] == 'i' && "integer_literal"@[0] == 'i');
    }
    assert(a != "float_literal"@ && a != "field_identifier"@) by {
        assert("float_literal"@[0] == 'f' && "field_identifier"@[0] == 'f');
    }
    assert(a != "primitive_type"@ && a != "string_literal"@ && a != "self"@) by {
        assert("primitive_type"@[0] == 'p' && "string_literal"@[0] == 's' && "self"@[0] == 's');
    }
    assert(a != "char_literal"@ && a != "boolean_literal"@ && a != "type_identifier"@) by {
        assert("char_literal"@[0] == 'c' && "boolean_literal"@[0] == 'b' && "type_identifier"@[0] == 't');
    }
}

proof fn lemma_nonblank_token(c: char)
    requires
        !is_blank(c),
    ensures
        nonblank(seq![c]) == seq![c],
{
    assert(seq![c].drop_last() =~= Seq::<char>::empty());
    assert(nonblank(Seq::<char>::empty()) =~= Seq::<char>::empty());
    assert(Seq::<char>::empty().push(c) =~= seq![c]);
}

/// The tokens of a node's tree, in order: the source text of a leaf (an
/// atom counts as one), else the tokens of each child, named or not.
pub open spec fn tokens(src: Seq<u8>, n: Cst) -> Seq<char>
    decreases n, 1nat, 0nat,
{
    if is_atom(n.kind@) || n.children@.len() == 0 {
        text_or_empty(src, n)
    } else {
        tokens_from(src, n, 0)
    }
}

/// The tokens of the children of `p` from index `i` on.
pub open spec fn tokens_from(src: Seq<u8>, p: Cst, i: int) -> Seq<char>
    decreases p, 0nat, p.children@.len() - i,
{
    if i < 0 || i >= p.children@.len() {
        Seq::empty()
    } else {
        tokens(src, p.children@[i]) + tokens_from(src, p, i + 1)
    }
}

/// Whether `c` is a leaf token that fills `field` (or no field) and reads
/// `t` in the source.
pub open spec fn token_leaf(src: Seq<u8>, c: Cst, field: Option<Seq<char>>, t: Option<Seq<char>>) -> bool {
    &&& c.children@.len() == 0
    &&& !is_atom(c.kind@)
    &&& match field {
        Some(f) => c.field matches Some(g) && g@ == f,
        None => c.field is None,
    }
    &&& match t {
        Some(x) => text(src, c) == Some(x),
        None => text(src, c) is Some,
    }
}

/// Whether a child fills the field `f`.
pub open spec fn fills(c: Cst, f: Seq<char>) -> bool {
    c.field matches Some(g) && g@ == f
}

/// Operator expressions as Tree-sitter's Rust grammar builds them: an atom
/// (identifier, literal, ...) that reads in the source; a binary expression
/// of a left operand, an operator token and a right operand; a parenthesized
/// expression of `(`, one expression and `)`; a field access of a value,
/// `.` and a field name; a call of a function expression with an argument
/// list ([`args_ok`]); a path `path::name`; a reference type `&T` or
/// `&mut T`; a macro call `name!(...)` over a flat token tree
/// ([`tree_ok`]); a struct literal `Name { x: v, y }` ([`inits_ok`]); or a
/// generic type `T<A, ...>`.
pub open spec fn operator_expr(src: Seq<u8>, n: Cst) -> bool
    decreases n, 1nat, 0nat,
{
    let k = n.kind@;
    let cs = n.children@;
    if is_atom(k) {
        text(src, n) is Some
    } else if k == "binary_expression"@ {
        &&& cs.len() == 3
        &&& fills(cs[0], "left"@) && operator_expr(src, cs[0])
        &&& token_leaf(src, cs[1], Some("operator"@), None)
        &&& fills(cs[2], "right"@) && operator_expr(src, cs[2])
    } else if k == "parenthesized_expression"@ {
        &&& cs.len() == 3
        &&& token_leaf(src, cs[0], None, Some("("@))
        &&& cs[1].named && operator_expr(src, cs[1])
        &&& token_leaf(src, cs[2], None, Some(")"@))
        &&& !cs[0].named && !cs[2].named
    } else if k == "field_expression"@ {
        &&& cs.len() == 3
        &&& fills(cs[0], "value"@) && operator_expr(src, cs[0])
        &&& token_leaf(src, cs[1], None, Some("."@))
        &&& fills(cs[2], "field"@) && is_atom(cs[2].kind@) && text(src, cs[2]) is Some
    } else if k == "call_expression"@ {
        &&& cs.len() == 2
        &&& fills(cs[0], "function"@) && operator_expr(src, cs[0])
        &&& fills(cs[1], "arguments"@) && cs[1].kind@ == "arguments"@ && cs[1].children@.len() > 0
        &&& token_leaf(src, cs[1].children@[0], None, Some("("@)) && !cs[1].children@[0].named
        &&& args_ok(src, cs[1], 1, 0, ')')
    } else if k == "scoped_identifier"@ || k == "scoped_type_identifier"@ {
        &&& cs.len() == 3
        &&& fills(cs[0], "path"@) && operator_expr(src, cs[0])
        &&& punct(src, cs[1], "::"@)
        &&& fills(cs[2], "name"@) && is_atom(cs[2].kind@) && text(src, cs[2]) is Some
    } else if k == "reference_type"@ {
        &&& cs.len() == 2 || cs.len() == 3
        &&& punct(src, cs[0], "&"@)
        &&& cs.len() == 3 ==> (cs[1].named && cs[1].kind@ == "mutable_specifier"@ && cs[1].children@.len() == 0
            && cs[1].field is None && text(src, cs[1]) == Some("mut"@))
        &&& fills(cs[cs.len() - 1], "type"@) && cs[cs.len() - 1].named && operator_expr(src, cs[cs.len() - 1])
    } else if k == "struct_expression"@ {
        &&& cs.len() == 2
        &&& fills(cs[0], "name"@) && operator_expr(src, cs[0])
        &&& fills(cs[1], "body"@) && cs[1].kind@ == "field_initializer_list"@ && cs[1].children@.len() > 0
        &&& punct(src, cs[1].children@[0], "{"@)
        &&& inits_ok(src, cs[1], 1, 0)
    } else if k == "macro_invocation"@ {
        &&& cs.len() == 3
        &&& fills(cs[0], "macro"@) && cs[0].named && cs[0].kind@ == "identifier"@ && text(src, cs[0]) is Some
        &&& punct(src, cs[1], "!"@)
        &&& cs[2].named && cs[2].kind@ == "token_tree"@ && tree_ok(src, cs[2])
    } else if k == "generic_type"@ {
        &&& cs.len() == 2
        &&& fills(cs[0], "type"@) && operator_expr(src, cs[0])
        &&& fills(cs[1], "type_arguments"@) && cs[1].kind@ == "type_arguments"@ && cs[1].children@.len() > 0
        &&& punct(src, cs[1].children@[0], "<"@)
        &&& args_ok(src, cs[1], 1, 0, '>')
    } else {
        false
    }
}

/// Whether the children of an argument list from index `j` on are the rest
/// of `( a, b, ... )` (or `< A, B, ... >`, closed by `close`) without a
/// trailing comma: `st` is 0 right after the opening token, 1 after an
/// argument, 2 after a comma; each argument is an [`operator_expr`].
pub open spec fn args_ok(src: Seq<u8>, a: Cst, j: int, st: int, close: char) -> bool
    decreases a, 0nat, a.children@.len() - j,
{
    let cs = a.children@;
    if j < 0 || j >= cs.len() {
        false
    } else if st != 2 && j == cs.len() - 1 && token_leaf(src, cs[j], None, Some(seq![close])) && !cs[j].named {
        true
    } else if st == 1 {
        token_leaf(src, cs[j], None, Some(","@)) && !cs[j].named && args_ok(src, a, j + 1, 2, close)
    } else if st == 0 || st == 2 {
        cs[j].named && operator_expr(src, cs[j]) && args_ok(src, a, j + 1, 1, close)
    } else {
        false
    }
}

/// An argument list from index `j` on prints as its tokens do, up to layout;
/// after a comma, the printing starts with the separator that stands for it.
#[verifier::spinoff_prover]
#[verifier::rlimit(80)]
proof fn lemma_args_layout_only(src: Seq<u8>, a: Cst, j: int, st: int, m: EMode, close: char)
    requires
        args_ok(src, a, j, st, close),
        (m is Args && close == ')') || (m is TypeArgs && close == '>'),
    ensures
        elist(src, a, m, j, st == 0) is Some,
        nonblank(elist(src, a, m, j, st == 0)->Some_0 + seq![close]) == (if st == 2 {
            ","@
        } else {
            Seq::<char>::empty()
        }) + nonblank(tokens_from(src, a, j)),
    decreases a, 0nat, a.children@.len() - j,
{
    reveal_strlit(")");
    reveal_strlit(",");
    reveal_strlit(", ");
    reveal_strlit("");
    let cs = a.children@;
    let rp = seq![close];
    let cm = ","@;
    let sep = ", "@;
    assert(cm =~= seq![',']);
    lemma_nonblank_token(close);
    lemma_nonblank_token(',');
    assert(nonblank(sep) =~= cm) by {
        assert(sep.drop_last() =~= cm);
        assert(sep.last() == ' ');
    }
    let e = Seq::<char>::empty();
    if st != 2 && j == cs.len() - 1 && token_leaf(src, cs[j], None, Some(rp)) && !cs[j].named {
        assert(elist(src, a, m, j + 1, st == 0) == Some(e));
        assert(elist(src, a, m, j, st == 0) == Some(e));
        assert(tokens_from(src, a, j + 1) =~= e);
        assert(tokens(src, cs[j]) == rp);
        assert(tokens_from(src, a, j) == rp + e);
        assert(rp + e =~= rp);
        assert(e + rp =~= rp);
        assert(e + nonblank(rp) =~= rp);
        assert(nonblank(e + rp) == e + nonblank(tokens_from(src, a, j)));
        assert(nonblank(elist(src, a, m, j, st == 0)->Some_0 + rp) == (if st == 2 {
            cm
        } else {
            e
        }) + nonblank(tokens_from(src, a, j)));
    } else if st == 1 {
        lemma_args_layout_only(src, a, j + 1, 2, m, close);
        let t = elist(src, a, m, j + 1, false)->Some_0;
        assert(elist(src, a, m, j, false) == Some(t));
        assert(tokens(src, cs[j]) == cm);
        assert(tokens_from(src, a, j) == cm + tokens_from(src, a, j + 1));
        lemma_nonblank_concat(cm, tokens_from(src, a, j + 1));
        assert(e + nonblank(tokens_from(src, a, j)) =~= nonblank(tokens_from(src, a, j)));
        assert(nonblank(t + rp) == e + nonblank(tokens_from(src, a, j)));
        assert(nonblank(elist(src, a, m, j, st == 0)->Some_0 + rp) == (if st == 2 {
            cm
        } else {
            e
        }) + nonblank(tokens_from(src, a, j)));
    } else {
        crate::layout::lemma_expr_layout_only(src, cs[j]);
        lemma_args_layout_only(src, a, j + 1, 1, m, close);
        let x = expr(src, cs[j])->Some_0;
        let t = elist(src, a, m, j + 1, false)->Some_0;
        let c = if st == 0 {
            e
        } else {
            sep
        };
        assert(comma(st == 0) == Some(c));
        assert(eelem(src, cs[j], m, st == 0) == Some(c + x));
        assert(elist(src, a, m, j, st == 0) == Some((c + x) + t));
        assert(tokens_from(src, a, j) == tokens(src, cs[j]) + tokens_from(src, a, j + 1));
        assert(((c + x) + t) + rp =~= c + (x + (t + rp)));
        lemma_nonblank_concat(t, rp);
        lemma_nonblank_concat(x, t + rp);
        lemma_nonblank_concat(c, x + (t + rp));
        lemma_nonblank_concat(tokens(src, cs[j]), tokens_from(src, a, j + 1));
        if st == 0 {
            assert(nonblank(c) =~= e);
            assert(e + (nonblank(x) + nonblank(t + rp)) =~= nonblank(x) + nonblank(t + rp));
            assert(e + nonblank(tokens_from(src, a, j)) =~= nonblank(tokens_from(src, a, j)));
            assert(nonblank(((c + x) + t) + rp) == e + nonblank(tokens_from(src, a, j)));
        } else {
            assert(cm + (nonblank(x) + nonblank(t + rp)) =~= cm + nonblank(tokens_from(src, a, j)));
            assert(nonblank(((c + x) + t) + rp) == cm + nonblank(tokens_from(src, a, j)));
        }
        assert(nonblank(elist(src, a, m, j, st == 0)->Some_0 + rp) == (if st == 2 {
            cm
        } else {
            e
        }) + nonblank(tokens_from(src, a, j)));

    }
}

/// Printing an operator expression changes only its layout: it succeeds,
/// and without blank space it reads exactly as the expression's tokens do,
/// every token (each parenthesis among them) kept and in order; so the
/// printed expression is the same program.
#[verifier::spinoff_prover]
#[verifier::rlimit(80)]
pub proof fn lemma_expr_layout_only(src: Seq<u8>, n: Cst)
    requires
        operator_expr(src, n),
    ensures
        expr(src, n) is Some,
        nonblank(expr(src, n)->Some_0) == nonblank(tokens(src, n)),
    decreases n, 1nat, 0nat,
{
    reveal_strlit(" ");
    reveal_strlit("(");
    reveal_strlit(")");
    reveal_strlit(".");
    reveal_strlit("left");
    reveal_strlit("operator");
    reveal_strlit("right");
    reveal_strlit("value");
    reveal_strlit("field");
    reveal_strlit("field_expression");
    reveal_strlit("binary_expression");
    reveal_strlit("call_expression");
    reveal_strlit("arguments");
    reveal_strlit("parenthesized_expression");
    reveal_strlit("macro_invocation");
    let k = n.kind@;
    let cs = n.children@;
    if is_atom(k) {
    } else if k == "binary_expression"@ {
        lemma_expr_layout_only(src, cs[0]);
        lemma_expr_layout_only(src, cs[2]);
        assert("left"@.len() == 4 && "operator"@.len() == 8 && "right"@.len() == 5);
        assert(cs[0].field->0@ != "operator"@);
        assert(cs[0].field->0@ != "right"@);
        assert(cs[1].field->0@ != "right"@);
        assert(fidx(n, "left"@) == 0);
        assert(find_field(cs, "operator"@, 1) == 1);
        assert(fidx(n, "operator"@) == 1);
        assert(find_field(cs, "right"@, 2) == 2);
        assert(find_field(cs, "right"@, 1) == 2);
        assert(fidx(n, "right"@) == 2);
        let a = expr(src, cs[0])->Some_0;
        let o = text(src, cs[1])->Some_0;
        let b = expr(src, cs[2])->Some_0;
        let sp = " "@;
        assert(nonblank(sp) =~= Seq::<char>::empty()) by {
            assert(sp.last() == ' ');
            assert(sp.drop_last() =~= Seq::<char>::empty());
            assert(nonblank(sp.drop_last()) =~= Seq::<char>::empty());
        }
        assert(expr(src, n) == Some(a + (sp + (o + (sp + b)))));
        lemma_nonblank_concat(sp, b);
        lemma_nonblank_concat(o, sp + b);
        lemma_nonblank_concat(sp, o + (sp + b));
        lemma_nonblank_concat(a, sp + (o + (sp + b)));
        assert(tokens(src, cs[1]) == o);
        assert(tokens_from(src, n, 3) =~= Seq::<char>::empty());
        assert(tokens_from(src, n, 2) == tokens(src, cs[2]) + tokens_from(src, n, 3));
        assert(tokens_from(src, n, 1) == tokens(src, cs[1]) + tokens_from(src, n, 2));
        assert(tokens_from(src, n, 0) == tokens(src, cs[0]) + tokens_from(src, n, 1));
        assert(tokens(src, n) == tokens_from(src, n, 0));
        assert(tokens(src, n) == tokens(src, cs[0]) + (o + (tokens(src, cs[2]) + Seq::<char>::empty())));
        assert(tokens(src, cs[2]) + Seq::<char>::empty() =~= tokens(src, cs[2]));
        lemma_nonblank_concat(o, tokens(src, cs[2]));
        lemma_nonblank_concat(tokens(src, cs[0]), o + tokens(src, cs[2]));
    } else if k == "parenthesized_expression"@ {
        lemma_expr_layout_only(src, cs[1]);
        assert(k == "parenthesized_expression"@);
        assert(k.len() == 24 && "call_expression"@.len() == 15 && "arguments"@.len() == 9);
        assert(k != "call_expression"@ && k != "arguments"@);
        assert(find_named(cs, 1) == 1);
        assert(find_named(cs, 0) == 1);
        let a = expr(src, cs[1])->Some_0;
        let lp = "("@;
        let rp = ")"@;
        assert(expr(src, n) == Some(lp + (a + rp)));
        assert(tokens(src, cs[0]) == lp);
        assert(tokens(src, cs[2]) == rp);
        assert(tokens_from(src, n, 3) =~= Seq::<char>::empty());
        assert(tokens_from(src, n, 2) == tokens(src, cs[2]) + tokens_from(src, n, 3));
        assert(tokens_from(src, n, 1) == tokens(src, cs[1]) + tokens_from(src, n, 2));
        assert(tokens_from(src, n, 0) == tokens(src, cs[0]) + tokens_from(src, n, 1));
        assert(tokens(src, n) == tokens_from(src, n, 0));
        assert(tokens(src, n) == lp + (tokens(src, cs[1]) + (rp + Seq::<char>::empty())));
        assert(rp + Seq::<char>::empty() =~= rp);
        lemma_nonblank_concat(a, rp);
        lemma_nonblank_concat(lp, a + rp);
        lemma_nonblank_concat(tokens(src, cs[1]), rp);
        lemma_nonblank_concat(lp, tokens(src, cs[1]) + rp);
    } else if k == "call_expression"@ {
        reveal_strlit("function");
        reveal_strlit("arguments");
        assert(k.len() == 15 && "binary_expression"@.len() == 17);
        assert("function"@.len() == 8 && "arguments"@.len() == 9);
        assert(cs[0].field->0@ != "arguments"@);
        assert(fidx(n, "function"@) == 0);
        assert(find_field(cs, "arguments"@, 1) == 1);
        assert(fidx(n, "arguments"@) == 1);
        lemma_expr_layout_only(src, cs[0]);
        let args = cs[1];
        lemma_args_layout_only(src, args, 1, 0, EMode::Args, ')');
        let f = expr(src, cs[0])->Some_0;
        let t = elist(src, args, EMode::Args, 0, true)->Some_0;
        assert(elist(src, args, EMode::Args, 0, true) == elist(src, args, EMode::Args, 1, true));
        let lp = "("@;
        let rp = ")"@;
        assert(rp =~= seq![')']);
        assert(expr(src, n) == Some(f + (lp + (t + rp))));
        assert(tokens(src, args.children@[0]) == lp);
        assert(args.kind@ == "arguments"@);
        lemma_arguments_not_atom();
        assert(!is_atom(args.kind@));
        assert(tokens(src, args) == tokens_from(src, args, 0));
        assert(tokens_from(src, args, 0) == lp + tokens_from(src, args, 1));
        assert(tokens_from(src, n, 2) =~= Seq::<char>::empty());
        assert(tokens_from(src, n, 1) == tokens(src, args) + tokens_from(src, n, 2));
        assert(tokens_from(src, n, 0) == tokens(src, cs[0]) + tokens_from(src, n, 1));
        assert(tokens(src, n) == tokens_from(src, n, 0));
        assert(tokens(src, args) + Seq::<char>::empty() =~= tokens(src, args));
        assert(Seq::<char>::empty() + nonblank(tokens_from(src, args, 1)) =~= nonblank(tokens_from(src, args, 1)));
        assert(lp =~= seq!['(']);
        lemma_nonblank_token('(');
        lemma_nonblank_concat(lp, t + rp);
        lemma_nonblank_concat(f, lp + (t + rp));
        lemma_nonblank_concat(lp, tokens_from(src, args, 1));
        lemma_nonblank_concat(tokens(src, cs[0]), tokens(src, args));
    } else if k == "field_expression"@ {
        assert(k.len() == 16 && "call_expression"@.len() == 15 && "arguments"@.len() == 9);
        assert(k != "call_expression"@ && k != "arguments"@ && k != "parenthesized_expression"@);
        assert(k[0] != "macro_invocation"@[0]);
        lemma_expr_layout_only(src, cs[0]);
        assert("value"@.len() == 5 && "field"@.len() == 5 && "value"@[0] != "field"@[0]);
        assert(cs[0].field->0@ != "field"@);
        assert(fidx(n, "value"@) == 0);
        assert(find_field(cs, "field"@, 2) == 2);
        assert(find_field(cs, "field"@, 1) == 2);
        assert(fidx(n, "field"@) == 2);
        let a = expr(src, cs[0])->Some_0;
        let dot = "."@;
        let f = text(src, cs[2])->Some_0;
        assert(expr(src, n) == Some(a + (dot + f)));
        assert(tokens(src, cs[1]) == dot);
        assert(tokens(src, cs[2]) == f);
        assert(tokens_from(src, n, 3) =~= Seq::<char>::empty());
        assert(tokens_from(src, n, 2) == tokens(src, cs[2]) + tokens_from(src, n, 3));
        assert(tokens_from(src, n, 1) == tokens(src, cs[1]) + tokens_from(src, n, 2));
        assert(tokens_from(src, n, 0) == tokens(src, cs[0]) + tokens_from(src, n, 1));
        assert(tokens(src, n) == tokens_from(src, n, 0));
        assert(tokens(src, n) == tokens(src, cs[0]) + (dot + (f + Seq::<char>::empty())));
        assert(f + Seq::<char>::empty() =~= f);
        lemma_nonblank_concat(dot, f);
        lemma_nonblank_concat(a, dot + f);
        lemma_nonblank_concat(tokens(src, cs[0]), dot + f);
    } else if k == "scoped_identifier"@ || k == "scoped_type_identifier"@ {
        lemma_scoped_layout(src, n);
    } else if k == "reference_type"@ {
        lemma_reference_layout(src, n);
    } else if k == "macro_invocation"@ {
        lemma_macro_layout(src, n);
    } else if k == "struct_expression"@ {
        lemma_struct_layout(src, n);
    } else {
        lemma_generic_layout(src, n);
    }
}

/// The expression kinds that come before paths, references and generic types
/// in the printer are none of these.
proof fn lemma_type_kinds()
    ensures
        forall|k: Seq<char>|
            (k == "scoped_identifier"@ || k == "scoped_type_identifier"@ || k == "reference_type"@ || k
                == "generic_type"@) ==> !is_atom(k) && k != "binary_expression"@ && k != "call_expression"@ && k
                != "arguments"@ && k != "parenthesized_expression"@ && k != "macro_invocation"@ && k
                != "field_expression"@ && k != "struct_expression"@,
        "reference_type"@ != "scoped_identifier"@ && "reference_type"@ != "scoped_type_identifier"@,
        "generic_type"@ != "scoped_identifier"@ && "generic_type"@ != "scoped_type_identifier"@,
        "generic_type"@ != "reference_type"@,
{
    reveal_strlit("scoped_identifier");
    reveal_strlit("scoped_type_identifier");
    reveal_strlit("reference_type");
    reveal_strlit("generic_type");
    reveal_strlit("binary_expression");
    reveal_strlit("call_expression");
    reveal_strlit("arguments");
    reveal_strlit("parenthesized_expression");
    reveal_strlit("macro_invocation");
    reveal_strlit("field_expression");
    reveal_strlit("struct_expression");
    reveal_strlit("identifier");
    reveal_strlit("integer_literal");
    reveal_strlit("float_literal");
    reveal_strlit("primitive_type");
    reveal_strlit("string_literal");
    reveal_strlit("char_literal");
    reveal_strlit("boolean_literal");
    reveal_strlit("field_identifier");
    reveal_strlit("type_identifier");
    reveal_strlit("self");
    assert("scoped_identifier"@[1] == 'c' && "struct_expression"@[1] == 't' && "string_literal"@[1] == 't');
    assert("scoped_type_identifier"@.len() == 22 && "reference_type"@[0] == 'r' && "generic_type"@[0] == 'g');
    assert("reference_type"@.len() == 14 && "primitive_type"@[0] == 'p' && "string_literal"@[0] == 's');
    assert("generic_type"@.len() == 12 && "char_literal"@[0] == 'c');
    assert("scoped_identifier"@.len() == 17 && "binary_expression"@[0] == 'b');
    assert("self"@.len() == 4 && "field_identifier"@.len() == 16 && "macro_invocation"@.len() == 16);
}

/// One initializer of a struct literal: `field: value`, or a lone
/// identifier whose text is the initializer's.
pub open spec fn init_ok(src: Seq<u8>, c: Cst) -> bool
    decreases c, 0nat, 0nat,
{
    let cs = c.children@;
    ||| (c.kind@ == "field_initializer"@ && cs.len() == 3 && fills(cs[0], "field"@) && is_atom(cs[0].kind@)
        && text(src, cs[0]) is Some && punct(src, cs[1], ":"@) && fills(cs[2], "value"@) && operator_expr(
        src,
        cs[2],
    ))
    ||| (c.kind@ == "shorthand_field_initializer"@ && cs.len() == 1 && is_atom(cs[0].kind@) && text(src, cs[0])
        is Some && text(src, c) == text(src, cs[0]))
}

/// Whether the children of an initializer list from index `j` on are the
/// rest of `{ a, b, ... }` without a trailing comma: `st` is 0 right after
/// `{`, 1 after an initializer, 2 after a comma; each is an [`init_ok`].
pub open spec fn inits_ok(src: Seq<u8>, a: Cst, j: int, st: int) -> bool
    decreases a, 1nat, a.children@.len() - j,
{
    let cs = a.children@;
    if j < 0 || j >= cs.len() {
        false
    } else if st != 2 && j == cs.len() - 1 && punct(src, cs[j], "}"@) {
        true
    } else if st == 1 {
        punct(src, cs[j], ","@) && inits_ok(src, a, j + 1, 2)
    } else if st == 0 || st == 2 {
        cs[j].named && init_ok(src, cs[j]) && inits_ok(src, a, j + 1, 1)
    } else {
        false
    }
}

/// The separator an initializer is printed after.
pub open spec fn init_sep(first: bool) -> Seq<char> {
    if first {
        " "@
    } else {
        ", "@
    }
}

/// An initializer prints as its tokens do.
#[verifier::spinoff_prover]
proof fn lemma_init_layout(src: Seq<u8>, c: Cst, first: bool)
    requires
        init_ok(src, c),
    ensures
        eelem(src, c, EMode::Inits, first) is Some,
        eelem(src, c, EMode::Inits, first)->Some_0.len() >= init_sep(first).len(),
        eelem(src, c, EMode::Inits, first)->Some_0.subrange(0, init_sep(first).len() as int) == init_sep(first),
        nonblank(eelem(src, c, EMode::Inits, first)->Some_0.skip(init_sep(first).len() as int)) == nonblank(
            tokens(src, c),
        ),
    decreases c, 1nat, 0nat,
{
    reveal_strlit("field_initializer");
    reveal_strlit("shorthand_field_initializer");
    reveal_strlit("field");
    reveal_strlit("value");
    reveal_strlit(": ");
    reveal_strlit(":");
    reveal_strlit(" ");
    reveal_strlit(", ");
    reveal_strlit("identifier");
    reveal_strlit("integer_literal");
    reveal_strlit("float_literal");
    reveal_strlit("primitive_type");
    reveal_strlit("string_literal");
    reveal_strlit("char_literal");
    reveal_strlit("boolean_literal");
    reveal_strlit("field_identifier");
    reveal_strlit("type_identifier");
    reveal_strlit("self");
    lemma_nonblank_literals();
    let cs = c.children@;
    let e = Seq::<char>::empty();
    let sp = init_sep(first);
    assert(!is_atom(c.kind@)) by {
        assert("field_initializer"@.len() == 17 && "shorthand_field_initializer"@.len() == 27);
        assert("field_identifier"@.len() == 16);
    }
    assert(tokens(src, c) == tokens_from(src, c, 0));
    assert(init_ok(src, c));
    assert("field_initializer"@.len() == 17 && "shorthand_field_initializer"@.len() == 27);
    if c.kind@ == "field_initializer"@ {
        assert(c.kind@ != "shorthand_field_initializer"@);
        assert(cs.len() == 3);
        assert(fills(cs[0], "field"@));
        assert("field"@.len() == 5 && "value"@[0] == 'v' && "field"@[0] == 'f');
        lemma_find_field_at(cs, "field"@, 0, 0);
        assert forall|q: int| 0 <= q < 2 implies !fills(#[trigger] cs[q], "value"@) by {}
        lemma_find_field_at(cs, "value"@, 0, 2);
        lemma_expr_layout_only(src, cs[2]);
        let f = text(src, cs[0])->Some_0;
        let v = expr(src, cs[2])->Some_0;
        let inner = f + (": "@ + v);
        assert(eelem(src, c, EMode::Inits, first) == Some(sp + inner));
        assert((sp + inner).subrange(0, sp.len() as int) =~= sp);
        assert((sp + inner).skip(sp.len() as int) =~= inner);
        lemma_nonblank_concat(": "@, v);
        lemma_nonblank_concat(f, ": "@ + v);
        lemma_tokens_end(src, c);
        lemma_tokens_step(src, c, 2);
        lemma_tokens_step(src, c, 1);
        lemma_tokens_step(src, c, 0);
        assert(tokens(src, cs[0]) == f);
        assert(tokens(src, cs[1]) == ":"@);
        assert(nonblank(tokens(src, c)) =~= nonblank(f) + (":"@ + (nonblank(tokens(src, cs[2])) + e)));
    } else {
        assert(c.kind@ != "field_initializer"@);
        let t = text(src, c)->Some_0;
        assert(eelem(src, c, EMode::Inits, first) == Some(sp + t));
        assert((sp + t).subrange(0, sp.len() as int) =~= sp);
        assert((sp + t).skip(sp.len() as int) =~= t);
        lemma_tokens_end(src, c);
        lemma_tokens_step(src, c, 0);
        assert(tokens(src, cs[0]) == t);
        assert(nonblank(tokens(src, c)) =~= nonblank(t) + e);
    }
}

/// An initializer list from index `j` on prints as its tokens do.
#[verifier::spinoff_prover]
#[verifier::rlimit(60)]
proof fn lemma_inits_layout(src: Seq<u8>, a: Cst, j: int, st: int)
    requires
        inits_ok(src, a, j, st),
    ensures
        elist(src, a, EMode::Inits, j, st == 0) is Some,
        nonblank(elist(src, a, EMode::Inits, j, st == 0)->Some_0 + "}"@) == (if st == 2 {
            ","@
        } else {
            Seq::<char>::empty()
        }) + nonblank(tokens_from(src, a, j)),
    decreases a, 1nat, a.children@.len() - j,
{
    reveal_strlit("}");
    reveal_strlit(",");
    reveal_strlit(", ");
    reveal_strlit(" ");
    let cs = a.children@;
    let rp = "}"@;
    let cm = ","@;
    assert(rp =~= seq!['}']);
    assert(cm =~= seq![',']);
    lemma_nonblank_token('}');
    lemma_nonblank_token(',');
    let e = Seq::<char>::empty();
    if st != 2 && j == cs.len() - 1 && punct(src, cs[j], rp) {
        assert(elist(src, a, EMode::Inits, j + 1, st == 0) == Some(e));
        assert(elist(src, a, EMode::Inits, j, st == 0) == Some(e));
        assert(tokens_from(src, a, j + 1) =~= e);
        assert(tokens(src, cs[j]) == rp);
        assert(tokens_from(src, a, j) == rp + e);
        assert(rp + e =~= rp);
        assert(e + rp =~= rp);
        assert(nonblank(elist(src, a, EMode::Inits, j, st == 0)->Some_0 + rp) == (if st == 2 {
            cm
        } else {
            e
        }) + nonblank(tokens_from(src, a, j)));
    } else if st == 1 {
        lemma_inits_layout(src, a, j + 1, 2);
        let t = elist(src, a, EMode::Inits, j + 1, false)->Some_0;
        assert(elist(src, a, EMode::Inits, j, false) == Some(t));
        assert(tokens(src, cs[j]) == cm);
        assert(tokens_from(src, a, j) == cm + tokens_from(src, a, j + 1));
        lemma_nonblank_concat(cm, tokens_from(src, a, j + 1));
        assert(e + nonblank(tokens_from(src, a, j)) =~= nonblank(tokens_from(src, a, j)));
        assert(nonblank(elist(src, a, EMode::Inits, j, st == 0)->Some_0 + rp) == (if st == 2 {
            cm
        } else {
            e
        }) + nonblank(tokens_from(src, a, j)));
    } else {
        lemma_init_layout(src, cs[j], st == 0);
        lemma_inits_layout(src, a, j + 1, 1);
        let sp = init_sep(st == 0);
        let p = eelem(src, cs[j], EMode::Inits, st == 0)->Some_0;
        let x = p.skip(sp.len() as int);
        assert(p =~= sp + x);
        let t = elist(src, a, EMode::Inits, j + 1, false)->Some_0;
        assert(elist(src, a, EMode::Inits, j, st == 0) == Some(p + t));
        assert(tokens_from(src, a, j) == tokens(src, cs[j]) + tokens_from(src, a, j + 1));
        assert((p + t) + rp =~= sp + (x + (t + rp)));
        lemma_nonblank_concat(t, rp);
        lemma_nonblank_concat(x, t + rp);
        lemma_nonblank_concat(sp, x + (t + rp));
        lemma_nonblank_concat(tokens(src, cs[j]), tokens_from(src, a, j + 1));
        if st == 0 {
            assert(nonblank(sp) =~= e) by {
                reveal_with_fuel(nonblank, 2);
            }
            assert(e + (nonblank(x) + nonblank(t + rp)) =~= nonblank(x) + nonblank(t + rp));
            assert(e + nonblank(tokens_from(src, a, j)) =~= nonblank(tokens_from(src, a, j)));
        } else {
            assert(nonblank(sp) =~= cm) by {
                assert(sp.drop_last() =~= cm);
                assert(sp.last() == ' ');
            }
            assert(cm + (nonblank(x) + nonblank(t + rp)) =~= cm + nonblank(tokens_from(src, a, j)));
        }
        assert(nonblank(elist(src, a, EMode::Inits, j, st == 0)->Some_0 + rp) == (if st == 2 {
            cm
        } else {
            e
        }) + nonblank(tokens_from(src, a, j)));
    }
}

/// A struct literal prints as its tokens do.
#[verifier::spinoff_prover]
#[verifier::rlimit(60)]
proof fn lemma_struct_layout(src: Seq<u8>, n: Cst)
    requires
        operator_expr(src, n),
        n.kind@ == "struct_expression"@,
    ensures
        expr(src, n) is Some,
        nonblank(expr(src, n)->Some_0) == nonblank(tokens(src, n)),
    decreases n, 0nat, 0nat,
{
    reveal_strlit("struct_expression");
    reveal_strlit("binary_expression");
    reveal_strlit("call_expression");
    reveal_strlit("arguments");
    reveal_strlit("parenthesized_expression");
    reveal_strlit("field_expression");
    reveal_strlit("macro_invocation");
    reveal_strlit("field_initializer_list");
    reveal_strlit("scoped_identifier");
    reveal_strlit("scoped_type_identifier");
    reveal_strlit("reference_type");
    reveal_strlit("name");
    reveal_strlit("body");
    reveal_strlit(" {");
    reveal_strlit(" }");
    reveal_strlit("{");
    reveal_strlit("}");
    reveal_strlit("identifier");
    reveal_strlit("integer_literal");
    reveal_strlit("float_literal");
    reveal_strlit("primitive_type");
    reveal_strlit("string_literal");
    reveal_strlit("char_literal");
    reveal_strlit("boolean_literal");
    reveal_strlit("field_identifier");
    reveal_strlit("type_identifier");
    reveal_strlit("self");
    let cs = n.children@;
    let body = cs[1];
    let e = Seq::<char>::empty();
    assert(n.kind@.len() == 17 && "binary_expression"@[0] == 'b' && "call_expression"@.len() == 15);
    assert("arguments"@.len() == 9 && "parenthesized_expression"@.len() == 24);
    assert("field_expression"@.len() == 16 && "macro_invocation"@.len() == 16);
    assert("scoped_identifier"@[1] == 'c' && "struct_expression"@[1] == 't');
    assert("scoped_type_identifier"@.len() == 22 && "reference_type"@.len() == 14);
    assert(!is_atom(n.kind@)) by {
        assert("string_literal"@.len() == 14 && "struct_expression"@[0] == 's' && "self"@.len() == 4);
    }
    assert("name"@[0] == 'n' && "body"@[0] == 'b');
    lemma_find_field_at(cs, "name"@, 0, 0);
    assert forall|q: int| 0 <= q < 1 implies !fills(#[trigger] cs[q], "body"@) by {}
    lemma_find_field_at(cs, "body"@, 0, 1);
    lemma_expr_layout_only(src, cs[0]);
    lemma_inits_layout(src, body, 1, 0);
    assert(elist(src, body, EMode::Inits, 0, true) == elist(src, body, EMode::Inits, 1, true));
    let nm = expr(src, cs[0])->Some_0;
    let t = elist(src, body, EMode::Inits, 1, true)->Some_0;
    let closing = if exists|j: int| 0 <= j < body.children@.len() && #[trigger] body.children@[j].named {
        " }"@
    } else {
        "}"@
    };
    let ob = " {"@;
    assert(expr(src, n) == Some(nm + (ob + (t + closing))));
    assert(nonblank(closing) =~= "}"@) by {
        reveal_with_fuel(nonblank, 3);
    }
    assert(nonblank(ob) =~= "{"@) by {
        reveal_with_fuel(nonblank, 3);
    }
    assert("}"@ =~= seq!['}']);
    lemma_nonblank_token('}');
    lemma_nonblank_concat(t, closing);
    lemma_nonblank_concat(t, "}"@);
    lemma_nonblank_concat(ob, t + closing);
    lemma_nonblank_concat(nm, ob + (t + closing));
    assert(!is_atom(body.kind@)) by {
        assert("field_initializer_list"@.len() == 22 && "field_identifier"@.len() == 16);
    }
    assert(tokens(src, body) == tokens_from(src, body, 0));
    lemma_tokens_step(src, body, 0);
    assert(tokens(src, body.children@[0]) == "{"@);
    assert("{"@ =~= seq!['{']);
    lemma_nonblank_token('{');
    assert(tokens(src, n) == tokens_from(src, n, 0));
    lemma_tokens_end(src, n);
    lemma_tokens_step(src, n, 1);
    lemma_tokens_step(src, n, 0);
    assert(e + nonblank(tokens_from(src, body, 1)) =~= nonblank(tokens_from(src, body, 1)));
    assert(nonblank(tokens(src, n)) =~= nonblank(tokens(src, cs[0])) + ("{"@ + nonblank(tokens_from(src, body, 1))));
    assert(nonblank(expr(src, n)->Some_0) =~= nonblank(nm) + ("{"@ + (nonblank(t) + "}"@)));
}

/// A flat token tree: its tokens are atoms (identifiers, literals) and
/// anonymous leaves (brackets, commas, operators), with no tree inside.
pub open spec fn tree_ok(src: Seq<u8>, t: Cst) -> bool {
    let cs = t.children@;
    &&& cs.len() > 0
    &&& forall|i: int|
        0 <= i < cs.len() ==> text(src, #[trigger] cs[i]) is Some && ((cs[i].named && is_atom(cs[i].kind@)) || (
        !cs[i].named && cs[i].children@.len() == 0 && !is_atom(cs[i].kind@)))
}

/// A flat token tree from index `i` on prints as its tokens do.
proof fn lemma_tree_layout(src: Seq<u8>, t: Cst, i: int, first: bool)
    requires
        tree_ok(src, t),
        0 <= i <= t.children@.len(),
    ensures
        elist(src, t, EMode::Tokens, i, first) is Some,
        nonblank(elist(src, t, EMode::Tokens, i, first)->Some_0) == nonblank(tokens_from(src, t, i)),
    decreases t.children@.len() - i,
{
    reveal_strlit(",");
    reveal_strlit(", ");
    let cs = t.children@;
    let e = Seq::<char>::empty();
    if i == cs.len() {
        assert(tokens_from(src, t, i) =~= e);
    } else {
        let c = cs[i];
        lemma_tree_layout(src, t, i + 1, false);
        let x = text(src, c)->Some_0;
        assert(tokens(src, c) == x);
        let p = eelem(src, c, EMode::Tokens, first)->Some_0;
        assert(eelem(src, c, EMode::Tokens, first) is Some);
        assert(nonblank(p) == nonblank(x)) by {
            if x == ","@ {
                reveal_strlit("(");
                reveal_strlit("[");
                reveal_strlit("{");
                reveal_strlit(")");
                reveal_strlit("]");
                reveal_strlit("}");
                assert(x != "("@ && x != "["@ && x != "{"@ && x != ")"@ && x != "]"@ && x != "}"@) by {
                    assert(x[0] == ',');
                }
                assert(p == ", "@);
                assert(", "@ =~= ","@ + " "@) by {
                    reveal_strlit(" ");
                }
                assert(","@ =~= seq![',']);
                lemma_nonblank_token(',');
                reveal_strlit(" ");
                lemma_nonblank_concat(","@, " "@);
                assert(nonblank(" "@) =~= e) by {
                    reveal_with_fuel(nonblank, 2);
                }
                assert(","@ + e =~= ","@);
            }
        }
        let r = elist(src, t, EMode::Tokens, i + 1, false)->Some_0;
        assert(elist(src, t, EMode::Tokens, i, first) == Some(p + r));
        lemma_nonblank_concat(p, r);
        lemma_nonblank_concat(x, tokens_from(src, t, i + 1));
    }
}

/// A macro call over a flat token tree prints as its tokens do.
#[verifier::spinoff_prover]
proof fn lemma_macro_layout(src: Seq<u8>, n: Cst)
    requires
        operator_expr(src, n),
        n.kind@ == "macro_invocation"@,
    ensures
        expr(src, n) is Some,
        nonblank(expr(src, n)->Some_0) == nonblank(tokens(src, n)),
    decreases n, 0nat, 0nat,
{
    reveal_strlit("macro_invocation");
    reveal_strlit("binary_expression");
    reveal_strlit("call_expression");
    reveal_strlit("arguments");
    reveal_strlit("parenthesized_expression");
    reveal_strlit("field_expression");
    reveal_strlit("scoped_identifier");
    reveal_strlit("scoped_type_identifier");
    reveal_strlit("reference_type");
    reveal_strlit("struct_expression");
    reveal_strlit("!");
    reveal_strlit("macro");
    reveal_strlit("token_tree");
    reveal_strlit("identifier");
    reveal_strlit("integer_literal");
    reveal_strlit("float_literal");
    reveal_strlit("primitive_type");
    reveal_strlit("string_literal");
    reveal_strlit("char_literal");
    reveal_strlit("boolean_literal");
    reveal_strlit("field_identifier");
    reveal_strlit("type_identifier");
    reveal_strlit("self");
    let cs = n.children@;
    let tt = cs[2];
    let e = Seq::<char>::empty();
    assert(n.kind@.len() == 16 && "binary_expression"@.len() == 17 && "call_expression"@.len() == 15);
    assert("field_expression"@[0] == 'f' && "scoped_identifier"@.len() == 17 && "reference_type"@.len() == 14);
    assert("scoped_type_identifier"@.len() == 22 && "struct_expression"@[0] == 's');
    assert("arguments"@.len() == 9 && "parenthesized_expression"@.len() == 24);
    assert(!is_atom(n.kind@)) by {
        assert("macro_invocation"@[0] == 'm' && "field_identifier"@[0] == 'f');
    }
    lemma_find_field_at(cs, "macro"@, 0, 0);
    assert("identifier"@ != "token_tree"@) by {
        assert("identifier"@.len() == 10 && "token_tree"@[0] == 't' && "identifier"@[0] == 'i');
    }
    assert(find_named_kind(cs, "token_tree"@, 2) == 2);
    assert(find_named_kind(cs, "token_tree"@, 1) == 2);
    assert(find_named_kind(cs, "token_tree"@, 0) == 2);
    lemma_tree_layout(src, tt, 0, true);
    let name = text(src, cs[0])->Some_0;
    let body = elist(src, tt, EMode::Tokens, 0, true)->Some_0;
    let bang = "!"@;
    assert(expr(src, n) == Some(name + (bang + body)));
    assert(!is_atom(tt.kind@)) by {
        assert("token_tree"@.len() == 10 && "type_identifier"@[1] == 'y' && "token_tree"@[1] == 'o');
    }
    assert(tokens(src, tt) == tokens_from(src, tt, 0));
    assert(tokens(src, n) == tokens_from(src, n, 0));
    lemma_tokens_end(src, n);
    lemma_tokens_step(src, n, 2);
    lemma_tokens_step(src, n, 1);
    lemma_tokens_step(src, n, 0);
    assert(tokens(src, cs[0]) == name);
    assert(tokens(src, cs[1]) == bang);
    lemma_nonblank_concat(bang, body);
    lemma_nonblank_concat(name, bang + body);
    assert(nonblank(tokens(src, n)) =~= nonblank(name) + (nonblank(bang) + (nonblank(tokens(src, tt)) + e)));
}

/// A path `path::name` prints as its tokens do.
#[verifier::spinoff_prover]
proof fn lemma_scoped_layout(src: Seq<u8>, n: Cst)
    requires
        operator_expr(src, n),
        n.kind@ == "scoped_identifier"@ || n.kind@ == "scoped_type_identifier"@,
    ensures
        expr(src, n) is Some,
        nonblank(expr(src, n)->Some_0) == nonblank(tokens(src, n)),
    decreases n, 0nat, 0nat,
{
    lemma_type_kinds();
    reveal_strlit("::");
    reveal_strlit("path");
    reveal_strlit("name");
    let cs = n.children@;
    let e = Seq::<char>::empty();
    assert("path"@[0] == 'p' && "name"@[0] == 'n');
    lemma_find_field_at(cs, "path"@, 0, 0);
    assert forall|q: int| 0 <= q < 2 implies !fills(#[trigger] cs[q], "name"@) by {}
    lemma_find_field_at(cs, "name"@, 0, 2);
    lemma_expr_layout_only(src, cs[0]);
    let a = expr(src, cs[0])->Some_0;
    let f = text(src, cs[2])->Some_0;
    let sep = "::"@;
    assert(expr(src, n) == Some(a + (sep + f)));
    assert(tokens(src, n) == tokens_from(src, n, 0));
    lemma_tokens_end(src, n);
    lemma_tokens_step(src, n, 2);
    lemma_tokens_step(src, n, 1);
    lemma_tokens_step(src, n, 0);
    assert(tokens(src, cs[1]) == sep);
    assert(tokens(src, cs[2]) == f);
    lemma_nonblank_concat(sep, f);
    lemma_nonblank_concat(a, sep + f);
    assert(nonblank(tokens(src, n)) =~= nonblank(tokens(src, cs[0])) + (nonblank(sep) + (nonblank(f) + e)));
}

/// A reference type `&T` or `&mut T` prints as its tokens do.
#[verifier::spinoff_prover]
proof fn lemma_reference_layout(src: Seq<u8>, n: Cst)
    requires
        operator_expr(src, n),
        n.kind@ == "reference_type"@,
    ensures
        expr(src, n) is Some,
        nonblank(expr(src, n)->Some_0) == nonblank(tokens(src, n)),
    decreases n, 0nat, 0nat,
{
    lemma_type_kinds();
    lemma_nonblank_literals();
    reveal_strlit("&");
    reveal_strlit("mut ");
    reveal_strlit("mut");
    reveal_strlit("");
    reveal_strlit("type");
    reveal_strlit("lifetime");
    reveal_strlit("mutable_specifier");
    let cs = n.children@;
    let e = Seq::<char>::empty();
    let last = cs.len() - 1;
    let mt = cs.len() == 3;
    assert forall|q: int| 0 <= q < last implies !fills(#[trigger] cs[q], "type"@) by {}
    lemma_find_field_at(cs, "type"@, 0, last);
    lemma_operator_kind(src, cs[last]);
    lemma_expr_layout_only(src, cs[last]);
    // The modifiers the printer finds.
    assert(ref_scan(cs, last + 1) == Some(false));
    assert(cs[last].kind@ != "lifetime"@ && cs[last].kind@ != "mutable_specifier"@) by {
        lemma_operator_kind(src, cs[last]);
    }
    assert(ref_scan(cs, last) == Some(false));
    if mt {
        assert("mutable_specifier"@.len() == 17 && "lifetime"@.len() == 8);
        assert(ref_scan(cs, 1) == Some(true));
        assert(ref_scan(cs, 0) == Some(true));
    } else {
        assert(ref_scan(cs, 0) == Some(false));
    }
    let t = expr(src, cs[last])->Some_0;
    let amp = "&"@;
    let mw = if mt {
        "mut "@
    } else {
        ""@
    };
    assert(expr(src, n) == Some(amp + (mw + t)));
    assert(nonblank("mut "@) =~= "mut"@) by {
        reveal_with_fuel(nonblank, 5);
    }
    assert(nonblank(""@) =~= e);
    assert(nonblank(amp) =~= amp) by {
        reveal_with_fuel(nonblank, 2);
    }
    lemma_nonblank_concat(mw, t);
    lemma_nonblank_concat(amp, mw + t);
    assert(tokens(src, n) == tokens_from(src, n, 0));
    lemma_tokens_end(src, n);
    lemma_tokens_step(src, n, last);
    lemma_tokens_step(src, n, 0);
    assert(tokens(src, cs[0]) == amp);
    if mt {
        lemma_tokens_step(src, n, 1);
        assert(tokens(src, cs[1]) == "mut"@);
    }
    assert(nonblank(tokens(src, n)) =~= amp + (nonblank(mw) + nonblank(tokens(src, cs[last]))));
}

/// A generic type `T<A, ...>` prints as its tokens do.
#[verifier::spinoff_prover]
proof fn lemma_generic_layout(src: Seq<u8>, n: Cst)
    requires
        operator_expr(src, n),
        n.kind@ == "generic_type"@,
    ensures
        expr(src, n) is Some,
        nonblank(expr(src, n)->Some_0) == nonblank(tokens(src, n)),
    decreases n, 0nat, 0nat,
{
    lemma_type_kinds();
    reveal_strlit("<");
    reveal_strlit(">");
    reveal_strlit("type");
    reveal_strlit("type_arguments");
    reveal_strlit("type_identifier");
    reveal_strlit("identifier");
    reveal_strlit("integer_literal");
    reveal_strlit("float_literal");
    reveal_strlit("primitive_type");
    reveal_strlit("string_literal");
    reveal_strlit("char_literal");
    reveal_strlit("boolean_literal");
    reveal_strlit("field_identifier");
    reveal_strlit("self");
    let cs = n.children@;
    let ta = cs[1];
    let e = Seq::<char>::empty();
    assert("type"@.len() == 4 && "type_arguments"@.len() == 14);
    lemma_find_field_at(cs, "type"@, 0, 0);
    assert forall|q: int| 0 <= q < 1 implies !fills(#[trigger] cs[q], "type_arguments"@) by {}
    lemma_find_field_at(cs, "type_arguments"@, 0, 1);
    lemma_expr_layout_only(src, cs[0]);
    lemma_args_layout_only(src, ta, 1, 0, EMode::TypeArgs, '>');
    let f = expr(src, cs[0])->Some_0;
    let t = elist(src, ta, EMode::TypeArgs, 1, true)->Some_0;
    assert(elist(src, ta, EMode::TypeArgs, 0, true) == elist(src, ta, EMode::TypeArgs, 1, true));
    let lt = "<"@;
    let gt = ">"@;
    assert(gt =~= seq!['>']);
    assert(lt =~= seq!['<']);
    assert(expr(src, n) == Some(f + (lt + (t + gt))));
    assert(!is_atom(ta.kind@)) by {
        assert("type_arguments"@[5] == 'a' && "type_identifier"@[5] == 'i');
        assert("primitive_type"@[0] == 'p' && "string_literal"@[0] == 's');
    }
    assert(tokens(src, ta) == tokens_from(src, ta, 0));
    lemma_tokens_step(src, ta, 0);
    assert(tokens(src, ta.children@[0]) == lt);
    assert(tokens(src, n) == tokens_from(src, n, 0));
    lemma_tokens_end(src, n);
    lemma_tokens_step(src, n, 1);
    lemma_tokens_step(src, n, 0);
    lemma_nonblank_token('<');
    lemma_nonblank_concat(lt, t + gt);
    lemma_nonblank_concat(f, lt + (t + gt));
    assert(nonblank(tokens(src, n)) =~= nonblank(tokens(src, cs[0])) + (lt + nonblank(tokens_from(src, ta, 1))));
    assert(e + nonblank(tokens_from(src, ta, 1)) =~= nonblank(tokens_from(src, ta, 1)));
}

// ─── Statements and blocks ───────────────────────────────────────────────────

/// Whether `c` is a token that reads `t`, fills no field and is anonymous.
pub open spec fn punct(src: Seq<u8>, c: Cst, t: Seq<char>) -> bool {
    token_leaf(src, c, None, Some(t)) && !c.named && c.kind@ == t
}

/// Whether `c` fills field `f` with an [`operator_expr`].
pub open spec fn field_expr(src: Seq<u8>, c: Cst, f: Seq<char>) -> bool {
    fills(c, f) && c.named && operator_expr(src, c)
}

/// A `let` statement as Tree-sitter builds it: `let`, `mut` when present,
/// an identifier pattern, `: type` when present, `= value` and `;`.
pub open spec fn let_ok(src: Seq<u8>, n: Cst) -> bool {
    let cs = n.children@;
    let m: int = if cs.len() > 1 && cs[1].kind@ == "mutable_specifier"@ {
        1
    } else {
        0
    };
    let p = 1 + m;
    &&& n.kind@ == "let_declaration"@
    &&& cs.len() > p
    &&& punct(src, cs[0], "let"@)
    &&& m == 1 ==> (cs[1].named && cs[1].children@.len() == 0 && cs[1].field is None && text(src, cs[1]) == Some(
        "mut"@,
    ))
    &&& fills(cs[p], "pattern"@) && cs[p].kind@ == "identifier"@ && text(src, cs[p]) is Some
    &&& if cs.len() == p + 4 {
        &&& punct(src, cs[p + 1], "="@)
        &&& field_expr(src, cs[p + 2], "value"@)
        &&& punct(src, cs[p + 3], ";"@)
    } else {
        &&& cs.len() == p + 6
        &&& punct(src, cs[p + 1], ":"@)
        &&& field_expr(src, cs[p + 2], "type"@)
        &&& punct(src, cs[p + 3], "="@)
        &&& field_expr(src, cs[p + 4], "value"@)
        &&& punct(src, cs[p + 5], ";"@)
    }
}

/// A statement of the kinds that print token for token: a `let` statement
/// ([`let_ok`]), an expression and `;`, or a final expression.
pub open spec fn stmt_ok(src: Seq<u8>, n: Cst) -> bool {
    let cs = n.children@;
    ||| let_ok(src, n)
    ||| (n.kind@ == "expression_statement"@ && cs.len() == 2 && cs[0].named && operator_expr(src, cs[0])
        && punct(src, cs[1], ";"@))
    ||| operator_expr(src, n)
}

/// A block: `{`, statements ([`stmt_ok`]) and `}`.
pub open spec fn block_ok(src: Seq<u8>, n: Cst) -> bool {
    let cs = n.children@;
    &&& n.kind@ == "block"@
    &&& cs.len() >= 2
    &&& punct(src, cs[0], "{"@)
    &&& punct(src, cs[cs.len() - 1], "}"@)
    &&& forall|i: int| 0 < i < cs.len() - 1 ==> (#[trigger] cs[i]).named && stmt_ok(src, cs[i])
}

proof fn lemma_nonblank_blank(s: Seq<char>)
    requires
        forall|i: int| 0 <= i < s.len() ==> is_blank(#[trigger] s[i]),
    ensures
        nonblank(s) == Seq::<char>::empty(),
    decreases s.len(),
{
    if s.len() > 0 {
        assert(is_blank(s[s.len() - 1]));
        lemma_nonblank_blank(s.drop_last());
    }
}

proof fn lemma_indent_blank(d: nat)
    ensures
        nonblank(indent(d)) == Seq::<char>::empty(),
    decreases d,
{
    reveal_strlit("    ");
    if d > 0 {
        lemma_indent_blank((d - 1) as nat);
        lemma_nonblank_blank("    "@);
        lemma_nonblank_concat(indent((d - 1) as nat), "    "@);
        assert(Seq::<char>::empty() + Seq::<char>::empty() =~= Seq::<char>::empty());
    }
}

/// The kinds of operator expressions are none of the statement kinds.
proof fn lemma_operator_kind(src: Seq<u8>, n: Cst)
    requires
        operator_expr(src, n),
    ensures
        n.kind@ != "let_declaration"@,
        n.kind@ != "expression_statement"@,
        n.kind@ != "line_comment"@,
        n.kind@ != "block_comment"@,
        n.kind@ != "mutable_specifier"@,
        n.kind@ != "else"@,
        n.kind@ != "lifetime"@,
{
    reveal_strlit("lifetime");
    reveal_strlit("let_declaration");
    reveal_strlit("expression_statement");
    reveal_strlit("line_comment");
    reveal_strlit("block_comment");
    reveal_strlit("mutable_specifier");
    reveal_strlit("else");
    reveal_strlit("identifier");
    reveal_strlit("integer_literal");
    reveal_strlit("float_literal");
    reveal_strlit("primitive_type");
    reveal_strlit("string_literal");
    reveal_strlit("char_literal");
    reveal_strlit("boolean_literal");
    reveal_strlit("field_identifier");
    reveal_strlit("type_identifier");
    reveal_strlit("self");
    reveal_strlit("binary_expression");
    reveal_strlit("parenthesized_expression");
    reveal_strlit("field_expression");
    reveal_strlit("macro_invocation");
    reveal_strlit("scoped_identifier");
    reveal_strlit("scoped_type_identifier");
    reveal_strlit("reference_type");
    reveal_strlit("generic_type");
    reveal_strlit("struct_expression");
    reveal_strlit("call_expression");
    let k = n.kind@;
    assert(k.len() != 15 || k[0] != 'l');
    assert(k.len() != 20 || k[0] != 'e');
    assert(k.len() != 12 || k[0] != 'l');
    assert(k.len() != 13 || k[0] != 'b');
    assert(k.len() != 17 || k[0] != 'm');
    assert(k.len() != 4 || k[0] != 'e');
    assert(k.len() != 8 || k[0] != 'l');
}

proof fn lemma_find_field_none(cs: Seq<Cst>, f: Seq<char>, i: int)
    requires
        0 <= i,
        forall|j: int| i <= j < cs.len() ==> !fills(#[trigger] cs[j], f),
    ensures
        find_field(cs, f, i) == -1,
    decreases cs.len() - i,
{
    if i < cs.len() {
        assert(!fills(cs[i], f));
        lemma_find_field_none(cs, f, i + 1);
    }
}

proof fn lemma_find_field_at(cs: Seq<Cst>, f: Seq<char>, i: int, j: int)
    requires
        0 <= i <= j < cs.len(),
        fills(cs[j], f),
        forall|q: int| i <= q < j ==> !fills(#[trigger] cs[q], f),
    ensures
        find_field(cs, f, i) == j,
    decreases j - i,
{
    if i < j {
        assert(!fills(cs[i], f));
        lemma_find_field_at(cs, f, i + 1, j);
    }
}

proof fn lemma_find_kind_none(cs: Seq<Cst>, k: Seq<char>, i: int)
    requires
        0 <= i,
        forall|j: int| i <= j < cs.len() ==> (#[trigger] cs[j]).kind@ != k,
    ensures
        find_kind(cs, k, i) == -1,
    decreases cs.len() - i,
{
    if i < cs.len() {
        assert(cs[i].kind@ != k);
        lemma_find_kind_none(cs, k, i + 1);
    }
}

proof fn lemma_tokens_step(src: Seq<u8>, n: Cst, i: int)
    requires
        0 <= i < n.children@.len(),
    ensures
        nonblank(tokens_from(src, n, i)) == nonblank(tokens(src, n.children@[i])) + nonblank(tokens_from(src, n, i + 1)),
{
    lemma_nonblank_concat(tokens(src, n.children@[i]), tokens_from(src, n, i + 1));
}

proof fn lemma_tokens_end(src: Seq<u8>, n: Cst)
    ensures
        nonblank(tokens_from(src, n, n.children@.len() as int)) == Seq::<char>::empty(),
{
    assert(tokens_from(src, n, n.children@.len() as int) =~= Seq::<char>::empty());
}

/// A punctuation token contributes its text.
proof fn lemma_punct_tokens(src: Seq<u8>, c: Cst, t: Seq<char>)
    requires
        punct(src, c, t),
    ensures
        tokens(src, c) == t,
{
}

proof fn lemma_nonblank_literals()
    ensures
        nonblank("let mut "@) == "let"@ + "mut"@,
        nonblank("let "@) == "let"@,
        nonblank(": "@) == ":"@,
        nonblank(" = "@) == "="@,
        nonblank(";\n"@) == ";"@,
        nonblank("\n"@) == Seq::<char>::empty(),
        nonblank("{\n"@) == "{"@,
        nonblank("}\n"@) == "}"@,
        nonblank("let"@) == "let"@,
        nonblank("mut"@) == "mut"@,
        nonblank(":"@) == ":"@,
        nonblank("="@) == "="@,
        nonblank(";"@) == ";"@,
        nonblank("{"@) == "{"@,
        nonblank("}"@) == "}"@,
{
    reveal_strlit("let mut ");
    reveal_strlit("let ");
    reveal_strlit(": ");
    reveal_strlit(" = ");
    reveal_strlit(";\n");
    reveal_strlit("\n");
    reveal_strlit("{\n");
    reveal_strlit("}\n");
    reveal_strlit("let");
    reveal_strlit("mut");
    reveal_strlit(":");
    reveal_strlit("=");
    reveal_strlit(";");
    reveal_strlit("{");
    reveal_strlit("}");
    reveal_with_fuel(nonblank, 10);
    assert(nonblank("let mut "@) =~= "let"@ + "mut"@);
    assert(nonblank("let "@) =~= "let"@);
    assert(nonblank(": "@) =~= ":"@);
    assert(nonblank(" = "@) =~= "="@);
    assert(nonblank(";\n"@) =~= ";"@);
    assert(nonblank("\n"@) =~= Seq::<char>::empty());
    assert(nonblank("{\n"@) =~= "{"@);
    assert(nonblank("}\n"@) =~= "}"@);
    assert(nonblank("let"@) =~= "let"@);
    assert(nonblank("mut"@) =~= "mut"@);
    assert(nonblank(":"@) =~= ":"@);
    assert(nonblank("="@) =~= "="@);
    assert(nonblank(";"@) =~= ";"@);
    assert(nonblank("{"@) =~= "{"@);
    assert(nonblank("}"@) =~= "}"@);
}

proof fn lemma_statement_kinds()
    ensures
        !is_atom("let_declaration"@),
        !is_atom("expression_statement"@),
        !is_atom("block"@),
        !is_comment("let_declaration"@),
        !is_comment("expression_statement"@),
        "let_declaration"@ != "expression_statement"@,
        "pattern"@ != "value"@,
        "pattern"@ != "type"@,
        "type"@ != "value"@,
        "let"@ != "else"@ && "let"@ != "mutable_specifier"@,
        "mutable_specifier"@ != "else"@,
        "identifier"@ != "else"@ && "identifier"@ != "mutable_specifier"@,
        "="@ != "else"@ && "="@ != "mutable_specifier"@,
        ";"@ != "else"@ && ";"@ != "mutable_specifier"@,
        ":"@ != "else"@ && ":"@ != "mutable_specifier"@,
{
    reveal_strlit("let_declaration");
    reveal_strlit("expression_statement");
    reveal_strlit("block");
    reveal_strlit("line_comment");
    reveal_strlit("block_comment");
    reveal_strlit("pattern");
    reveal_strlit("value");
    reveal_strlit("type");
    reveal_strlit("let");
    reveal_strlit("else");
    reveal_strlit("mutable_specifier");
    reveal_strlit("identifier");
    reveal_strlit("=");
    reveal_strlit(";");
    reveal_strlit(":");
    reveal_strlit("integer_literal");
    reveal_strlit("float_literal");
    reveal_strlit("primitive_type");
    reveal_strlit("string_literal");
    reveal_strlit("char_literal");
    reveal_strlit("boolean_literal");
    reveal_strlit("field_identifier");
    reveal_strlit("type_identifier");
    reveal_strlit("self");
    assert("let_declaration"@[0] == 'l' && "expression_statement"@[0] == 'e' && "block"@[0] == 'b');
    assert("let_declaration"@.len() == 15 && "expression_statement"@.len() == 20 && "block"@.len() == 5);
    assert("line_comment"@.len() == 12 && "block_comment"@.len() == 13);
    assert("pattern"@.len() == 7 && "value"@.len() == 5 && "type"@.len() == 4);
    assert("let"@.len() == 3 && "else"@.len() == 4 && "mutable_specifier"@.len() == 17);
    assert("identifier"@.len() == 10);
    assert("integer_literal"@[0] == 'i' && "boolean_literal"@[0] == 'b' && "type_identifier"@[0] == 't');
    assert("primitive_type"@.len() == 14 && "string_literal"@.len() == 14 && "float_literal"@.len() == 13);
    assert("char_literal"@.len() == 12 && "field_identifier"@.len() == 16 && "self"@.len() == 4);
    assert("char_literal"@[0] == 'c' && "block_comment"@[0] == 'b');
}

/// Whether a `let` statement has `mut` (1) or not (0).
pub open spec fn let_mut(n: Cst) -> int {
    if n.children@.len() > 1 && n.children@[1].kind@ == "mutable_specifier"@ {
        1
    } else {
        0
    }
}

/// Whether a `let` statement has a type annotation.
pub open spec fn let_typed(n: Cst) -> bool {
    n.children@.len() != 1 + let_mut(n) + 4
}

/// The index of a `let` statement's value.
pub open spec fn let_value(n: Cst) -> int {
    if let_typed(n) {
        1 + let_mut(n) + 4
    } else {
        1 + let_mut(n) + 2
    }
}

/// Where the printer finds the parts of a `let` statement.
#[verifier::spinoff_prover]
#[verifier::rlimit(60)]
proof fn lemma_let_parts(src: Seq<u8>, n: Cst)
    requires
        let_ok(src, n),
    ensures
        fidx(n, "pattern"@) == 1 + let_mut(n),
        fidx(n, "value"@) == let_value(n),
        fidx(n, "type"@) == if let_typed(n) {
            1 + let_mut(n) + 2
        } else {
            -1
        },
        find_kind(n.children@, "else"@, 0) < 0,
        (find_kind(n.children@, "mutable_specifier"@, 0) >= 0) == (let_mut(n) == 1),
{
    lemma_statement_kinds();
    let cs = n.children@;
    let m = let_mut(n);
    let p = 1 + m;
    let typed = let_typed(n);
    let vi = let_value(n);
    assert forall|q: int| 0 <= q < p implies !fills(#[trigger] cs[q], "pattern"@) by {}
    lemma_find_field_at(cs, "pattern"@, 0, p);
    assert forall|q: int| 0 <= q < vi implies !fills(#[trigger] cs[q], "value"@) by {}
    lemma_find_field_at(cs, "value"@, 0, vi);
    if typed {
        assert forall|q: int| 0 <= q < p + 2 implies !fills(#[trigger] cs[q], "type"@) by {}
        lemma_find_field_at(cs, "type"@, 0, p + 2);
    } else {
        assert forall|q: int| 0 <= q < cs.len() implies !fills(#[trigger] cs[q], "type"@) by {}
        lemma_find_field_none(cs, "type"@, 0);
    }
    lemma_operator_kind(src, cs[p + 2]);
    if typed {
        lemma_operator_kind(src, cs[p + 4]);
    }
    assert forall|q: int| 0 <= q < cs.len() implies (#[trigger] cs[q]).kind@ != "else"@ by {}
    lemma_find_kind_none(cs, "else"@, 0);
    if m == 1 {
        assert(find_kind(cs, "mutable_specifier"@, 1) == 1);
        assert(find_kind(cs, "mutable_specifier"@, 0) == 1);
    } else {
        assert forall|q: int| 0 <= q < cs.len() implies (#[trigger] cs[q]).kind@ != "mutable_specifier"@ by {}
        lemma_find_kind_none(cs, "mutable_specifier"@, 0);
    }
}

/// What a `let` statement's tokens read without blank space.
#[verifier::spinoff_prover]
#[verifier::rlimit(60)]
proof fn lemma_let_tokens(src: Seq<u8>, n: Cst)
    requires
        let_ok(src, n),
    ensures
        nonblank(tokens(src, n)) == (if let_mut(n) == 1 {
            "let"@ + "mut"@
        } else {
            "let"@
        }) + (nonblank(text(src, n.children@[1 + let_mut(n)])->Some_0) + ((if let_typed(n) {
            ":"@ + nonblank(tokens(src, n.children@[1 + let_mut(n) + 2]))
        } else {
            Seq::<char>::empty()
        }) + ("="@ + nonblank(tokens(src, n.children@[let_value(n)])) + ";"@))),
{
    lemma_statement_kinds();
    lemma_nonblank_literals();
    let cs = n.children@;
    let m = let_mut(n);
    let p = 1 + m;
    let typed = let_typed(n);
    let vi = let_value(n);
    let e = Seq::<char>::empty();
    let pat = text(src, cs[p])->Some_0;
    let nty = if typed {
        ":"@ + nonblank(tokens(src, cs[p + 2]))
    } else {
        e
    };
    let nlw = if m == 1 {
        "let"@ + "mut"@
    } else {
        "let"@
    };
    assert(tokens(src, n) == tokens_from(src, n, 0));
    assert(tokens(src, cs[p]) == pat);
    let k = cs.len() as int;
    lemma_tokens_end(src, n);
    lemma_tokens_step(src, n, k - 1);
    lemma_tokens_step(src, n, k - 2);
    lemma_tokens_step(src, n, k - 3);
    lemma_tokens_step(src, n, k - 4);
    lemma_tokens_step(src, n, p);
    lemma_tokens_step(src, n, 0);
    if m == 1 {
        lemma_tokens_step(src, n, 1);
        assert(tokens(src, cs[1]) == "mut"@);
    }
    if typed {
        lemma_tokens_step(src, n, p + 1);
        lemma_tokens_step(src, n, p + 2);
        assert(nonblank(tokens_from(src, n, p + 1)) =~= ":"@ + nonblank(tokens(src, cs[p + 2])) + nonblank(
            tokens_from(src, n, p + 3),
        ));
    }
    assert(nonblank(tokens_from(src, n, vi - 1)) =~= "="@ + (nonblank(tokens(src, cs[vi])) + (";"@ + e)));
    assert(nonblank(tokens_from(src, n, p + 1)) =~= nty + nonblank(tokens_from(src, n, vi - 1)));
    assert(nonblank(tokens_from(src, n, p)) =~= nonblank(pat) + nonblank(tokens_from(src, n, p + 1)));
    assert(nonblank(tokens(src, n)) =~= nlw + nonblank(tokens_from(src, n, p)));
    assert(nonblank(tokens(src, n)) =~= nlw + (nonblank(pat) + (nty + ("="@ + nonblank(tokens(src, cs[vi]))
        + ";"@))));
}

/// A `let` statement prints token for token.
#[verifier::spinoff_prover]
#[verifier::rlimit(80)]
proof fn lemma_let_layout(src: Seq<u8>, n: Cst, d: usize)
    requires
        let_ok(src, n),
    ensures
        stmt(src, n, d) is Some,
        nonblank(stmt(src, n, d)->Some_0) == nonblank(tokens(src, n)),
{
    lemma_statement_kinds();
    lemma_nonblank_literals();
    lemma_let_parts(src, n);
    lemma_let_tokens(src, n);
    reveal_strlit("let mut ");
    reveal_strlit("let ");
    reveal_strlit(": ");
    reveal_strlit(" = ");
    reveal_strlit(";\n");
    reveal_strlit("");
    let cs = n.children@;
    let m = let_mut(n);
    let p = 1 + m;
    let typed = let_typed(n);
    let vi = let_value(n);
    let e = Seq::<char>::empty();
    let pat = text(src, cs[p])->Some_0;
    assert(binding(src, cs[p]) == Some(pat));
    lemma_expr_layout_only(src, cs[p + 2]);
    if typed {
        lemma_expr_layout_only(src, cs[p + 4]);
    }
    let va = expr(src, cs[vi])->Some_0;
    let lw = if m == 1 {
        "let mut "@
    } else {
        "let "@
    };
    let ty = if typed {
        ": "@ + expr(src, cs[p + 2])->Some_0
    } else {
        e
    };
    let tail = ty + (" = "@ + va + ";\n"@);
    let printed = indent(d as nat) + (lw + (pat + tail));
    assert(stmt(src, n, d) == Some(printed));
    lemma_indent_blank(d as nat);
    lemma_nonblank_concat(" = "@ + va, ";\n"@);
    lemma_nonblank_concat(" = "@, va);
    lemma_nonblank_concat(ty, " = "@ + va + ";\n"@);
    if typed {
        lemma_nonblank_concat(": "@, expr(src, cs[p + 2])->Some_0);
    }
    lemma_nonblank_concat(pat, tail);
    lemma_nonblank_concat(lw, pat + tail);
    lemma_nonblank_concat(indent(d as nat), lw + (pat + tail));
    let nty = if typed {
        ":"@ + nonblank(tokens(src, cs[p + 2]))
    } else {
        e
    };
    let nlw = if m == 1 {
        "let"@ + "mut"@
    } else {
        "let"@
    };
    assert(nonblank(printed) =~= nlw + (nonblank(pat) + (nty + ("="@ + nonblank(tokens(src, cs[vi])) + ";"@))));
}

/// A statement prints token for token.
#[verifier::spinoff_prover]
#[verifier::rlimit(60)]
proof fn lemma_stmt_layout(src: Seq<u8>, n: Cst, d: usize)
    requires
        stmt_ok(src, n),
    ensures
        stmt(src, n, d) is Some,
        nonblank(stmt(src, n, d)->Some_0) == nonblank(tokens(src, n)),
{
    lemma_statement_kinds();
    lemma_nonblank_literals();
    lemma_indent_blank(d as nat);
    reveal_strlit(";\n");
    reveal_strlit("\n");
    let cs = n.children@;
    let e = Seq::<char>::empty();
    if let_ok(src, n) {
        lemma_let_layout(src, n, d);
    } else if n.kind@ == "expression_statement"@ && cs.len() == 2 && cs[0].named && operator_expr(src, cs[0])
        && punct(src, cs[1], ";"@) {
        assert(find_named(cs, 0) == 0);
        lemma_expr_layout_only(src, cs[0]);
        let x = expr(src, cs[0])->Some_0;
        assert(stmt(src, n, d) == Some(indent(d as nat) + (x + ";\n"@)));
        lemma_nonblank_concat(x, ";\n"@);
        lemma_nonblank_concat(indent(d as nat), x + ";\n"@);
        assert(tokens(src, n) == tokens_from(src, n, 0));
        lemma_tokens_end(src, n);
        lemma_tokens_step(src, n, 1);
        lemma_tokens_step(src, n, 0);
        assert(nonblank(tokens(src, n)) =~= nonblank(tokens(src, cs[0])) + (";"@ + e));
        assert(nonblank(stmt(src, n, d)->Some_0) =~= e + (nonblank(x) + ";"@));
    } else {
        lemma_operator_kind(src, n);
        lemma_expr_layout_only(src, n);
        let x = expr(src, n)->Some_0;
        assert(stmt(src, n, d) == Some(indent(d as nat) + (x + "\n"@)));
        lemma_nonblank_concat(x, "\n"@);
        lemma_nonblank_concat(indent(d as nat), x + "\n"@);
        assert(nonblank(stmt(src, n, d)->Some_0) =~= e + (nonblank(x) + e));
    }
}

proof fn lemma_stmts_layout(src: Seq<u8>, n: Cst, d: usize, i: int)
    requires
        block_ok(src, n),
        1 <= i <= n.children@.len() - 1,
    ensures
        stmts(src, n, d, i) is Some,
        nonblank(stmts(src, n, d, i)->Some_0) + "}"@ == nonblank(tokens_from(src, n, i)),
    decreases n.children@.len() - i,
{
    lemma_nonblank_literals();
    let cs = n.children@;
    let e = Seq::<char>::empty();
    lemma_tokens_step(src, n, i);
    if i == cs.len() - 1 {
        assert(stmts(src, n, d, i + 1) == Some(e));
        assert(stmts(src, n, d, i) == Some(e));
        lemma_tokens_end(src, n);
        assert(tokens(src, cs[i]) == "}"@);
        assert(nonblank(e) =~= e);
        assert(e + "}"@ =~= "}"@ + e);
    } else {
        assert(cs[i].named && stmt_ok(src, cs[i]));
        lemma_stmt_layout(src, cs[i], d);
        lemma_stmts_layout(src, n, d, i + 1);
        let x = stmt(src, cs[i], d)->Some_0;
        let t = stmts(src, n, d, i + 1)->Some_0;
        assert(stmts(src, n, d, i) == Some(x + t));
        lemma_nonblank_concat(x, t);
        assert(nonblank(x + t) + "}"@ =~= nonblank(x) + (nonblank(t) + "}"@));
    }
}

/// A block prints token for token: its statements, each of the kinds that
/// [`stmt_ok`] allows, keep every token, in order, whatever the depth.
pub proof fn lemma_block_layout_only(src: Seq<u8>, n: Cst, d: usize)
    requires
        block_ok(src, n),
    ensures
        block(src, n, d) is Some,
        nonblank(block(src, n, d)->Some_0) == nonblank(tokens(src, n)),
{
    lemma_statement_kinds();
    lemma_nonblank_literals();
    lemma_indent_blank(d as nat);
    reveal_strlit("{\n");
    reveal_strlit("}\n");
    let cs = n.children@;
    let e = Seq::<char>::empty();
    lemma_stmts_layout(src, n, deeper(d), 1);
    assert(stmts(src, n, deeper(d), 0) == stmts(src, n, deeper(d), 1));
    let t = stmts(src, n, deeper(d), 1)->Some_0;
    let printed = "{\n"@ + (t + (indent(d as nat) + "}\n"@));
    assert(block(src, n, d) == Some(printed));
    lemma_nonblank_concat(indent(d as nat), "}\n"@);
    lemma_nonblank_concat(t, indent(d as nat) + "}\n"@);
    lemma_nonblank_concat("{\n"@, t + (indent(d as nat) + "}\n"@));
    assert(tokens(src, n) == tokens_from(src, n, 0));
    lemma_tokens_step(src, n, 0);
    assert(tokens(src, cs[0]) == "{"@);
    assert(nonblank(printed) =~= "{"@ + (nonblank(t) + "}"@));
}

// ─── Functions and files ─────────────────────────────────────────────────────

/// A parameter `name: type` as Tree-sitter builds it.
pub open spec fn param_ok(src: Seq<u8>, c: Cst) -> bool {
    let cs = c.children@;
    &&& c.kind@ == "parameter"@
    &&& cs.len() == 3
    &&& fills(cs[0], "pattern"@) && cs[0].kind@ == "identifier"@ && text(src, cs[0]) is Some
    &&& punct(src, cs[1], ":"@)
    &&& field_expr(src, cs[2], "type"@)
}

/// Whether the children of a parameter list from index `j` on are the rest
/// of `( p, q, ... )` without a trailing comma: `st` is 0 right after `(`, 1
/// after a parameter, 2 after a comma; each parameter is a [`param_ok`].
pub open spec fn params_ok(src: Seq<u8>, a: Cst, j: int, st: int) -> bool
    decreases a.children@.len() - j,
{
    let cs = a.children@;
    if j < 0 || j >= cs.len() {
        false
    } else if st != 2 && j == cs.len() - 1 && punct(src, cs[j], ")"@) {
        true
    } else if st == 1 {
        punct(src, cs[j], ","@) && params_ok(src, a, j + 1, 2)
    } else if st == 0 || st == 2 {
        cs[j].named && param_ok(src, cs[j]) && params_ok(src, a, j + 1, 1)
    } else {
        false
    }
}

/// A function as Tree-sitter builds it: `fn`, a name, a parameter list
/// ([`params_ok`]), `-> type` when present, and a body ([`block_ok`]).
pub open spec fn fn_ok(src: Seq<u8>, n: Cst) -> bool {
    let cs = n.children@;
    &&& n.kind@ == "function_item"@
    &&& cs.len() == 4 || cs.len() == 6
    &&& punct(src, cs[0], "fn"@)
    &&& fills(cs[1], "name"@) && cs[1].kind@ == "identifier"@ && text(src, cs[1]) is Some
    &&& fills(cs[2], "parameters"@) && cs[2].kind@ == "parameters"@ && cs[2].children@.len() > 0
    &&& punct(src, cs[2].children@[0], "("@) && params_ok(src, cs[2], 1, 0)
    &&& cs.len() == 6 ==> (punct(src, cs[3], "->"@) && field_expr(src, cs[4], "return_type"@))
    &&& fills(cs[cs.len() - 1], "body"@) && block_ok(src, cs[cs.len() - 1])
}

proof fn lemma_param_layout(src: Seq<u8>, c: Cst)
    requires
        param_ok(src, c),
    ensures
        param(src, c) is Some,
        nonblank(param(src, c)->Some_0) == nonblank(tokens(src, c)),
{
    lemma_statement_kinds();
    lemma_nonblank_literals();
    reveal_strlit(": ");
    reveal_strlit("parameter");
    reveal_strlit("self_parameter");
    reveal_strlit("identifier");
    reveal_strlit("integer_literal");
    reveal_strlit("float_literal");
    reveal_strlit("primitive_type");
    reveal_strlit("string_literal");
    reveal_strlit("char_literal");
    reveal_strlit("boolean_literal");
    reveal_strlit("field_identifier");
    reveal_strlit("type_identifier");
    reveal_strlit("self");
    let cs = c.children@;
    let e = Seq::<char>::empty();
    assert(c.kind@ != "self_parameter"@) by {
        assert("parameter"@.len() == 9 && "self_parameter"@.len() == 14);
    }
    assert(!is_atom(c.kind@)) by {
        assert("parameter"@[0] == 'p' && "primitive_type"@[0] == 'p' && "primitive_type"@.len() == 14);
        assert("identifier"@[0] == 'i' && "integer_literal"@[0] == 'i' && "float_literal"@[0] == 'f');
        assert("string_literal"@[0] == 's' && "self"@[0] == 's' && "char_literal"@[0] == 'c');
        assert("boolean_literal"@[0] == 'b' && "field_identifier"@[0] == 'f' && "type_identifier"@[0] == 't');
    }
    assert(fidx(c, "pattern"@) == 0);
    assert(find_field(cs, "type"@, 2) == 2);
    assert(find_field(cs, "type"@, 1) == 2);
    assert(fidx(c, "type"@) == 2);
    lemma_operator_kind(src, cs[2]);
    assert forall|q: int| 0 <= q < cs.len() implies (#[trigger] cs[q]).kind@ != "mutable_specifier"@ by {}
    lemma_find_kind_none(cs, "mutable_specifier"@, 0);
    lemma_expr_layout_only(src, cs[2]);
    let pat = text(src, cs[0])->Some_0;
    let ty = expr(src, cs[2])->Some_0;
    assert(binding(src, cs[0]) == Some(pat));
    assert(param(src, c) == Some(pat + (": "@ + ty)));
    lemma_nonblank_concat(": "@, ty);
    lemma_nonblank_concat(pat, ": "@ + ty);
    assert(tokens(src, c) == tokens_from(src, c, 0));
    lemma_tokens_end(src, c);
    lemma_tokens_step(src, c, 2);
    lemma_tokens_step(src, c, 1);
    lemma_tokens_step(src, c, 0);
    assert(tokens(src, cs[0]) == pat);
    assert(nonblank(tokens(src, c)) =~= nonblank(pat) + (":"@ + (nonblank(tokens(src, cs[2])) + e)));
}

/// A parameter list from index `j` on prints as its tokens do, up to layout.
#[verifier::spinoff_prover]
#[verifier::rlimit(60)]
proof fn lemma_params_layout(src: Seq<u8>, a: Cst, j: int, st: int)
    requires
        params_ok(src, a, j, st),
    ensures
        params(src, a, j, st == 0) is Some,
        nonblank(params(src, a, j, st == 0)->Some_0 + ")"@) == (if st == 2 {
            ","@
        } else {
            Seq::<char>::empty()
        }) + nonblank(tokens_from(src, a, j)),
    decreases a.children@.len() - j,
{
    reveal_strlit(")");
    reveal_strlit(",");
    reveal_strlit(", ");
    reveal_strlit("");
    let cs = a.children@;
    let rp = ")"@;
    let cm = ","@;
    let sep = ", "@;
    assert(rp =~= seq![')']);
    assert(cm =~= seq![',']);
    lemma_nonblank_token(')');
    lemma_nonblank_token(',');
    assert(nonblank(sep) =~= cm) by {
        assert(sep.drop_last() =~= cm);
        assert(sep.last() == ' ');
    }
    let e = Seq::<char>::empty();
    if st != 2 && j == cs.len() - 1 && punct(src, cs[j], rp) {
        assert(params(src, a, j + 1, st == 0) == Some(e));
        assert(params(src, a, j, st == 0) == Some(e));
        assert(tokens_from(src, a, j + 1) =~= e);
        assert(tokens(src, cs[j]) == rp);
        assert(tokens_from(src, a, j) == rp + e);
        assert(rp + e =~= rp);
        assert(e + rp =~= rp);
        assert(nonblank(params(src, a, j, st == 0)->Some_0 + rp) == (if st == 2 {
            cm
        } else {
            e
        }) + nonblank(tokens_from(src, a, j)));
    } else if st == 1 {
        lemma_params_layout(src, a, j + 1, 2);
        let t = params(src, a, j + 1, false)->Some_0;
        assert(params(src, a, j, false) == Some(t));
        assert(tokens(src, cs[j]) == cm);
        assert(tokens_from(src, a, j) == cm + tokens_from(src, a, j + 1));
        lemma_nonblank_concat(cm, tokens_from(src, a, j + 1));
        assert(e + nonblank(tokens_from(src, a, j)) =~= nonblank(tokens_from(src, a, j)));
        assert(nonblank(params(src, a, j, st == 0)->Some_0 + rp) == (if st == 2 {
            cm
        } else {
            e
        }) + nonblank(tokens_from(src, a, j)));
    } else {
        lemma_param_layout(src, cs[j]);
        lemma_params_layout(src, a, j + 1, 1);
        let x = param(src, cs[j])->Some_0;
        let t = params(src, a, j + 1, false)->Some_0;
        let c = if st == 0 {
            e
        } else {
            sep
        };
        assert(comma(st == 0) == Some(c));
        assert(params(src, a, j, st == 0) == Some((c + x) + t));
        assert(tokens_from(src, a, j) == tokens(src, cs[j]) + tokens_from(src, a, j + 1));
        assert(((c + x) + t) + rp =~= c + (x + (t + rp)));
        lemma_nonblank_concat(t, rp);
        lemma_nonblank_concat(x, t + rp);
        lemma_nonblank_concat(c, x + (t + rp));
        lemma_nonblank_concat(tokens(src, cs[j]), tokens_from(src, a, j + 1));
        if st == 0 {
            assert(nonblank(c) =~= e);
            assert(e + (nonblank(x) + nonblank(t + rp)) =~= nonblank(x) + nonblank(t + rp));
            assert(e + nonblank(tokens_from(src, a, j)) =~= nonblank(tokens_from(src, a, j)));
        } else {
            assert(cm + (nonblank(x) + nonblank(t + rp)) =~= cm + nonblank(tokens_from(src, a, j)));
        }
        assert(nonblank(params(src, a, j, st == 0)->Some_0 + rp) == (if st == 2 {
            cm
        } else {
            e
        }) + nonblank(tokens_from(src, a, j)));
    }
}

/// Whether `k` is one of the kinds that put a function outside the printed
/// subset.
pub open spec fn excluded_kind(k: Seq<char>) -> bool {
    k == "visibility_modifier"@ || k == "type_parameters"@ || k == "where_clause"@ || k == "function_modifiers"@
        || k == "unsafe"@
}

proof fn lemma_excluded_kinds(src: Seq<u8>, n: Cst)
    requires
        operator_expr(src, n) || n.kind@ == "fn"@ || n.kind@ == "identifier"@ || n.kind@ == "parameters"@
            || n.kind@ == "->"@ || n.kind@ == "block"@,
    ensures
        !excluded_kind(n.kind@),
{
    reveal_strlit("visibility_modifier");
    reveal_strlit("type_parameters");
    reveal_strlit("where_clause");
    reveal_strlit("function_modifiers");
    reveal_strlit("unsafe");
    reveal_strlit("fn");
    reveal_strlit("parameters");
    reveal_strlit("->");
    reveal_strlit("block");
    reveal_strlit("identifier");
    reveal_strlit("integer_literal");
    reveal_strlit("float_literal");
    reveal_strlit("primitive_type");
    reveal_strlit("string_literal");
    reveal_strlit("char_literal");
    reveal_strlit("boolean_literal");
    reveal_strlit("field_identifier");
    reveal_strlit("type_identifier");
    reveal_strlit("self");
    reveal_strlit("binary_expression");
    reveal_strlit("parenthesized_expression");
    reveal_strlit("field_expression");
    reveal_strlit("macro_invocation");
    reveal_strlit("scoped_identifier");
    reveal_strlit("scoped_type_identifier");
    reveal_strlit("reference_type");
    reveal_strlit("generic_type");
    reveal_strlit("struct_expression");
    reveal_strlit("call_expression");
    let k = n.kind@;
    assert(k.len() == 19 ==> k[0] != 'v');
    assert(k.len() == 15 ==> k[5] != 'p');
    assert(k.len() == 12 ==> k[0] != 'w');
    assert(k.len() == 18 ==> k[0] != 'f');
    assert(k.len() == 6 ==> k[0] != 'u');
}

/// A function prints token for token: its name, parameters, return type and
/// body keep every token, in order.
#[verifier::spinoff_prover]
#[verifier::rlimit(100)]
pub proof fn lemma_fn_layout_only(src: Seq<u8>, n: Cst, d: usize)
    requires
        fn_ok(src, n),
    ensures
        item(src, n, d) is Some,
        nonblank(item(src, n, d)->Some_0) == nonblank(tokens(src, n)),
{
    lemma_statement_kinds();
    lemma_nonblank_literals();
    lemma_indent_blank(d as nat);
    reveal_strlit("fn ");
    reveal_strlit("fn");
    reveal_strlit("(");
    reveal_strlit(")");
    reveal_strlit(" -> ");
    reveal_strlit("->");
    reveal_strlit(" ");
    reveal_strlit("");
    reveal_strlit("name");
    reveal_strlit("parameters");
    reveal_strlit("return_type");
    reveal_strlit("body");
    reveal_strlit("function_item");
    let cs = n.children@;
    let e = Seq::<char>::empty();
    let long = cs.len() == 6;
    let b = cs.len() - 1;
    // No excluded kind among the children.
    assert forall|q: int| 0 <= q < cs.len() implies !excluded_kind((#[trigger] cs[q]).kind@) by {
        if q == cs.len() - 1 {
            lemma_excluded_kinds(src, cs[q]);
        } else if long && q == 4 {
            lemma_excluded_kinds(src, cs[q]);
        } else {
            lemma_excluded_kinds(src, cs[q]);
        }
    }
    assert forall|q: int| 0 <= q < cs.len() implies (#[trigger] cs[q]).kind@ != "visibility_modifier"@ by {
        assert(!excluded_kind(cs[q].kind@));
    }
    assert forall|q: int| 0 <= q < cs.len() implies (#[trigger] cs[q]).kind@ != "type_parameters"@ by {
        assert(!excluded_kind(cs[q].kind@));
    }
    assert forall|q: int| 0 <= q < cs.len() implies (#[trigger] cs[q]).kind@ != "where_clause"@ by {
        assert(!excluded_kind(cs[q].kind@));
    }
    assert forall|q: int| 0 <= q < cs.len() implies (#[trigger] cs[q]).kind@ != "function_modifiers"@ by {
        assert(!excluded_kind(cs[q].kind@));
    }
    assert forall|q: int| 0 <= q < cs.len() implies (#[trigger] cs[q]).kind@ != "unsafe"@ by {
        assert(!excluded_kind(cs[q].kind@));
    }
    lemma_find_kind_none(cs, "visibility_modifier"@, 0);
    lemma_find_kind_none(cs, "type_parameters"@, 0);
    lemma_find_kind_none(cs, "where_clause"@, 0);
    lemma_find_kind_none(cs, "function_modifiers"@, 0);
    lemma_find_kind_none(cs, "unsafe"@, 0);
    assert(!crate::printer::outside_subset(n));
    // Where the printer finds each part.
    assert("name"@.len() == 4 && "parameters"@.len() == 10 && "return_type"@.len() == 11 && "body"@.len() == 4);
    assert("name"@[0] == 'n' && "body"@[0] == 'b');
    lemma_find_field_at(cs, "name"@, 0, 1);
    assert forall|q: int| 0 <= q < 2 implies !fills(#[trigger] cs[q], "parameters"@) by {}
    lemma_find_field_at(cs, "parameters"@, 0, 2);
    assert forall|q: int| 0 <= q < b implies !fills(#[trigger] cs[q], "body"@) by {}
    lemma_find_field_at(cs, "body"@, 0, b);
    if long {
        assert forall|q: int| 0 <= q < 4 implies !fills(#[trigger] cs[q], "return_type"@) by {}
        lemma_find_field_at(cs, "return_type"@, 0, 4);
    } else {
        assert forall|q: int| 0 <= q < cs.len() implies !fills(#[trigger] cs[q], "return_type"@) by {}
        lemma_find_field_none(cs, "return_type"@, 0);
    }
    // The printed pieces.
    let name = text(src, cs[1])->Some_0;
    lemma_params_layout(src, cs[2], 1, 0);
    assert(params(src, cs[2], 0, true) == params(src, cs[2], 1, true));
    let ps = params(src, cs[2], 1, true)->Some_0;
    lemma_block_layout_only(src, cs[b], d);
    let body = block(src, cs[b], d)->Some_0;
    if long {
        lemma_expr_layout_only(src, cs[4]);
    }
    let ret = if long {
        " -> "@ + expr(src, cs[4])->Some_0
    } else {
        e
    };
    let printed = indent(d as nat) + ("fn "@ + (name + (("("@ + (ps + ")"@)) + (ret + (" "@ + body)))));
    assert(item(src, n, d) == Some(printed));
    assert(nonblank("fn "@) =~= "fn"@) by {
        reveal_with_fuel(nonblank, 4);
    }
    assert(nonblank(" "@) =~= e) by {
        reveal_with_fuel(nonblank, 2);
    }
    assert(nonblank(" -> "@) =~= "->"@) by {
        reveal_with_fuel(nonblank, 5);
    }
    assert(nonblank("("@) =~= "("@) by {
        reveal_with_fuel(nonblank, 2);
    }
    lemma_nonblank_concat(" "@, body);
    if long {
        lemma_nonblank_concat(" -> "@, expr(src, cs[4])->Some_0);
    }
    lemma_nonblank_concat(ret, " "@ + body);
    lemma_nonblank_concat(ps, ")"@);
    lemma_nonblank_concat("("@, ps + ")"@);
    lemma_nonblank_concat("("@ + (ps + ")"@), ret + (" "@ + body));
    lemma_nonblank_concat(name, ("("@ + (ps + ")"@)) + (ret + (" "@ + body)));
    lemma_nonblank_concat("fn "@, name + (("("@ + (ps + ")"@)) + (ret + (" "@ + body))));
    lemma_nonblank_concat(indent(d as nat), "fn "@ + (name + (("("@ + (ps + ")"@)) + (ret + (" "@ + body)))));
    let nret = if long {
        "->"@ + nonblank(tokens(src, cs[4]))
    } else {
        e
    };
    assert(nonblank(printed) =~= "fn"@ + (nonblank(name) + ("("@ + nonblank(tokens_from(src, cs[2], 1)) + (nret
        + nonblank(tokens(src, cs[b]))))));
    // The tokens.
    lemma_nonblank_token('(');
    assert("("@ =~= seq!['(']);
    assert(tokens(src, cs[2]) == tokens_from(src, cs[2], 0)) by {
        reveal_strlit("parameters");
        reveal_strlit("identifier");
        reveal_strlit("integer_literal");
        reveal_strlit("float_literal");
        reveal_strlit("primitive_type");
        reveal_strlit("string_literal");
        reveal_strlit("char_literal");
        reveal_strlit("boolean_literal");
        reveal_strlit("field_identifier");
        reveal_strlit("type_identifier");
        reveal_strlit("self");
        assert("parameters"@[0] == 'p' && "primitive_type"@.len() == 14 && "identifier"@[0] == 'i');
        assert("parameters"@.len() == 10 && "identifier"@.len() == 10);
    }
    lemma_tokens_step(src, cs[2], 0);
    assert(tokens(src, cs[2].children@[0]) == "("@);
    assert(tokens(src, n) == tokens_from(src, n, 0)) by {
        reveal_strlit("function_item");
        reveal_strlit("identifier");
        reveal_strlit("integer_literal");
        reveal_strlit("float_literal");
        reveal_strlit("primitive_type");
        reveal_strlit("string_literal");
        reveal_strlit("char_literal");
        reveal_strlit("boolean_literal");
        reveal_strlit("field_identifier");
        reveal_strlit("type_identifier");
        reveal_strlit("self");
        assert("function_item"@.len() == 13 && "function_item"@[0] == 'f' && "float_literal"@[1] == 'l');
        assert("function_item"@[1] == 'u');
    }
    lemma_tokens_end(src, n);
    lemma_tokens_step(src, n, b);
    lemma_tokens_step(src, n, 2);
    lemma_tokens_step(src, n, 1);
    lemma_tokens_step(src, n, 0);
    assert(tokens(src, cs[0]) == "fn"@);
    assert(tokens(src, cs[1]) == name);
    if long {
        lemma_tokens_step(src, n, 3);
        lemma_tokens_step(src, n, 4);
        assert(tokens(src, cs[3]) == "->"@);
        assert(nonblank("->"@) =~= "->"@) by {
            reveal_with_fuel(nonblank, 3);
        }
    }
    assert(nonblank("fn"@) =~= "fn"@) by {
        reveal_with_fuel(nonblank, 3);
    }
    assert(nonblank(tokens_from(src, n, 3)) =~= nret + nonblank(tokens(src, cs[b])));
    assert(nonblank(tokens(src, n)) =~= "fn"@ + (nonblank(name) + ("("@ + nonblank(tokens_from(src, cs[2], 1))
        + (nret + nonblank(tokens(src, cs[b]))))));
}

/// A source file of functions as Tree-sitter builds it: every item a
/// [`fn_ok`] function.
pub open spec fn file_ok(src: Seq<u8>, root: Cst) -> bool {
    let cs = root.children@;
    &&& root.kind@ == "source_file"@
    &&& cs.len() > 0
    &&& forall|i: int| 0 <= i < cs.len() ==> (#[trigger] cs[i]).named && fn_ok(src, cs[i])
}

proof fn lemma_items_layout(src: Seq<u8>, root: Cst, i: int, first: bool)
    requires
        file_ok(src, root),
        0 <= i <= root.children@.len(),
    ensures
        items(src, root, i, first) is Some,
        nonblank(items(src, root, i, first)->Some_0) == nonblank(tokens_from(src, root, i)),
    decreases root.children@.len() - i,
{
    lemma_nonblank_literals();
    reveal_strlit("");
    reveal_strlit("\n");
    let cs = root.children@;
    let e = Seq::<char>::empty();
    if i == cs.len() {
        lemma_tokens_end(src, root);
        assert(nonblank(e) =~= e);
    } else {
        assert(cs[i].named && fn_ok(src, cs[i]));
        lemma_fn_layout_only(src, cs[i], 0);
        lemma_items_layout(src, root, i + 1, false);
        lemma_tokens_step(src, root, i);
        let bl = if first {
            ""@
        } else {
            "\n"@
        };
        assert(blank(first) == Some(bl));
        assert(nonblank(bl) =~= e) by {
            reveal_with_fuel(nonblank, 2);
        }
        let x = item(src, cs[i], 0)->Some_0;
        let t = items(src, root, i + 1, false)->Some_0;
        assert(items(src, root, i, first) == Some((bl + x) + t));
        lemma_nonblank_concat(bl, x);
        lemma_nonblank_concat(bl + x, t);
        assert(nonblank((bl + x) + t) =~= nonblank(x) + nonblank(t));
    }
}

/// Canonicalizing a file of functions changes only its layout: for a file
/// that parses without error into functions of the printed subset, the
/// canonical bytes are produced, and the text they encode, without blank
/// space, reads exactly as the file's tokens do, every token kept and in
/// order; so the canonical file is the same program.
pub proof fn lemma_canonical_layout_only(src: Seq<u8>, root: Cst, r: Result<Vec<u8>, Error>)
    requires
        canonical_result(src, root, false, r),
        file_ok(src, root),
    ensures
        r matches Ok(out) && nonblank(decode_utf8(out@)) == nonblank(tokens(src, root)),
{
    reveal_strlit("\n");
    reveal_strlit("source_file");
    reveal_strlit("identifier");
    reveal_strlit("integer_literal");
    reveal_strlit("float_literal");
    reveal_strlit("primitive_type");
    reveal_strlit("string_literal");
    reveal_strlit("char_literal");
    reveal_strlit("boolean_literal");
    reveal_strlit("field_identifier");
    reveal_strlit("type_identifier");
    reveal_strlit("self");
    lemma_nonblank_literals();
    lemma_items_layout(src, root, 0, true);
    let t = items(src, root, 0, true)->Some_0;
    let f = source_file(src, root)->Some_0;
    if t.len() == 0 {
        assert(f == "\n"@);
        assert(nonblank(t) =~= Seq::<char>::empty());
    }
    assert(nonblank(f) == nonblank(t));
    encode_utf8_decode_utf8(f);
    assert(!is_atom(root.kind@)) by {
        assert("source_file"@[0] == 's' && "source_file"@.len() == 11);
        assert("string_literal"@.len() == 14 && "self"@.len() == 4);
    }
    assert(tokens(src, root) == tokens_from(src, root, 0));
}

} // verus!
