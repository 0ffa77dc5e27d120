//! The textual IR reader.
//!
//! The grammar is small and structural: a body is a blank-separated list of
//! operations; an operation is an optional result list `%a, %b =`, a name
//! (letters, digits, `_` and `.`), an optional operand list `(%a, %b)`, an
//! optional attribute list `[key = value, ...]`, and any number of braced
//! regions `{ ... }`, each holding one block of operations. Any failure
//! surfaces as absence; the reader never stops the program.
//!
//! Everything the reader builds goes through the store's checked
//! allocators, so a successful parse leaves the store well-formed and every
//! pre-existing entity untouched.

use vstd::pervasive::VecAdditionalExecFns;
use vstd::prelude::*;

use crate::store::store_extends;
use crate::store::NamedAttrNode;
use crate::store::Store;
use crate::store::StoreModel;

verus! {

broadcast use vstd::slice::group_slice_axioms;

/// One visible result name and the value handle it denotes.
pub(crate) struct ScopeEntry {
    pub(crate) name: Vec<u8>,
    pub(crate) value: usize,
}

/// Every value handle recorded in the scope names a value of the store.
pub(crate) open spec fn scope_wf(s: Seq<ScopeEntry>, c: StoreModel) -> bool {
    forall|i: int| 0 <= i < s.len() ==> c.valid_value((#[trigger] s[i]).value as nat)
}

/// A scope stays well-formed when the store only grows.
proof fn lemma_scope_wf_grow(s: Seq<ScopeEntry>, a: StoreModel, b: StoreModel)
    requires
        scope_wf(s, a),
        a.values.len() <= b.values.len(),
    ensures
        scope_wf(s, b),
{
    assert forall|i: int| 0 <= i < s.len() implies b.valid_value(
        (#[trigger] s[i]).value as nat,
    ) by {
        assert(a.valid_value(s[i].value as nat));
    }
}

/// Whether a byte is blank space between tokens.
pub open spec fn spec_is_space(b: u8) -> bool {
    b == 32 || b == 9 || b == 10 || b == 13
}

/// Whether a byte may stand in a name: a letter, a digit, `_` or `.`.
pub open spec fn spec_is_ident_byte(b: u8) -> bool {
    (97 <= b <= 122) || (65 <= b <= 90) || (48 <= b <= 57) || b == 95 || b == 46
}

/// The names a scope defines, in the order they were recorded.
pub(crate) open spec fn names_of(s: Seq<ScopeEntry>) -> Seq<Seq<u8>> {
    Seq::new(s.len(), |i: int| s[i].name@)
}

/// The byte strings of a sequence of byte vectors.
pub(crate) open spec fn vecs_bytes(s: Seq<Vec<u8>>) -> Seq<Seq<u8>> {
    Seq::new(s.len(), |i: int| s[i]@)
}

/// Whether a result name is among the defined ones.
pub open spec fn name_defined(defs: Seq<Seq<u8>>, n: Seq<u8>) -> bool {
    exists|i: int| 0 <= i < defs.len() && defs[i] == n
}

/// The position after the blank space starting at `pos`.
pub open spec fn sp_skip_ws(t: Seq<u8>, pos: int) -> int
    decreases t.len() - pos,
{
    if 0 <= pos < t.len() && spec_is_space(t[pos]) {
        sp_skip_ws(t, pos + 1)
    } else {
        pos
    }
}

pub proof fn lemma_sp_skip_ws_bounds(t: Seq<u8>, pos: int)
    ensures
        pos <= sp_skip_ws(t, pos),
        pos <= t.len() ==> sp_skip_ws(t, pos) <= t.len(),
    decreases t.len() - pos,
{
    if 0 <= pos < t.len() && spec_is_space(t[pos]) {
        lemma_sp_skip_ws_bounds(t, pos + 1);
    }
}

/// The end of the run of name bytes starting at `pos`.
pub open spec fn sp_ident_end(t: Seq<u8>, pos: int) -> int
    decreases t.len() - pos,
{
    if 0 <= pos < t.len() && spec_is_ident_byte(t[pos]) {
        sp_ident_end(t, pos + 1)
    } else {
        pos
    }
}

pub proof fn lemma_sp_ident_end_bounds(t: Seq<u8>, pos: int)
    ensures
        pos <= sp_ident_end(t, pos),
        pos <= t.len() ==> sp_ident_end(t, pos) <= t.len(),
    decreases t.len() - pos,
{
    if 0 <= pos < t.len() && spec_is_ident_byte(t[pos]) {
        lemma_sp_ident_end_bounds(t, pos + 1);
    }
}

/// The result-list form `%a, %b =`: the declared names and the position
/// just past the `=`.
pub open spec fn sp_results(t: Seq<u8>, pos: int) -> Option<(Seq<Seq<u8>>, int)>
    decreases t.len() - pos,
    via sp_results_dec
{
    if !(0 <= pos < t.len() && t[pos] == 37) {
        None
    } else {
        let e = sp_ident_end(t, pos + 1);
        if !(e > pos + 1) {
            None
        } else {
            let nm = t.subrange(pos + 1, e);
            let p3 = sp_skip_ws(t, e);
            if 0 <= p3 < t.len() && t[p3] == 44 {
                match sp_results(t, sp_skip_ws(t, p3 + 1)) {
                    Some(rest) => Some((seq![nm] + rest.0, rest.1)),
                    None => None,
                }
            } else if 0 <= p3 < t.len() && t[p3] == 61 {
                Some((seq![nm], p3 + 1))
            } else {
                None
            }
        }
    }
}

#[via_fn]
proof fn sp_results_dec(t: Seq<u8>, pos: int) {
    if 0 <= pos < t.len() && t[pos] == 37 {
        let e = sp_ident_end(t, pos + 1);
        lemma_sp_ident_end_bounds(t, pos + 1);
        let p3 = sp_skip_ws(t, e);
        lemma_sp_skip_ws_bounds(t, e);
        lemma_sp_skip_ws_bounds(t, p3 + 1);
    }
}

/// The tail of an operand list after the opening parenthesis and blank
/// space: `%a, %b)`, each name required to be defined. Yields the position
/// just past the closing parenthesis.
pub open spec fn sp_operand_tail(t: Seq<u8>, pos: int, defs: Seq<Seq<u8>>) -> Option<int>
    decreases t.len() - pos,
    via sp_operand_tail_dec
{
    if !(0 <= pos < t.len() && t[pos] == 37) {
        None
    } else {
        let e = sp_ident_end(t, pos + 1);
        if !(e > pos + 1) {
            None
        } else if !name_defined(defs, t.subrange(pos + 1, e)) {
            None
        } else {
            let p3 = sp_skip_ws(t, e);
            if 0 <= p3 < t.len() && t[p3] == 44 {
                sp_operand_tail(t, sp_skip_ws(t, p3 + 1), defs)
            } else if 0 <= p3 < t.len() && t[p3] == 41 {
                Some(p3 + 1)
            } else {
                None
            }
        }
    }
}

#[via_fn]
proof fn sp_operand_tail_dec(t: Seq<u8>, pos: int, defs: Seq<Seq<u8>>) {
    if 0 <= pos < t.len() && t[pos] == 37 {
        let e = sp_ident_end(t, pos + 1);
        lemma_sp_ident_end_bounds(t, pos + 1);
        let p3 = sp_skip_ws(t, e);
        lemma_sp_skip_ws_bounds(t, e);
        lemma_sp_skip_ws_bounds(t, p3 + 1);
    }
}

/// An operand list `(%a, %b)` starting at an opening parenthesis.
pub open spec fn sp_operands(t: Seq<u8>, pos: int, defs: Seq<Seq<u8>>) -> Option<int> {
    if !(0 <= pos < t.len() && t[pos] == 40) {
        None
    } else {
        let p = sp_skip_ws(t, pos + 1);
        if 0 <= p < t.len() && t[p] == 41 {
            Some(p + 1)
        } else {
            sp_operand_tail(t, p, defs)
        }
    }
}

/// The tail of an attribute list after the opening bracket and blank
/// space: `k = v, ...]`. Yields the pairs and the position just past the
/// closing bracket.
pub open spec fn sp_attr_tail(t: Seq<u8>, pos: int) -> Option<(Seq<(Seq<u8>, Seq<u8>)>, int)>
    decreases t.len() - pos,
    via sp_attr_tail_dec
{
    let e = sp_ident_end(t, pos);
    if !(e > pos && pos >= 0) {
        None
    } else {
        let key = t.subrange(pos, e);
        let p3 = sp_skip_ws(t, e);
        if !(0 <= p3 < t.len() && t[p3] == 61) {
            None
        } else {
            let p4 = sp_skip_ws(t, p3 + 1);
            let e2 = sp_ident_end(t, p4);
            if !(e2 > p4) {
                None
            } else {
                let val = t.subrange(p4, e2);
                let p6 = sp_skip_ws(t, e2);
                if 0 <= p6 < t.len() && t[p6] == 44 {
                    match sp_attr_tail(t, sp_skip_ws(t, p6 + 1)) {
                        Some(rest) => Some((seq![(key, val)] + rest.0, rest.1)),
                        None => None,
                    }
                } else if 0 <= p6 < t.len() && t[p6] == 93 {
                    Some((seq![(key, val)], p6 + 1))
                } else {
                    None
                }
            }
        }
    }
}

#[via_fn]
proof fn sp_attr_tail_dec(t: Seq<u8>, pos: int) {
    let e = sp_ident_end(t, pos);
    lemma_sp_ident_end_bounds(t, pos);
    if e > pos && pos >= 0 {
        let p3 = sp_skip_ws(t, e);
        lemma_sp_skip_ws_bounds(t, e);
        if 0 <= p3 < t.len() && t[p3] == 61 {
            let p4 = sp_skip_ws(t, p3 + 1);
            lemma_sp_skip_ws_bounds(t, p3 + 1);
            let e2 = sp_ident_end(t, p4);
            lemma_sp_ident_end_bounds(t, p4);
            let p6 = sp_skip_ws(t, e2);
            lemma_sp_skip_ws_bounds(t, e2);
            lemma_sp_skip_ws_bounds(t, p6 + 1);
        }
    }
}

/// An attribute list `[k = v, ...]` starting at an opening bracket.
pub open spec fn sp_attrs(t: Seq<u8>, pos: int) -> Option<(Seq<(Seq<u8>, Seq<u8>)>, int)> {
    if !(0 <= pos < t.len() && t[pos] == 91) {
        None
    } else {
        let p = sp_skip_ws(t, pos + 1);
        if 0 <= p < t.len() && t[p] == 93 {
            Some((Seq::empty(), p + 1))
        } else {
            sp_attr_tail(t, p)
        }
    }
}

pub proof fn lemma_sp_results_bounds(t: Seq<u8>, pos: int)
    ensures
        sp_results(t, pos) matches Some(v) ==> pos < v.1 <= t.len(),
    decreases t.len() - pos,
{
    if 0 <= pos < t.len() && t[pos] == 37 {
        let e = sp_ident_end(t, pos + 1);
        lemma_sp_ident_end_bounds(t, pos + 1);
        if e > pos + 1 {
            let p3 = sp_skip_ws(t, e);
            lemma_sp_skip_ws_bounds(t, e);
            if 0 <= p3 < t.len() && t[p3] == 44 {
                lemma_sp_skip_ws_bounds(t, p3 + 1);
                lemma_sp_results_bounds(t, sp_skip_ws(t, p3 + 1));
            }
        }
    }
}

pub proof fn lemma_sp_operand_tail_bounds(t: Seq<u8>, pos: int, defs: Seq<Seq<u8>>)
    ensures
        sp_operand_tail(t, pos, defs) matches Some(e) ==> pos < e <= t.len(),
    decreases t.len() - pos,
{
    if 0 <= pos < t.len() && t[pos] == 37 {
        let e = sp_ident_end(t, pos + 1);
        lemma_sp_ident_end_bounds(t, pos + 1);
        if e > pos + 1 {
            let p3 = sp_skip_ws(t, e);
            lemma_sp_skip_ws_bounds(t, e);
            if 0 <= p3 < t.len() && t[p3] == 44 {
                lemma_sp_skip_ws_bounds(t, p3 + 1);
                lemma_sp_operand_tail_bounds(t, sp_skip_ws(t, p3 + 1), defs);
            }
        }
    }
}

pub proof fn lemma_sp_operands_bounds(t: Seq<u8>, pos: int, defs: Seq<Seq<u8>>)
    ensures
        sp_operands(t, pos, defs) matches Some(e) ==> pos < e <= t.len(),
{
    if 0 <= pos < t.len() && t[pos] == 40 {
        lemma_sp_skip_ws_bounds(t, pos + 1);
        lemma_sp_operand_tail_bounds(t, sp_skip_ws(t, pos + 1), defs);
    }
}

pub proof fn lemma_sp_attr_tail_bounds(t: Seq<u8>, pos: int)
    ensures
        sp_attr_tail(t, pos) matches Some(v) ==> pos < v.1 <= t.len(),
    decreases t.len() - pos,
{
    let e = sp_ident_end(t, pos);
    lemma_sp_ident_end_bounds(t, pos);
    if e > pos && pos >= 0 {
        let p3 = sp_skip_ws(t, e);
        lemma_sp_skip_ws_bounds(t, e);
        if 0 <= p3 < t.len() && t[p3] == 61 {
            let p4 = sp_skip_ws(t, p3 + 1);
            lemma_sp_skip_ws_bounds(t, p3 + 1);
            let e2 = sp_ident_end(t, p4);
            lemma_sp_ident_end_bounds(t, p4);
            if e2 > p4 {
                let p6 = sp_skip_ws(t, e2);
                lemma_sp_skip_ws_bounds(t, e2);
                if 0 <= p6 < t.len() && t[p6] == 44 {
                    lemma_sp_skip_ws_bounds(t, p6 + 1);
                    lemma_sp_attr_tail_bounds(t, sp_skip_ws(t, p6 + 1));
                }
            }
        }
    }
}

pub proof fn lemma_sp_attrs_bounds(t: Seq<u8>, pos: int)
    ensures
        sp_attrs(t, pos) matches Some(v) ==> pos < v.1 <= t.len(),
{
    if 0 <= pos < t.len() && t[pos] == 91 {
        lemma_sp_skip_ws_bounds(t, pos + 1);
        lemma_sp_attr_tail_bounds(t, sp_skip_ws(t, pos + 1));
    }
}

/// What one parsed operation contributes, besides the store entities: the
/// position after it, the result names now defined, its own name, and the
/// names of the operations in its first region's block.
pub ghost struct OpParse {
    pub end: int,
    pub defs: Seq<Seq<u8>>,
    pub name: Seq<u8>,
    pub body: Seq<Seq<u8>>,
}

/// What a parsed run of operations contributes: the position after it, the
/// names defined after it, and the operation names in order.
pub ghost struct ListParse {
    pub end: int,
    pub defs: Seq<Seq<u8>>,
    pub names: Seq<Seq<u8>>,
}

/// What a parsed run of regions contributes: the position after it, the
/// names defined after it, and the operation names of the first region's
/// block (empty when there is no region).
pub ghost struct RegParse {
    pub end: int,
    pub defs: Seq<Seq<u8>>,
    pub first_body: Seq<Seq<u8>>,
}

/// One operation of the textual form, from the result list to the last
/// region. The fuel bounds the recursion; every list step advances the
/// position, so a fuel of the text's length and one more never runs out.
pub open spec fn sp_op(t: Seq<u8>, pos: int, defs: Seq<Seq<u8>>, fuel: nat) -> Option<OpParse>
    decreases fuel, t.len() - pos, 1int,
    via sp_op_dec
{
    if 0 <= pos < t.len() && t[pos] == 37 {
        match sp_results(t, pos) {
            None => None,
            Some(rn) => sp_op_named(t, sp_skip_ws(t, rn.1), defs, rn.0, fuel),
        }
    } else {
        sp_op_named(t, pos, defs, Seq::empty(), fuel)
    }
}

#[via_fn]
proof fn sp_op_dec(t: Seq<u8>, pos: int, defs: Seq<Seq<u8>>, fuel: nat) {
    if 0 <= pos < t.len() && t[pos] == 37 {
        lemma_sp_results_bounds(t, pos);
        match sp_results(t, pos) {
            Some(rn) => {
                lemma_sp_skip_ws_bounds(t, rn.1);
            },
            None => {},
        }
    }
}

/// The rest of an operation after its result list: name, operand list,
/// attribute list and regions.
pub open spec fn sp_op_named(
    t: Seq<u8>,
    pos: int,
    defs: Seq<Seq<u8>>,
    rnames: Seq<Seq<u8>>,
    fuel: nat,
) -> Option<OpParse>
    decreases fuel, t.len() - pos, 0int,
    via sp_op_named_dec
{
    let e = sp_ident_end(t, pos);
    if !(e > pos && pos >= 0) {
        None
    } else {
        let name = t.subrange(pos, e);
        let p3 = sp_skip_ws(t, e);
        let after_operands = if 0 <= p3 < t.len() && t[p3] == 40 {
            sp_operands(t, p3, defs)
        } else {
            Some(p3)
        };
        match after_operands {
            None => None,
            Some(p4) => {
                let p5a = sp_skip_ws(t, p4);
                let after_attrs = if 0 <= p5a < t.len() && t[p5a] == 91 {
                    match sp_attrs(t, p5a) {
                        Some(ar) => Some(ar.1),
                        None => None,
                    }
                } else {
                    Some(p5a)
                };
                match after_attrs {
                    None => None,
                    Some(p5) => match sp_regions(t, p5, defs, fuel) {
                        None => None,
                        Some(rp) => Some(
                            OpParse {
                                end: rp.end,
                                defs: rp.defs + rnames,
                                name,
                                body: rp.first_body,
                            },
                        ),
                    },
                }
            },
        }
    }
}

#[via_fn]
proof fn sp_op_named_dec(t: Seq<u8>, pos: int, defs: Seq<Seq<u8>>, rnames: Seq<Seq<u8>>, fuel: nat) {
    let e = sp_ident_end(t, pos);
    lemma_sp_ident_end_bounds(t, pos);
    if e > pos && pos >= 0 {
        let p3 = sp_skip_ws(t, e);
        lemma_sp_skip_ws_bounds(t, e);
        lemma_sp_operands_bounds(t, p3, defs);
        let after_operands = if 0 <= p3 < t.len() && t[p3] == 40 {
            sp_operands(t, p3, defs)
        } else {
            Some(p3)
        };
        match after_operands {
            Some(p4) => {
                let p5a = sp_skip_ws(t, p4);
                lemma_sp_skip_ws_bounds(t, p4);
                lemma_sp_attrs_bounds(t, p5a);
            },
            None => {},
        }
    }
}

/// A run of braced regions. Each one consumes its opening brace before the
/// nested operations, and the fuel drops by one per region.
pub open spec fn sp_regions(t: Seq<u8>, pos: int, defs: Seq<Seq<u8>>, fuel: nat) -> Option<
    RegParse,
>
    decreases fuel, t.len() - pos, 2int,
    via sp_regions_dec
{
    let q = sp_skip_ws(t, pos);
    if !(0 <= q < t.len() && t[q] == 123) {
        Some(RegParse { end: pos, defs, first_body: Seq::empty() })
    } else {
        match sp_oplist(t, q + 1, defs, fuel) {
            None => None,
            Some(lp) => {
                let p3 = sp_skip_ws(t, lp.end);
                if !(0 <= p3 < t.len() && t[p3] == 125) {
                    None
                } else if fuel == 0 {
                    None
                } else {
                    match sp_regions(t, p3 + 1, lp.defs, (fuel - 1) as nat) {
                        None => None,
                        Some(rp) => Some(
                            RegParse { end: rp.end, defs: rp.defs, first_body: lp.names },
                        ),
                    }
                }
            },
        }
    }
}

#[via_fn]
proof fn sp_regions_dec(t: Seq<u8>, pos: int, defs: Seq<Seq<u8>>, fuel: nat) {
    lemma_sp_skip_ws_bounds(t, pos);
}

/// A blank-separated run of operations, ending before a byte that cannot
/// start one. The fuel drops by one per operation.
pub open spec fn sp_oplist(t: Seq<u8>, pos: int, defs: Seq<Seq<u8>>, fuel: nat) -> Option<
    ListParse,
>
    decreases fuel, t.len() - pos, 3int,
    via sp_oplist_dec
{
    let q = sp_skip_ws(t, pos);
    if q >= t.len() || !(spec_is_ident_byte(t[q]) || t[q] == 37) {
        Some(ListParse { end: q, defs, names: Seq::empty() })
    } else {
        match sp_op(t, q, defs, fuel) {
            None => None,
            Some(op) => {
                if fuel == 0 {
                    None
                } else {
                    match sp_oplist(t, op.end, op.defs, (fuel - 1) as nat) {
                        None => None,
                        Some(rest) => Some(
                            ListParse {
                                end: rest.end,
                                defs: rest.defs,
                                names: seq![op.name] + rest.names,
                            },
                        ),
                    }
                }
            },
        }
    }
}

#[via_fn]
proof fn sp_oplist_dec(t: Seq<u8>, pos: int, defs: Seq<Seq<u8>>, fuel: nat) {
    lemma_sp_skip_ws_bounds(t, pos);
}

/// Whether a whole text is a well-formed module body: a run of operations
/// covering the text, with only blank space after it. The fuel of the
/// text's length and one more is enough for any nesting the text can hold.
pub open spec fn sp_module_ok(t: Seq<u8>) -> bool {
    match sp_oplist(t, 0, Seq::empty(), (t.len() + 1) as nat) {
        Some(lp) => sp_skip_ws(t, lp.end) == t.len(),
        None => false,
    }
}

/// The operation names of a well-formed module body, in order.
pub open spec fn sp_module_names(t: Seq<u8>) -> Seq<Seq<u8>> {
    match sp_oplist(t, 0, Seq::empty(), (t.len() + 1) as nat) {
        Some(lp) => lp.names,
        None => Seq::empty(),
    }
}

/// A stored sibling chain carries exactly the given names: starting from
/// `h`, each operation in turn is named by the next entry, and the link
/// after the last one is absent.
pub open spec fn rep_names(c: StoreModel, h: nat, names: Seq<Seq<u8>>) -> bool
    decreases names.len(),
{
    if names.len() == 0 {
        h == 0
    } else {
        &&& c.valid_op(h)
        &&& c.ident_text(c.ops[h - 1].name) == names[0]
        &&& rep_names(c, c.ops[h - 1].next, names.drop_first())
    }
}

/// A sibling chain under construction: from `h` the given names are laid
/// out in turn, and the chain's final node is `last`, whose own sibling
/// link is not constrained here.
pub open spec fn rep_link(c: StoreModel, h: nat, names: Seq<Seq<u8>>, last: nat) -> bool
    decreases names.len(),
{
    if names.len() == 0 {
        false
    } else if names.len() == 1 {
        h == last && c.valid_op(h) && c.ident_text(c.ops[h - 1].name) == names[0]
    } else {
        &&& c.valid_op(h)
        &&& c.ident_text(c.ops[h - 1].name) == names[0]
        &&& rep_link(c, c.ops[h - 1].next, names.drop_first(), last)
    }
}

/// A chain under construction starts at a node of the store.
proof fn lemma_rep_link_valid(c: StoreModel, h: nat, names: Seq<Seq<u8>>, last: nat)
    requires
        rep_link(c, h, names, last),
    ensures
        c.valid_op(h),
{
}

/// In a well-formed store a chain's nodes never pass its final node.
proof fn lemma_rep_link_le(c: StoreModel, h: nat, names: Seq<Seq<u8>>, last: nat)
    requires
        c.wf(),
        rep_link(c, h, names, last),
    ensures
        h <= last,
    decreases names.len(),
{
    if names.len() > 1 {
        assert(c.op_wf_at(h as int - 1));
        lemma_rep_link_valid(c, c.ops[h - 1].next, names.drop_first(), last);
        lemma_rep_link_le(c, c.ops[h - 1].next, names.drop_first(), last);
    }
}

/// A chain under construction survives growing the store, since its nodes
/// and their interned names are unchanged.
proof fn lemma_rep_link_grow(a: StoreModel, b: StoreModel, h: nat, names: Seq<Seq<u8>>, last: nat)
    requires
        a.wf(),
        rep_link(a, h, names, last),
        store_extends(a, b),
    ensures
        rep_link(b, h, names, last),
    decreases names.len(),
{
    crate::store::lemma_prefix_index(a.ops, b.ops, h as int - 1);
    assert(a.op_wf_at(h as int - 1));
    crate::store::lemma_prefix_index(a.idents, b.idents, a.ops[h - 1].name as int - 1);
    if names.len() > 1 {
        lemma_rep_link_grow(a, b, a.ops[h - 1].next, names.drop_first(), last);
    }
}

/// Setting the sibling link of a chain's final node leaves the chain
/// itself intact: no earlier node is the final one.
proof fn lemma_rep_link_patch(
    a: StoreModel,
    b: StoreModel,
    h: nat,
    names: Seq<Seq<u8>>,
    last: nat,
)
    requires
        a.wf(),
        rep_link(a, h, names, last),
        b.idents == a.idents,
        b.ops.len() == a.ops.len(),
        forall|i: int| 0 <= i < a.ops.len() && i != last as int - 1 ==> a.ops[i] == b.ops[i],
        b.ops[last as int - 1].name == a.ops[last as int - 1].name,
    ensures
        rep_link(b, h, names, last),
    decreases names.len(),
{
    if names.len() == 1 {
    } else if names.len() > 1 {
        assert(a.op_wf_at(h as int - 1));
        lemma_rep_link_valid(a, a.ops[h - 1].next, names.drop_first(), last);
        lemma_rep_link_le(a, a.ops[h - 1].next, names.drop_first(), last);
        assert(h < last);
        lemma_rep_link_patch(a, b, a.ops[h - 1].next, names.drop_first(), last);
    }
}

/// Appending one freshly linked node to a chain under construction.
proof fn lemma_rep_link_snoc(
    c: StoreModel,
    h: nat,
    names: Seq<Seq<u8>>,
    last: nat,
    h2: nat,
    nm: Seq<u8>,
)
    requires
        c.wf(),
        rep_link(c, h, names, last),
        c.ops[last as int - 1].next == h2,
        c.valid_op(h2),
        c.ident_text(c.ops[h2 - 1].name) == nm,
    ensures
        rep_link(c, h, names.push(nm), h2),
    decreases names.len(),
{
    if names.len() == 1 {
        assert(names.push(nm).drop_first() =~= seq![nm]);
        assert(rep_link(c, h2, seq![nm], h2));
    } else {
        lemma_rep_link_snoc(c, c.ops[h - 1].next, names.drop_first(), last, h2, nm);
        assert(names.push(nm).drop_first() =~= names.drop_first().push(nm));
    }
}

/// A chain whose final node's sibling link is absent carries its names
/// outright.
proof fn lemma_rep_link_complete(c: StoreModel, h: nat, names: Seq<Seq<u8>>, last: nat)
    requires
        rep_link(c, h, names, last),
        c.ops[last as int - 1].next == 0,
    ensures
        rep_names(c, h, names),
    decreases names.len(),
{
    if names.len() == 1 {
        assert(c.ops[h as int - 1].next == 0);
        assert(names.drop_first() =~= Seq::<Seq<u8>>::empty());
        assert(rep_names(c, 0, names.drop_first()));
    } else {
        lemma_rep_link_complete(c, c.ops[h - 1].next, names.drop_first(), last);
    }
}

/// A completed chain survives growing the store.
pub proof fn lemma_rep_names_grow(a: StoreModel, b: StoreModel, h: nat, names: Seq<Seq<u8>>)
    requires
        a.wf(),
        rep_names(a, h, names),
        store_extends(a, b),
    ensures
        rep_names(b, h, names),
    decreases names.len(),
{
    if names.len() > 0 {
        crate::store::lemma_prefix_index(a.ops, b.ops, h as int - 1);
        assert(a.op_wf_at(h as int - 1));
        crate::store::lemma_prefix_index(a.idents, b.idents, a.ops[h - 1].name as int - 1);
        lemma_rep_names_grow(a, b, a.ops[h - 1].next, names.drop_first());
    }
}

fn is_space(b: u8) -> (r: bool)
    ensures
        r == spec_is_space(b),
{
    b == 32 || b == 9 || b == 10 || b == 13
}

fn is_ident_byte(b: u8) -> (r: bool)
    ensures
        r == spec_is_ident_byte(b),
{
    (97 <= b && b <= 122) || (65 <= b && b <= 90) || (48 <= b && b <= 57) || b == 95 || b == 46
}

/// The byte at a position known to be in range.
fn byte_at(text: &[u8], i: usize) -> (b: u8)
    requires
        i < text@.len(),
    ensures
        b == text@[i as int],
{
    match text.get(i) {
        Some(b) => *b,
        None => {
            proof {
                assert(false);
            }
            0
        },
    }
}

/// Advances past blank space.
fn skip_ws(text: &[u8], pos: usize) -> (p: usize)
    requires
        pos <= text@.len(),
    ensures
        pos <= p <= text@.len(),
        p == sp_skip_ws(text@, pos as int),
{
    let n = text.len();
    let mut p = pos;
    while p < n
        invariant
            pos <= p <= n,
            n == text@.len(),
            sp_skip_ws(text@, pos as int) == sp_skip_ws(text@, p as int),
        ensures
            pos <= p <= n,
            p == sp_skip_ws(text@, pos as int),
        decreases n - p,
    {
        if !is_space(byte_at(text, p)) {
            proof {
                assert(sp_skip_ws(text@, p as int) == p);
            }
            break ;
        }
        proof {
            assert(sp_skip_ws(text@, p as int) == sp_skip_ws(text@, p + 1));
        }
        p = p + 1;
    }
    p
}

/// Reads a nonempty name starting at `pos`; absent when no name byte
/// stands there.
fn parse_ident(text: &[u8], pos: usize) -> (r: Option<(Vec<u8>, usize)>)
    requires
        pos <= text@.len(),
    ensures
        r is Some <==> sp_ident_end(text@, pos as int) > pos,
        r matches Some(v) ==> pos < v.1 <= text@.len() && v.1 == sp_ident_end(text@, pos as int)
            && v.0@ == text@.subrange(pos as int, v.1 as int),
{
    let n = text.len();
    let mut p = pos;
    let mut out: Vec<u8> = Vec::new();
    while p < n
        invariant
            pos <= p <= n,
            n == text@.len(),
            sp_ident_end(text@, pos as int) == sp_ident_end(text@, p as int),
            out@ == text@.subrange(pos as int, p as int),
        ensures
            pos <= p <= n,
            p == sp_ident_end(text@, pos as int),
            out@ == text@.subrange(pos as int, p as int),
        decreases n - p,
    {
        let b = byte_at(text, p);
        if !is_ident_byte(b) {
            proof {
                assert(sp_ident_end(text@, p as int) == p);
            }
            break ;
        }
        proof {
            assert(sp_ident_end(text@, p as int) == sp_ident_end(text@, p + 1));
            assert(text@.subrange(pos as int, p + 1) =~= text@.subrange(pos as int, p as int).push(
                b,
            ));
        }
        out.push(b);
        p = p + 1;
    }
    if p > pos {
        Some((out, p))
    } else {
        None
    }
}

/// Finds the value a result name currently denotes.
fn lookup_scope(scope: &Vec<ScopeEntry>, key: &[u8], st: Ghost<StoreModel>) -> (r: Option<usize>)
    requires
        scope_wf(scope@, st@),
    ensures
        r is Some <==> name_defined(names_of(scope@), key@),
        r matches Some(v) ==> st@.valid_value(v as nat),
{
    let n = scope.len();
    let mut i: usize = 0;
    while i < n
        invariant
            i <= n,
            n == scope@.len(),
            scope_wf(scope@, st@),
            forall|k: int| 0 <= k < i ==> (#[trigger] scope@[k]).name@ != key@,
        decreases n - i,
    {
        if crate::store::bytes_eq(scope[i].name.as_slice(), key) {
            proof {
                assert(st@.valid_value((scope@[i as int]).value as nat));
                assert(names_of(scope@)[i as int] == key@);
            }
            return Some(scope[i].value);
        }
        i = i + 1;
    }
    proof {
        assert forall|k: int| 0 <= k < names_of(scope@).len() implies #[trigger] names_of(
            scope@,
        )[k] != key@ by {
            assert(scope@[k].name@ != key@);
        }
    }
    None
}

/// Reads a result list `%a, %b =`, returning the names and the position
/// just past the `=`. Succeeds exactly when the text matches that form.
fn parse_results(text: &[u8], pos: usize) -> (r: Option<(Vec<Vec<u8>>, usize)>)
    requires
        pos <= text@.len(),
    ensures
        r is Some <==> sp_results(text@, pos as int) is Some,
        r matches Some(v) ==> pos < v.1 <= text@.len() && sp_results(text@, pos as int) == Some(
            (vecs_bytes(v.0@), v.1 as int),
        ),
{
    let n = text.len();
    let mut names: Vec<Vec<u8>> = Vec::new();
    let mut p = pos;
    proof {
        assert(vecs_bytes(names@) =~= Seq::<Seq<u8>>::empty());
    }
    loop
        invariant
            pos <= p <= n,
            n == text@.len(),
            ({
                let full = sp_results(text@, pos as int);
                match sp_results(text@, p as int) {
                    Some(rest) => full == Some(
                        (vecs_bytes(names@) + rest.0, rest.1),
                    ),
                    None => full is None,
                }
            }),
        decreases n - p,
    {
        if p >= n || byte_at(text, p) != 37 {
            return None;
        }
        match parse_ident(text, p + 1) {
            Some((nm, p2)) => {
                let ghost nmv = nm@;
                names.push(nm);
                let p3 = skip_ws(text, p2);
                if p3 < n && byte_at(text, p3) == 44 {
                    let pnext = skip_ws(text, p3 + 1);
                    proof {
                        assert(sp_results(text@, p as int) == (match sp_results(
                            text@,
                            pnext as int,
                        ) {
                            Some(rest) => Some((seq![nmv] + rest.0, rest.1)),
                            None => None::<(Seq<Seq<u8>>, int)>,
                        }));
                        if sp_results(text@, pnext as int) is Some {
                            let rest = sp_results(text@, pnext as int)->0;
                            assert(vecs_bytes(names@) + rest.0 =~= vecs_bytes(
                                names@.drop_last(),
                            ) + (seq![nmv] + rest.0));
                        }
                    }
                    p = pnext;
                } else if p3 < n && byte_at(text, p3) == 61 {
                    proof {
                        assert(sp_results(text@, p as int) == Some((seq![nmv], p3 + 1)));
                        assert(vecs_bytes(names@) =~= vecs_bytes(names@.drop_last()) + seq![nmv]);
                    }
                    return Some((names, p3 + 1));
                } else {
                    proof {
                        assert(sp_results(text@, p as int) is None);
                    }
                    return None;
                }
            },
            None => {
                return None;
            },
        }
    }
}

/// Reads an operand list `(%a, %b)` starting at an opening parenthesis,
/// resolving each name through the scope.
fn parse_operands(text: &[u8], pos: usize, st: Ghost<StoreModel>, scope: &Vec<ScopeEntry>) -> (r:
    Option<(Vec<usize>, usize)>)
    requires
        pos <= text@.len(),
        scope_wf(scope@, st@),
    ensures
        r is Some <==> sp_operands(text@, pos as int, names_of(scope@)) is Some,
        r matches Some(v) ==> pos < v.1 <= text@.len() && sp_operands(
            text@,
            pos as int,
            names_of(scope@),
        ) == Some(v.1 as int) && (forall|j: int|
            0 <= j < v.0@.len() ==> st@.valid_value((#[trigger] v.0@[j]) as nat)),
{
    let ghost defs = names_of(scope@);
    let n = text.len();
    if pos >= n || byte_at(text, pos) != 40 {
        return None;
    }
    let mut p = skip_ws(text, pos + 1);
    let mut vals: Vec<usize> = Vec::new();
    if p < n && byte_at(text, p) == 41 {
        return Some((vals, p + 1));
    }
    loop
        invariant
            pos < p <= n,
            n == text@.len(),
            scope_wf(scope@, st@),
            defs == names_of(scope@),
            sp_operands(text@, pos as int, defs) == sp_operand_tail(text@, p as int, defs),
            forall|j: int| 0 <= j < vals@.len() ==> st@.valid_value((#[trigger] vals@[j]) as nat),
        decreases n - p,
    {
        if p >= n || byte_at(text, p) != 37 {
            return None;
        }
        match parse_ident(text, p + 1) {
            Some((nm, p2)) => {
                match lookup_scope(scope, nm.as_slice(), st) {
                    Some(v) => {
                        vals.push(v);
                        let p3 = skip_ws(text, p2);
                        if p3 < n && byte_at(text, p3) == 44 {
                            let pnext = skip_ws(text, p3 + 1);
                            proof {
                                assert(sp_operand_tail(text@, p as int, defs) == sp_operand_tail(
                                    text@,
                                    pnext as int,
                                    defs,
                                ));
                            }
                            p = pnext;
                        } else if p3 < n && byte_at(text, p3) == 41 {
                            proof {
                                assert(sp_operand_tail(text@, p as int, defs) == Some(p3 + 1));
                            }
                            return Some((vals, p3 + 1));
                        } else {
                            proof {
                                assert(sp_operand_tail(text@, p as int, defs) is None);
                            }
                            return None;
                        }
                    },
                    None => {
                        return None;
                    },
                }
            },
            None => {
                return None;
            },
        }
    }
}

/// Reads an attribute list `[key = value, ...]` starting at an opening
/// bracket, interning each pair into the store.
fn parse_attrs(text: &[u8], pos: usize, st: &mut Store) -> (r: Option<(Vec<NamedAttrNode>, usize)>)
    requires
        pos <= text@.len(),
        old(st)@.wf(),
    ensures
        r is Some <==> sp_attrs(text@, pos as int) is Some,
        r matches Some(v) ==> (sp_attrs(text@, pos as int)->0).1 == v.1 as int,
        final(st)@.wf(),
        store_extends(old(st)@, final(st)@),
        final(st)@.types == old(st)@.types,
        final(st)@.values == old(st)@.values,
        final(st)@.ops == old(st)@.ops,
        final(st)@.regions == old(st)@.regions,
        final(st)@.blocks == old(st)@.blocks,
        final(st)@.modules == old(st)@.modules,
        final(st)@.dialects == old(st)@.dialects,
        r matches Some(v) ==> pos < v.1 <= text@.len() && (forall|j: int|
            0 <= j < v.0@.len() ==> final(st)@.valid_ident((#[trigger] v.0@[j]).name as nat)
                && final(st)@.valid_attr(v.0@[j].attr as nat)),
{
    let n = text.len();
    if pos >= n || byte_at(text, pos) != 91 {
        proof {
            crate::store::lemma_extends_refl(old(st)@);
        }
        return None;
    }
    let mut p = skip_ws(text, pos + 1);
    let mut entries: Vec<NamedAttrNode> = Vec::new();
    proof {
        crate::store::lemma_extends_refl(old(st)@);
    }
    if p < n && byte_at(text, p) == 93 {
        return Some((entries, p + 1));
    }
    loop
        invariant
            pos < p <= n,
            n == text@.len(),
            ({
                let full = sp_attrs(text@, pos as int);
                match sp_attr_tail(text@, p as int) {
                    Some(rest) => full is Some && (full->0).1 == rest.1,
                    None => full is None,
                }
            }),
            st@.wf(),
            store_extends(old(st)@, st@),
            st@.types == old(st)@.types,
            st@.values == old(st)@.values,
            st@.ops == old(st)@.ops,
            st@.regions == old(st)@.regions,
            st@.blocks == old(st)@.blocks,
            st@.modules == old(st)@.modules,
            st@.dialects == old(st)@.dialects,
            forall|j: int|
                0 <= j < entries@.len() ==> st@.valid_ident((#[trigger] entries@[j]).name as nat)
                    && st@.valid_attr(entries@[j].attr as nat),
        decreases n - p,
    {
        let (key, p2) = match parse_ident(text, p) {
            Some(v) => v,
            None => {
                return None;
            },
        };
        let p3 = skip_ws(text, p2);
        if p3 >= n || byte_at(text, p3) != 61 {
            return None;
        }
        let p4 = skip_ws(text, p3 + 1);
        let (val, p5) = match parse_ident(text, p4) {
            Some(v) => v,
            None => {
                return None;
            },
        };
        let ghost s0 = st@;
        let name_h = st.intern_ident(key.as_slice());
        let ghost s1 = st@;
        let text_h = st.intern_ident(val.as_slice());
        let ghost s2 = st@;
        let attr_h = st.alloc_attr(text_h);
        proof {
            crate::store::lemma_extends_trans(s0, s1, s2);
            crate::store::lemma_extends_trans(s0, s2, st@);
            crate::store::lemma_extends_trans(old(st)@, s0, st@);
            assert forall|j: int| 0 <= j < entries@.len() implies st@.valid_ident(
                (#[trigger] entries@[j]).name as nat,
            ) && st@.valid_attr(entries@[j].attr as nat) by {
                assert(s0.valid_ident(entries@[j].name as nat));
                assert(s0.valid_attr(entries@[j].attr as nat));
            }
        }
        entries.push(NamedAttrNode { name: name_h, attr: attr_h });
        let p6 = skip_ws(text, p5);
        if p6 < n && byte_at(text, p6) == 44 {
            let pnext = skip_ws(text, p6 + 1);
            proof {
                assert(sp_attr_tail(text@, p as int) == (match sp_attr_tail(text@, pnext as int) {
                    Some(rest) => Some(
                        (seq![(text@.subrange(p as int, p2 as int), text@.subrange(p4 as int, p5 as int))]
                            + rest.0,
                        rest.1),
                    ),
                    None => None::<(Seq<(Seq<u8>, Seq<u8>)>, int)>,
                }));
            }
            p = pnext;
        } else if p6 < n && byte_at(text, p6) == 93 {
            proof {
                assert(sp_attr_tail(text@, p as int) == Some(
                    (seq![(text@.subrange(p as int, p2 as int), text@.subrange(p4 as int, p5 as int))],
                    p6 + 1),
                ));
            }
            return Some((entries, p6 + 1));
        } else {
            proof {
                assert(sp_attr_tail(text@, p as int) is None);
            }
            return None;
        }
    }
}

/// Interns the default type handed to freshly created result values.
fn ensure_default_type(st: &mut Store) -> (t: usize)
    requires
        old(st)@.wf(),
    ensures
        final(st)@.wf(),
        store_extends(old(st)@, final(st)@),
        final(st)@.valid_type(t as nat),
        final(st)@.values == old(st)@.values,
        final(st)@.ops == old(st)@.ops,
        final(st)@.regions == old(st)@.regions,
        final(st)@.blocks == old(st)@.blocks,
        final(st)@.modules == old(st)@.modules,
        final(st)@.dialects == old(st)@.dialects,
        final(st)@.attrs == old(st)@.attrs,
{
    if st.num_types() >= 1 {
        proof {
            crate::store::lemma_extends_refl(old(st)@);
        }
        1
    } else {
        let ghost s0 = st@;
        let name_h = st.intern_ident("none".as_bytes());
        let ghost s1 = st@;
        let t = st.alloc_type(name_h);
        proof {
            crate::store::lemma_extends_trans(s0, s1, st@);
        }
        t
    }
}

/// Reads one operation and everything nested in it, returning its handle
/// and the position after it. The new operation is the latest in the
/// store and has no sibling link yet.
#[verifier::rlimit(80)]
fn parse_op(text: &[u8], pos: usize, st: &mut Store, scope: &mut Vec<ScopeEntry>) -> (r: Option<
    (usize, usize, Ghost<Seq<u8>>),
>)
    requires
        pos <= text@.len(),
        old(st)@.wf(),
        scope_wf(old(scope)@, old(st)@),
    ensures
        final(st)@.wf(),
        store_extends(old(st)@, final(st)@),
        scope_wf(final(scope)@, final(st)@),
        final(st)@.modules == old(st)@.modules,
        final(st)@.dialects == old(st)@.dialects,
        r matches Some(v) ==> pos < v.1 <= text@.len() && v.0 as nat == final(st)@.ops.len()
            && final(st)@.valid_op(v.0 as nat) && final(st)@.ops[v.0 as int - 1].next == 0 && v.0
            as int - 1 >= old(st)@.ops.len() && final(st)@.ident_text(
            final(st)@.ops[v.0 as int - 1].name,
        ) == v.2@,
        forall|f: nat|
            f + pos >= text@.len() + 1 ==> ((#[trigger] sp_op(
                text@,
                pos as int,
                names_of(old(scope)@),
                f,
            )) is Some <==> r is Some) && (r matches Some(v) ==> sp_op(
                text@,
                pos as int,
                names_of(old(scope)@),
                f,
            ) matches Some(o) && o.end == v.1 as int && o.defs == names_of(final(scope)@)
                && o.name == v.2@),
    decreases text@.len() - pos, 0int,
{
    let ghost t = text@;
    let ghost d0 = names_of(scope@);
    let n = text.len();
    let mut result_names: Vec<Vec<u8>> = Vec::new();
    let mut p = pos;
    if p < n && byte_at(text, p) == 37 {
        match parse_results(text, p) {
            Some((names, p2)) => {
                result_names = names;
                p = skip_ws(text, p2);
            },
            None => {
                proof {
                    assert forall|f: nat| f + pos >= t.len() + 1 implies (#[trigger] sp_op(
                        t,
                        pos as int,
                        d0,
                        f,
                    )) is None by {}
                }
                return None;
            },
        }
    }
    let ghost rnames = vecs_bytes(result_names@);
    proof {
        if !(pos < t.len() && t[pos as int] == 37) {
            assert(rnames =~= Seq::<Seq<u8>>::empty());
        }
        // whichever way the result list went, the rest of the operation is
        // read from `p` with `rnames` pending
        assert forall|f: nat| f + pos >= t.len() + 1 implies #[trigger] sp_op(t, pos as int, d0, f)
            == sp_op_named(t, p as int, d0, rnames, f) by {}
    }
    let (name, pn) = match parse_ident(text, p) {
        Some(v) => v,
        None => {
            proof {
                assert forall|f: nat| f + pos >= t.len() + 1 implies (#[trigger] sp_op(
                    t,
                    pos as int,
                    d0,
                    f,
                )) is None by {
                    assert(sp_op_named(t, p as int, d0, rnames, f) is None);
                }
            }
            return None;
        },
    };
    let mut p3 = skip_ws(text, pn);
    let mut operands: Vec<usize> = Vec::new();
    if p3 < n && byte_at(text, p3) == 40 {
        match parse_operands(text, p3, Ghost(st@), scope) {
            Some((ov, p4)) => {
                operands = ov;
                p3 = p4;
            },
            None => {
                proof {
                    assert forall|f: nat| f + pos >= t.len() + 1 implies (#[trigger] sp_op(
                        t,
                        pos as int,
                        d0,
                        f,
                    )) is None by {
                        assert(sp_op_named(t, p as int, d0, rnames, f) is None);
                    }
                }
                return None;
            },
        }
    }
    let ghost s_ops = st@;
    let mut attrs: Vec<NamedAttrNode> = Vec::new();
    let mut p5 = skip_ws(text, p3);
    if p5 < n && byte_at(text, p5) == 91 {
        match parse_attrs(text, p5, st) {
            Some((av, p6)) => {
                attrs = av;
                p5 = p6;
            },
            None => {
                proof {
                    lemma_scope_wf_grow(scope@, s_ops, st@);
                    assert forall|f: nat| f + pos >= t.len() + 1 implies (#[trigger] sp_op(
                        t,
                        pos as int,
                        d0,
                        f,
                    )) is None by {
                        assert(sp_op_named(t, p as int, d0, rnames, f) is None);
                    }
                }
                return None;
            },
        }
    }
    proof {
        // past the attribute list too: what remains is the region list at p5
        assert forall|f: nat| f + pos >= t.len() + 1 implies #[trigger] sp_op_named(
            t,
            p as int,
            d0,
            rnames,
            f,
        ) == (match sp_regions(t, p5 as int, d0, f) {
            Some(rp) => Some(
                OpParse {
                    end: rp.end,
                    defs: rp.defs + rnames,
                    name: t.subrange(p as int, pn as int),
                    body: rp.first_body,
                },
            ),
            None => None::<OpParse>,
        }) by {}
    }
    let ghost s_attrs = st@;
    proof {
        lemma_scope_wf_grow(scope@, s_ops, s_attrs);
    }
    let (first_region, p8) = match parse_region_list(text, p5, st, scope) {
        Some(v) => v,
        None => {
            proof {
                crate::store::lemma_extends_trans(s_ops, s_attrs, st@);
                assert forall|f: nat| f + pos >= t.len() + 1 implies (#[trigger] sp_op(
                    t,
                    pos as int,
                    d0,
                    f,
                )) is None by {
                    assert(sp_regions(t, p5 as int, d0, f) is None);
                    assert(sp_op_named(t, p as int, d0, rnames, f) is None);
                }
            }
            return None;
        },
    };
    let ghost d_regions = names_of(scope@);
    let ghost s_reg = st@;
    proof {
        crate::store::lemma_extends_trans(s_ops, s_attrs, s_reg);
    }
    let ty = ensure_default_type(st);
    let ghost s_ty = st@;
    proof {
        crate::store::lemma_extends_trans(s_ops, s_reg, s_ty);
    }
    let num_res = result_names.len();
    let mut results: Vec<usize> = Vec::new();
    let mut results2: Vec<usize> = Vec::new();
    let mut i: usize = 0;
    while i < num_res
        invariant
            i <= num_res,
            results@.len() == i,
            results2@ == results@,
            st@.wf(),
            store_extends(s_ty, st@),
            st@.valid_type(ty as nat),
            st@.idents == s_ty.idents,
            st@.types == s_ty.types,
            st@.attrs == s_ty.attrs,
            st@.ops == s_ty.ops,
            st@.regions == s_ty.regions,
            st@.blocks == s_ty.blocks,
            st@.modules == s_ty.modules,
            st@.dialects == s_ty.dialects,
            forall|j: int| 0 <= j < results@.len() ==> st@.valid_value((#[trigger] results@[j]) as nat),
        decreases num_res - i,
    {
        let ghost before = st@;
        let vh = st.alloc_value(ty);
        proof {
            crate::store::lemma_extends_trans(s_ty, before, st@);
            assert forall|j: int| 0 <= j < results@.len() implies st@.valid_value(
                (#[trigger] results@[j]) as nat,
            ) by {
                assert(before.valid_value(results@[j] as nat));
            }
        }
        results.push(vh);
        results2.push(vh);
        i = i + 1;
    }
    let ghost s_vals = st@;
    proof {
        crate::store::lemma_extends_trans(s_ops, s_ty, s_vals);
    }
    let name_h = st.intern_ident(name.as_slice());
    let ghost s_int = st@;
    proof {
        crate::store::lemma_extends_trans(s_ops, s_vals, s_int);
        // carry validity of everything assembled so far into the current store
        assert forall|j: int| 0 <= j < operands@.len() implies st@.valid_value(
            (#[trigger] operands@[j]) as nat,
        ) by {
            assert(s_ops.valid_value(operands@[j] as nat));
        }
        assert forall|j: int| 0 <= j < results@.len() implies st@.valid_value(
            (#[trigger] results@[j]) as nat,
        ) by {
            assert(s_vals.valid_value(results@[j] as nat));
        }
        assert forall|j: int| 0 <= j < attrs@.len() implies st@.valid_ident(
            (#[trigger] attrs@[j]).name as nat,
        ) && st@.valid_attr(attrs@[j].attr as nat) by {
            assert(s_attrs.valid_ident(attrs@[j].name as nat));
            assert(s_attrs.valid_attr(attrs@[j].attr as nat));
        }
        assert(first_region == 0 || st@.valid_region(first_region as nat));
    }
    let h = st.alloc_op(name_h, first_region, operands, results, attrs);
    proof {
        crate::store::lemma_extends_trans(s_ops, s_int, st@);
        crate::store::lemma_extends_trans(old(st)@, s_ops, st@);
        lemma_scope_wf_grow(scope@, s_reg, st@);
        assert forall|j: int| 0 <= j < results2@.len() implies st@.valid_value(
            (#[trigger] results2@[j]) as nat,
        ) by {
            assert(s_vals.valid_value(results2@[j] as nat));
        }
    }
    let ghost rn0 = result_names@;
    let ghost scope_pre = scope@;
    let mut k: usize = 0;
    while k < num_res
        invariant
            k <= num_res,
            num_res == result_names@.len(),
            results2@.len() == num_res,
            scope_wf(scope@, st@),
            forall|j: int|
                0 <= j < results2@.len() ==> st@.valid_value((#[trigger] results2@[j]) as nat),
            rn0.len() == num_res,
            forall|j: int| k <= j < num_res ==> result_names@[j] == rn0[j],
            names_of(scope@) == names_of(scope_pre) + vecs_bytes(rn0.take(k as int)),
        decreases num_res - k,
    {
        let mut nm: Vec<u8> = Vec::new();
        result_names.set_and_swap(k, &mut nm);
        let entry = ScopeEntry { name: nm, value: results2[k] };
        proof {
            assert(st@.valid_value(results2@[k as int] as nat));
            assert(entry.name@ == rn0[k as int]@);
            assert(names_of(scope@.push(entry)) =~= names_of(scope@) + seq![entry.name@]);
            assert(vecs_bytes(rn0.take(k + 1)) =~= vecs_bytes(rn0.take(k as int)) + seq![
                rn0[k as int]@,
            ]);
            assert((names_of(scope_pre) + vecs_bytes(rn0.take(k as int))) + seq![entry.name@]
                =~= names_of(scope_pre) + vecs_bytes(rn0.take(k + 1)));
        }
        scope.push(entry);
        k = k + 1;
    }
    proof {
        assert(rn0.take(num_res as int) =~= rn0);
        assert(vecs_bytes(rn0) =~= rnames);
        assert(names_of(scope@) == names_of(scope_pre) + rnames);
        assert(names_of(scope_pre) == d_regions);
        assert forall|f: nat| f + pos >= t.len() + 1 implies (#[trigger] sp_op(
            t,
            pos as int,
            d0,
            f,
        )) matches Some(o) && o.end == p8 as int && o.defs == names_of(scope@) && o.name
            == name@ by {
            assert(sp_regions(t, p5 as int, d0, f) matches Some(rg) && rg.end == p8 as int
                && rg.defs == d_regions);
        }
        assert(st@.ident_text(st@.ops[h as int - 1].name) == name@);
    }
    Some((h, p8, Ghost(name@)))
}

/// Reads a blank-separated run of operations, linking each to the next,
/// until a byte that cannot start an operation. Returns the first and last
/// operation handles (zero when the run is empty) and the next position.
fn parse_oplist(text: &[u8], pos: usize, st: &mut Store, scope: &mut Vec<ScopeEntry>) -> (r: Option<
    (usize, usize, usize),
>)
    requires
        pos <= text@.len(),
        old(st)@.wf(),
        scope_wf(old(scope)@, old(st)@),
    ensures
        final(st)@.wf(),
        store_extends(old(st)@, final(st)@),
        scope_wf(final(scope)@, final(st)@),
        final(st)@.modules == old(st)@.modules,
        final(st)@.dialects == old(st)@.dialects,
        r matches Some(v) ==> pos <= v.2 <= text@.len() && (v.0 == 0 <==> v.1 == 0) && (v.0 != 0
            ==> final(st)@.valid_op(v.0 as nat)) && (v.1 != 0 ==> final(st)@.valid_op(v.1 as nat)
            && final(st)@.ops[v.1 as int - 1].next == 0),
        forall|f: nat|
            f + pos >= text@.len() + 1 ==> ((#[trigger] sp_oplist(
                text@,
                pos as int,
                names_of(old(scope)@),
                f,
            )) is Some <==> r is Some) && (r matches Some(v) ==> sp_oplist(
                text@,
                pos as int,
                names_of(old(scope)@),
                f,
            ) matches Some(lp) && lp.end == v.2 as int && lp.defs == names_of(final(scope)@)
                && rep_names(final(st)@, v.0 as nat, lp.names)),
    decreases text@.len() - pos, 2int,
{
    let ghost t = text@;
    let ghost d0 = names_of(scope@);
    let n = text.len();
    let mut first: usize = 0;
    let mut last: usize = 0;
    let mut p = pos;
    let ghost mut k: nat = 0;
    let ghost mut acc: Seq<Seq<u8>> = Seq::empty();
    proof {
        crate::store::lemma_extends_refl(old(st)@);
    }
    loop
        invariant
            n == text@.len(),
            t == text@,
            d0 == names_of(old(scope)@),
            pos <= p <= n,
            k <= p - pos,
            st@.wf(),
            store_extends(old(st)@, st@),
            scope_wf(scope@, st@),
            st@.modules == old(st)@.modules,
            st@.dialects == old(st)@.dialects,
            (first == 0 <==> last == 0),
            first == 0 ==> acc.len() == 0,
            first != 0 ==> st@.valid_op(first as nat) && rep_link(st@, first as nat, acc, last as nat),
            last != 0 ==> st@.valid_op(last as nat) && st@.ops[last as int - 1].next == 0 && last
                as int - 1 >= old(st)@.ops.len(),
            forall|f: nat|
                f + pos + k >= t.len() + 1 ==> (((#[trigger] sp_oplist(
                    t,
                    p as int,
                    names_of(scope@),
                    f,
                )) is Some <==> sp_oplist(t, pos as int, d0, (f + k) as nat) is Some) && (sp_oplist(
                    t,
                    p as int,
                    names_of(scope@),
                    f,
                ) matches Some(rest) ==> sp_oplist(t, pos as int, d0, (f + k) as nat) matches Some(
                    full,
                ) && full.end == rest.end && full.defs == rest.defs && full.names == acc
                    + rest.names)),
        decreases n - p,
    {
        let q = skip_ws(text, p);
        if q >= n {
            proof {
                if first != 0 {
                    lemma_rep_link_complete(st@, first as nat, acc, last as nat);
                }
                assert forall|f: nat| f + pos >= t.len() + 1 implies ((#[trigger] sp_oplist(
                    t,
                    pos as int,
                    d0,
                    f,
                )) matches Some(lp) && lp.end == q as int && lp.defs == names_of(scope@)
                    && rep_names(st@, first as nat, lp.names)) by {
                    let fr = (f - k) as nat;
                    assert(sp_oplist(t, p as int, names_of(scope@), fr) == Some(
                        ListParse { end: q as int, defs: names_of(scope@), names: Seq::empty() },
                    ));
                    assert((fr + k) as nat == f);
                    assert(acc + Seq::<Seq<u8>>::empty() =~= acc);
                }
            }
            return Some((first, last, q));
        }
        let b = byte_at(text, q);
        if !(is_ident_byte(b) || b == 37) {
            proof {
                if first != 0 {
                    lemma_rep_link_complete(st@, first as nat, acc, last as nat);
                }
                assert forall|f: nat| f + pos >= t.len() + 1 implies ((#[trigger] sp_oplist(
                    t,
                    pos as int,
                    d0,
                    f,
                )) matches Some(lp) && lp.end == q as int && lp.defs == names_of(scope@)
                    && rep_names(st@, first as nat, lp.names)) by {
                    let fr = (f - k) as nat;
                    assert(sp_oplist(t, p as int, names_of(scope@), fr) == Some(
                        ListParse { end: q as int, defs: names_of(scope@), names: Seq::empty() },
                    ));
                    assert((fr + k) as nat == f);
                    assert(acc + Seq::<Seq<u8>>::empty() =~= acc);
                }
            }
            return Some((first, last, q));
        }
        let ghost before = st@;
        let ghost p_prev = p;
        let ghost dq = names_of(scope@);
        match parse_op(text, q, st, scope) {
            Some((h, p2, nm)) => {
                proof {
                    crate::store::lemma_extends_trans(old(st)@, before, st@);
                    if last != 0 {
                        crate::store::lemma_prefix_index(before.ops, st@.ops, last as int - 1);
                    }
                }
                if first == 0 {
                    first = h;
                    proof {
                        acc = seq![nm@];
                        assert(rep_link(st@, h as nat, acc, h as nat));
                    }
                } else {
                    let ghost prepatch = st@;
                    proof {
                        lemma_rep_link_grow(before, prepatch, first as nat, acc, last as nat);
                    }
                    st.patch_op_next(last, h);
                    proof {
                        assert(old(st)@.ops =~= st@.ops.subrange(0, old(st)@.ops.len() as int));
                        assert(st@.ops[h as int - 1] == prepatch.ops[h as int - 1]);
                        lemma_scope_wf_grow(scope@, prepatch, st@);
                        assert forall|i: int|
                            0 <= i < prepatch.ops.len() && i != last as int - 1 implies prepatch.ops[i]
                            == st@.ops[i] by {}
                        lemma_rep_link_patch(prepatch, st@, first as nat, acc, last as nat);
                        assert(st@.ident_text(st@.ops[h as int - 1].name) == nm@);
                        lemma_rep_link_snoc(st@, first as nat, acc, last as nat, h as nat, nm@);
                        acc = acc.push(nm@);
                    }
                }
                proof {
                    assert forall|f: nat| f + pos + (k + 1) >= t.len() + 1 implies (((#[trigger] sp_oplist(
                        t,
                        p2 as int,
                        names_of(scope@),
                        f,
                    )) is Some <==> sp_oplist(t, pos as int, d0, (f + (k + 1)) as nat) is Some) && (
                    sp_oplist(t, p2 as int, names_of(scope@), f) matches Some(rest) ==> sp_oplist(
                        t,
                        pos as int,
                        d0,
                        (f + (k + 1)) as nat,
                    ) matches Some(full) && full.end == rest.end && full.defs == rest.defs
                        && full.names == acc + rest.names)) by {
                        let f1 = (f + 1) as nat;
                        assert(sp_op(t, q as int, dq, f1) matches Some(o) && o.end == p2 as int
                            && o.defs == names_of(scope@) && o.name == nm@);
                        assert(sp_oplist(t, p_prev as int, dq, f1) == (match sp_oplist(
                            t,
                            p2 as int,
                            names_of(scope@),
                            f,
                        ) {
                            Some(rest) => Some(
                                ListParse {
                                    end: rest.end,
                                    defs: rest.defs,
                                    names: seq![sp_op(t, q as int, dq, f1)->0.name] + rest.names,
                                },
                            ),
                            None => None::<ListParse>,
                        }));
                        assert((f1 + k) as nat == (f + (k + 1)) as nat);
                        match sp_oplist(t, p2 as int, names_of(scope@), f) {
                            Some(rest) => {
                                assert(acc.drop_last() + (seq![nm@] + rest.names) =~= acc
                                    + rest.names);
                            },
                            None => {},
                        }
                    }
                    k = k + 1;
                }
                last = h;
                p = p2;
            },
            None => {
                proof {
                    crate::store::lemma_extends_trans(old(st)@, before, st@);
                    assert forall|f: nat| f + pos >= t.len() + 1 implies (#[trigger] sp_oplist(
                        t,
                        pos as int,
                        d0,
                        f,
                    )) is None by {
                        let fr = (f - k) as nat;
                        assert(sp_op(t, q as int, dq, fr) is None);
                        assert(sp_oplist(t, p as int, dq, fr) is None);
                        assert((fr + k) as nat == f);
                    }
                }
                return None;
            },
        }
    }
}

/// Reads a run of braced regions `{ ... } { ... }`, each holding one block
/// of operations, linking sibling regions. Returns the first region handle
/// (zero when there is none) and the next position.
fn parse_region_list(text: &[u8], pos: usize, st: &mut Store, scope: &mut Vec<ScopeEntry>) -> (r:
    Option<(usize, usize)>)
    requires
        pos <= text@.len(),
        old(st)@.wf(),
        scope_wf(old(scope)@, old(st)@),
    ensures
        final(st)@.wf(),
        store_extends(old(st)@, final(st)@),
        scope_wf(final(scope)@, final(st)@),
        final(st)@.modules == old(st)@.modules,
        final(st)@.dialects == old(st)@.dialects,
        r matches Some(v) ==> pos <= v.1 <= text@.len() && (v.0 == 0 || final(st)@.valid_region(
            v.0 as nat,
        )),
        forall|f: nat|
            f + pos >= text@.len() + 1 ==> ((#[trigger] sp_regions(
                text@,
                pos as int,
                names_of(old(scope)@),
                f,
            )) is Some <==> r is Some) && (r matches Some(v) ==> sp_regions(
                text@,
                pos as int,
                names_of(old(scope)@),
                f,
            ) matches Some(rg) && rg.end == v.1 as int && rg.defs == names_of(final(scope)@)),
    decreases text@.len() - pos, 1int,
{
    let ghost t = text@;
    let ghost d0 = names_of(scope@);
    let n = text.len();
    let mut first: usize = 0;
    let mut last: usize = 0;
    let mut p = pos;
    let ghost mut k: nat = 0;
    proof {
        crate::store::lemma_extends_refl(old(st)@);
    }
    loop
        invariant
            n == text@.len(),
            t == text@,
            d0 == names_of(old(scope)@),
            pos <= p <= n,
            k <= p - pos,
            st@.wf(),
            store_extends(old(st)@, st@),
            scope_wf(scope@, st@),
            st@.modules == old(st)@.modules,
            st@.dialects == old(st)@.dialects,
            (first == 0 <==> last == 0),
            first != 0 ==> st@.valid_region(first as nat),
            last != 0 ==> st@.valid_region(last as nat) && st@.regions[last as int - 1].next == 0
                && last as int - 1 >= old(st)@.regions.len(),
            forall|f: nat|
                f + pos + k >= t.len() + 1 ==> (((#[trigger] sp_regions(
                    t,
                    p as int,
                    names_of(scope@),
                    f,
                )) is Some <==> sp_regions(t, pos as int, d0, (f + k) as nat) is Some) && (
                sp_regions(t, p as int, names_of(scope@), f) matches Some(rest) ==> sp_regions(
                    t,
                    pos as int,
                    d0,
                    (f + k) as nat,
                ) matches Some(full) && full.end == rest.end && full.defs == rest.defs)),
        decreases n - p,
    {
        let q = skip_ws(text, p);
        if q >= n || byte_at(text, q) != 123 {
            proof {
                assert forall|f: nat| f + pos >= t.len() + 1 implies ((#[trigger] sp_regions(
                    t,
                    pos as int,
                    d0,
                    f,
                )) matches Some(rg) && rg.end == p as int && rg.defs == names_of(scope@)) by {
                    let fr = (f - k) as nat;
                    assert(sp_regions(t, p as int, names_of(scope@), fr) matches Some(rest)
                        && rest.end == p as int && rest.defs == names_of(scope@));
                    assert((fr + k) as nat == f);
                }
            }
            return Some((first, p));
        }
        let ghost before = st@;
        let ghost p_prev = p;
        let ghost dq = names_of(scope@);
        match parse_oplist(text, q + 1, st, scope) {
            Some((first_op, _last_op, p2)) => {
                proof {
                    crate::store::lemma_extends_trans(old(st)@, before, st@);
                }
                let p3 = skip_ws(text, p2);
                if p3 >= n || byte_at(text, p3) != 125 {
                    proof {
                        assert forall|f: nat| f + pos >= t.len() + 1 implies (#[trigger] sp_regions(
                            t,
                            pos as int,
                            d0,
                            f,
                        )) is None by {
                            let fr = (f - k) as nat;
                            assert(sp_oplist(t, q + 1, dq, fr) matches Some(lp) && lp.end == p2
                                as int);
                            assert(sp_regions(t, p_prev as int, dq, fr) is None);
                            assert((fr + k) as nat == f);
                        }
                    }
                    return None;
                }
                let ghost s_in = st@;
                let bh = st.alloc_block(first_op);
                let ghost s_blk = st@;
                let rh = st.alloc_region(bh);
                proof {
                    crate::store::lemma_extends_trans(s_in, s_blk, st@);
                    crate::store::lemma_extends_trans(old(st)@, s_in, st@);
                    lemma_scope_wf_grow(scope@, s_in, st@);
                }
                if first == 0 {
                    first = rh;
                } else {
                    let ghost prepatch = st@;
                    st.patch_region_next(last, rh);
                    proof {
                        assert(old(st)@.regions =~= st@.regions.subrange(
                            0,
                            old(st)@.regions.len() as int,
                        ));
                        assert(st@.regions[rh as int - 1] == prepatch.regions[rh as int - 1]);
                        lemma_scope_wf_grow(scope@, prepatch, st@);
                    }
                }
                proof {
                    assert forall|f: nat| f + pos + (k + 1) >= t.len() + 1 implies (((
                    #[trigger] sp_regions(t, p3 + 1, names_of(scope@), f)) is Some <==> sp_regions(
                        t,
                        pos as int,
                        d0,
                        (f + (k + 1)) as nat,
                    ) is Some) && (sp_regions(t, p3 + 1, names_of(scope@), f) matches Some(rest)
                        ==> sp_regions(t, pos as int, d0, (f + (k + 1)) as nat) matches Some(full)
                        && full.end == rest.end && full.defs == rest.defs)) by {
                        let f1 = (f + 1) as nat;
                        assert(sp_oplist(t, q + 1, dq, f1) matches Some(lp) && lp.end == p2 as int
                            && lp.defs == names_of(scope@));
                        assert(sp_regions(t, p_prev as int, dq, f1) == (match sp_regions(
                            t,
                            p3 + 1,
                            names_of(scope@),
                            f,
                        ) {
                            Some(rest) => Some(
                                RegParse {
                                    end: rest.end,
                                    defs: rest.defs,
                                    first_body: sp_oplist(t, q + 1, dq, f1)->0.names,
                                },
                            ),
                            None => None::<RegParse>,
                        }));
                        assert((f1 + k) as nat == (f + (k + 1)) as nat);
                    }
                    k = k + 1;
                }
                last = rh;
                p = p3 + 1;
            },
            None => {
                proof {
                    crate::store::lemma_extends_trans(old(st)@, before, st@);
                    assert forall|f: nat| f + pos >= t.len() + 1 implies (#[trigger] sp_regions(
                        t,
                        pos as int,
                        d0,
                        f,
                    )) is None by {
                        let fr = (f - k) as nat;
                        assert(sp_oplist(t, q + 1, dq, fr) is None);
                        assert(sp_regions(t, p_prev as int, dq, fr) is None);
                        assert((fr + k) as nat == f);
                    }
                }
                return None;
            },
        }
    }
}

/// Reads a whole module body: a run of operations covering the entire
/// text. On success the store gains a module whose root operation holds
/// one region with one block of the parsed operations; on failure the
/// module table is untouched and absence is returned.
pub(crate) fn parse_module(st: &mut Store, text: &[u8]) -> (r: Option<usize>)
    requires
        old(st)@.wf(),
    ensures
        final(st)@.wf(),
        store_extends(old(st)@, final(st)@),
        final(st)@.dialects == old(st)@.dialects,
        r is Some <==> sp_module_ok(text@),
        r matches Some(m) ==> rep_names(
            final(st)@,
            final(st)@.block_first_op(final(st)@.module_body(m as nat)),
            sp_module_names(text@),
        ),
        match r {
            Some(m) => m as nat == final(st)@.modules.len() && final(st)@.valid_module(m as nat)
                && final(st)@.modules.len() == old(st)@.modules.len() + 1,
            None => final(st)@.modules == old(st)@.modules,
        },
{
    let mut scope: Vec<ScopeEntry> = Vec::new();
    proof {
        assert(names_of(scope@) =~= Seq::<Seq<u8>>::empty());
    }
    let n = text.len();
    match parse_oplist(text, 0, st, &mut scope) {
        Some((first, _last, p)) => {
            let ghost fuel = (text@.len() + 1) as nat;
            proof {
                assert(sp_oplist(text@, 0, Seq::empty(), fuel) matches Some(lp) && lp.end == p
                    as int);
            }
            let q = skip_ws(text, p);
            if q != n {
                return None;
            }
            let ghost s0 = st@;
            let bh = st.alloc_block(first);
            let ghost s1 = st@;
            let rh = st.alloc_region(bh);
            let ghost s2 = st@;
            let name_h = st.intern_ident("builtin.module".as_bytes());
            let ghost s3 = st@;
            proof {
                crate::store::lemma_extends_trans(s0, s1, s2);
                crate::store::lemma_extends_trans(s0, s2, s3);
            }
            let oph = st.alloc_op(name_h, rh, Vec::new(), Vec::new(), Vec::new());
            let ghost s4 = st@;
            proof {
                crate::store::lemma_extends_trans(s0, s3, s4);
                assert(st@.ops[oph as int - 1].first_region == rh as nat);
                assert(st@.regions[rh as int - 1].first_block == bh as nat);
            }
            let mh = st.alloc_module(oph);
            proof {
                crate::store::lemma_extends_trans(s0, s4, st@);
                crate::store::lemma_extends_trans(old(st)@, s0, st@);
                let names = sp_module_names(text@);
                assert(sp_oplist(text@, 0, Seq::empty(), fuel) matches Some(lp) && lp.names
                    == names && rep_names(s0, first as nat, lp.names));
                lemma_rep_names_grow(s0, st@, first as nat, names);
                assert(st@.module_op(mh as nat) == oph as nat);
                assert(st@.op_first_region(oph as nat) == rh as nat);
                assert(st@.region_first_block(rh as nat) == bh as nat);
                assert(st@.block_first_op(bh as nat) == first as nat);
            }
            Some(mh)
        },
        None => {
            proof {
                assert(sp_oplist(text@, 0, Seq::empty(), (text@.len() + 1) as nat) is None);
            }
            None
        },
    }
}

} // verus!
