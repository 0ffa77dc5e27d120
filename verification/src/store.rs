//! The context-owned storage for the IR graph, and its mathematical model.
//!
//! Every entity lives in one of the context's tables. A handle is a small
//! integer: zero denotes absence, and a nonzero handle `h` of a given kind
//! names entry `h - 1` of that kind's table. Well-formedness
//! ([`StoreModel::wf`]) says that every link stored in a node is either zero
//! or a valid handle, and that every "next sibling" link points strictly
//! forward in its table — which is what makes traversal terminate.

use vstd::prelude::*;

verus! {

/// Mathematical model of one operation node.
pub ghost struct OpModel {
    /// Identifier handle of the operation's name; never zero.
    pub name: nat,
    /// Region handle of the first child region, or zero for none.
    pub first_region: nat,
    /// Operation handle of the next sibling in the block, or zero at the end.
    pub next: nat,
    /// Value handles of the operands.
    pub operands: Seq<nat>,
    /// Value handles of the results.
    pub results: Seq<nat>,
    /// Named attributes: identifier handle paired with attribute handle.
    pub attrs: Seq<(nat, nat)>,
}

/// Mathematical model of one region node.
pub ghost struct RegionModel {
    /// Block handle of the first block, or zero for none.
    pub first_block: nat,
    /// Region handle of the next sibling region, or zero at the end.
    pub next: nat,
}

/// Mathematical model of one block node.
pub ghost struct BlockModel {
    /// Operation handle of the first operation, or zero for an empty block.
    pub first_op: nat,
}

/// Mathematical model of one value node.
pub ghost struct ValueModel {
    /// Type handle of the value's type; never zero.
    pub ty: nat,
}

/// Mathematical model of one type node.
pub ghost struct TypeModel {
    /// Identifier handle of the type's textual name; never zero.
    pub name: nat,
}

/// Mathematical model of one attribute node.
pub ghost struct AttrModel {
    /// Identifier handle of the attribute's textual value; never zero.
    pub text: nat,
}

/// Mathematical model of one module node.
pub ghost struct ModuleModel {
    /// Operation handle of the module's root operation; never zero.
    pub op: nat,
}

/// Mathematical model of a context's storage.
pub ghost struct StoreModel {
    pub idents: Seq<Seq<u8>>,
    pub types: Seq<TypeModel>,
    pub attrs: Seq<AttrModel>,
    pub values: Seq<ValueModel>,
    pub ops: Seq<OpModel>,
    pub regions: Seq<RegionModel>,
    pub blocks: Seq<BlockModel>,
    pub modules: Seq<ModuleModel>,
    pub dialects: Seq<nat>,
}

impl StoreModel {
    pub open spec fn valid_ident(self, h: nat) -> bool {
        1 <= h <= self.idents.len()
    }

    pub open spec fn valid_type(self, h: nat) -> bool {
        1 <= h <= self.types.len()
    }

    pub open spec fn valid_attr(self, h: nat) -> bool {
        1 <= h <= self.attrs.len()
    }

    pub open spec fn valid_value(self, h: nat) -> bool {
        1 <= h <= self.values.len()
    }

    pub open spec fn valid_op(self, h: nat) -> bool {
        1 <= h <= self.ops.len()
    }

    pub open spec fn valid_region(self, h: nat) -> bool {
        1 <= h <= self.regions.len()
    }

    pub open spec fn valid_block(self, h: nat) -> bool {
        1 <= h <= self.blocks.len()
    }

    pub open spec fn valid_module(self, h: nat) -> bool {
        1 <= h <= self.modules.len()
    }

    /// Well-formedness of the operation at table index `i`.
    pub open spec fn op_wf_at(self, i: int) -> bool {
        let o = self.ops[i];
        &&& self.valid_ident(o.name)
        &&& (o.first_region == 0 || self.valid_region(o.first_region))
        &&& (o.next == 0 || (self.valid_op(o.next) && o.next > i + 1))
        &&& (forall|j: int| 0 <= j < o.operands.len() ==> self.valid_value(#[trigger] o.operands[j]))
        &&& (forall|j: int| 0 <= j < o.results.len() ==> self.valid_value(#[trigger] o.results[j]))
        &&& (forall|j: int|
            0 <= j < o.attrs.len() ==> self.valid_ident((#[trigger] o.attrs[j]).0) && self.valid_attr(
                o.attrs[j].1,
            ))
    }

    /// Well-formedness of the region at table index `i`.
    pub open spec fn region_wf_at(self, i: int) -> bool {
        let r = self.regions[i];
        &&& (r.first_block == 0 || self.valid_block(r.first_block))
        &&& (r.next == 0 || (self.valid_region(r.next) && r.next > i + 1))
    }

    /// Well-formedness of the module at table index `i`: its root operation
    /// exists and carries at least one region holding at least one block, so
    /// that the module has a body.
    pub open spec fn module_wf_at(self, i: int) -> bool {
        let m = self.modules[i];
        &&& self.valid_op(m.op)
        &&& self.valid_region(self.ops[m.op - 1].first_region)
        &&& self.valid_block(self.regions[self.ops[m.op - 1].first_region - 1].first_block)
    }

    /// Every stored link is zero or a valid handle of its kind, and sibling
    /// links point strictly forward in their table.
    pub open spec fn wf(self) -> bool {
        &&& (forall|i: int|
            0 <= i < self.types.len() ==> self.valid_ident((#[trigger] self.types[i]).name))
        &&& (forall|i: int|
            0 <= i < self.attrs.len() ==> self.valid_ident((#[trigger] self.attrs[i]).text))
        &&& (forall|i: int|
            0 <= i < self.values.len() ==> self.valid_type((#[trigger] self.values[i]).ty))
        &&& (forall|i: int| 0 <= i < self.ops.len() ==> self.op_wf_at(i))
        &&& (forall|i: int| 0 <= i < self.regions.len() ==> self.region_wf_at(i))
        &&& (forall|i: int|
            0 <= i < self.blocks.len() ==> ((#[trigger] self.blocks[i]).first_op == 0
                || self.valid_op(self.blocks[i].first_op)))
        &&& (forall|i: int| 0 <= i < self.modules.len() ==> self.module_wf_at(i))
    }

    /// The interned text of an identifier handle, or the empty sequence for
    /// an invalid handle.
    pub open spec fn ident_text(self, h: nat) -> Seq<u8> {
        if self.valid_ident(h) {
            self.idents[h - 1]
        } else {
            Seq::empty()
        }
    }

    /// Next sibling of an operation, or zero.
    pub open spec fn op_next(self, h: nat) -> nat {
        if self.valid_op(h) {
            self.ops[h - 1].next
        } else {
            0
        }
    }

    /// First child region of an operation, or zero.
    pub open spec fn op_first_region(self, h: nat) -> nat {
        if self.valid_op(h) {
            self.ops[h - 1].first_region
        } else {
            0
        }
    }

    /// Name identifier of an operation, or zero.
    pub open spec fn op_name(self, h: nat) -> nat {
        if self.valid_op(h) {
            self.ops[h - 1].name
        } else {
            0
        }
    }

    /// Operand count of an operation; zero for an invalid handle.
    pub open spec fn op_num_operands(self, h: nat) -> nat {
        if self.valid_op(h) {
            self.ops[h - 1].operands.len()
        } else {
            0
        }
    }

    /// Operand `i` of an operation, or zero when out of range.
    pub open spec fn op_operand(self, h: nat, i: int) -> nat {
        if self.valid_op(h) && 0 <= i < self.ops[h - 1].operands.len() {
            self.ops[h - 1].operands[i]
        } else {
            0
        }
    }

    /// Result count of an operation; zero for an invalid handle.
    pub open spec fn op_num_results(self, h: nat) -> nat {
        if self.valid_op(h) {
            self.ops[h - 1].results.len()
        } else {
            0
        }
    }

    /// Result `i` of an operation, or zero when out of range.
    pub open spec fn op_result(self, h: nat, i: int) -> nat {
        if self.valid_op(h) && 0 <= i < self.ops[h - 1].results.len() {
            self.ops[h - 1].results[i]
        } else {
            0
        }
    }

    /// Attribute count of an operation; zero for an invalid handle.
    pub open spec fn op_num_attrs(self, h: nat) -> nat {
        if self.valid_op(h) {
            self.ops[h - 1].attrs.len()
        } else {
            0
        }
    }

    /// Named attribute `i` of an operation, or the null pair.
    pub open spec fn op_attr(self, h: nat, i: int) -> (nat, nat) {
        if self.valid_op(h) && 0 <= i < self.ops[h - 1].attrs.len() {
            self.ops[h - 1].attrs[i]
        } else {
            (0, 0)
        }
    }

    /// Next sibling of a region, or zero.
    pub open spec fn region_next(self, h: nat) -> nat {
        if self.valid_region(h) {
            self.regions[h - 1].next
        } else {
            0
        }
    }

    /// First block of a region, or zero.
    pub open spec fn region_first_block(self, h: nat) -> nat {
        if self.valid_region(h) {
            self.regions[h - 1].first_block
        } else {
            0
        }
    }

    /// First operation of a block, or zero.
    pub open spec fn block_first_op(self, h: nat) -> nat {
        if self.valid_block(h) {
            self.blocks[h - 1].first_op
        } else {
            0
        }
    }

    /// Type of a value, or zero.
    pub open spec fn value_ty(self, h: nat) -> nat {
        if self.valid_value(h) {
            self.values[h - 1].ty
        } else {
            0
        }
    }

    /// Name identifier of a type, or zero.
    pub open spec fn ty_name(self, h: nat) -> nat {
        if self.valid_type(h) {
            self.types[h - 1].name
        } else {
            0
        }
    }

    /// Textual value identifier of an attribute, or zero.
    pub open spec fn attr_text(self, h: nat) -> nat {
        if self.valid_attr(h) {
            self.attrs[h - 1].text
        } else {
            0
        }
    }

    /// Root operation of a module, or zero.
    pub open spec fn module_op(self, h: nat) -> nat {
        if self.valid_module(h) {
            self.modules[h - 1].op
        } else {
            0
        }
    }

    /// The body block of a module: the first block of the first region of
    /// its root operation, or zero for an invalid handle.
    pub open spec fn module_body(self, h: nat) -> nat {
        self.region_first_block(self.op_first_region(self.module_op(h)))
    }
}

/// The store `b` extends the store `a`: every table of `a` is an unchanged
/// prefix of the corresponding table of `b`. Handles valid in `a` stay valid
/// in `b` and name the same entries.
pub open spec fn store_extends(a: StoreModel, b: StoreModel) -> bool {
    &&& a.idents.is_prefix_of(b.idents)
    &&& a.types.is_prefix_of(b.types)
    &&& a.attrs.is_prefix_of(b.attrs)
    &&& a.values.is_prefix_of(b.values)
    &&& a.ops.is_prefix_of(b.ops)
    &&& a.regions.is_prefix_of(b.regions)
    &&& a.blocks.is_prefix_of(b.blocks)
    &&& a.modules.is_prefix_of(b.modules)
    &&& a.dialects.is_prefix_of(b.dialects)
}

/// A prefix agrees with the longer sequence at every index it covers.
pub proof fn lemma_prefix_index<T>(a: Seq<T>, b: Seq<T>, i: int)
    requires
        a.is_prefix_of(b),
        0 <= i < a.len(),
    ensures
        a[i] == b[i],
{
    assert(a[i] == b.subrange(0, a.len() as int)[i]);
}

pub proof fn lemma_extends_refl(a: StoreModel)
    ensures
        store_extends(a, a),
{
}

pub proof fn lemma_extends_trans(a: StoreModel, b: StoreModel, c: StoreModel)
    requires
        store_extends(a, b),
        store_extends(b, c),
    ensures
        store_extends(a, c),
{
    assert(a.idents =~= c.idents.subrange(0, a.idents.len() as int));
    assert(a.types =~= c.types.subrange(0, a.types.len() as int));
    assert(a.attrs =~= c.attrs.subrange(0, a.attrs.len() as int));
    assert(a.values =~= c.values.subrange(0, a.values.len() as int));
    assert(a.ops =~= c.ops.subrange(0, a.ops.len() as int));
    assert(a.regions =~= c.regions.subrange(0, a.regions.len() as int));
    assert(a.blocks =~= c.blocks.subrange(0, a.blocks.len() as int));
    assert(a.modules =~= c.modules.subrange(0, a.modules.len() as int));
    assert(a.dialects =~= c.dialects.subrange(0, a.dialects.len() as int));
}

/// Growing a well-formed store preserves well-formedness, provided each new
/// table entry is itself well-formed in the grown store.
pub proof fn lemma_extends_wf(a: StoreModel, b: StoreModel)
    requires
        a.wf(),
        store_extends(a, b),
        forall|i: int|
            a.types.len() <= i < b.types.len() ==> b.valid_ident((#[trigger] b.types[i]).name),
        forall|i: int|
            a.attrs.len() <= i < b.attrs.len() ==> b.valid_ident((#[trigger] b.attrs[i]).text),
        forall|i: int|
            a.values.len() <= i < b.values.len() ==> b.valid_type((#[trigger] b.values[i]).ty),
        forall|i: int| a.ops.len() <= i < b.ops.len() ==> b.op_wf_at(i),
        forall|i: int| a.regions.len() <= i < b.regions.len() ==> b.region_wf_at(i),
        forall|i: int|
            a.blocks.len() <= i < b.blocks.len() ==> ((#[trigger] b.blocks[i]).first_op == 0
                || b.valid_op(b.blocks[i].first_op)),
        forall|i: int| a.modules.len() <= i < b.modules.len() ==> b.module_wf_at(i),
    ensures
        b.wf(),
{
    assert forall|i: int| 0 <= i < b.types.len() implies b.valid_ident(
        (#[trigger] b.types[i]).name,
    ) by {
        if i < a.types.len() {
            lemma_prefix_index(a.types, b.types, i);
        }
    }
    assert forall|i: int| 0 <= i < b.attrs.len() implies b.valid_ident(
        (#[trigger] b.attrs[i]).text,
    ) by {
        if i < a.attrs.len() {
            lemma_prefix_index(a.attrs, b.attrs, i);
        }
    }
    assert forall|i: int| 0 <= i < b.values.len() implies b.valid_type(
        (#[trigger] b.values[i]).ty,
    ) by {
        if i < a.values.len() {
            lemma_prefix_index(a.values, b.values, i);
        }
    }
    assert forall|i: int| 0 <= i < b.ops.len() implies b.op_wf_at(i) by {
        if i < a.ops.len() {
            lemma_prefix_index(a.ops, b.ops, i);
            assert(a.op_wf_at(i));
        }
    }
    assert forall|i: int| 0 <= i < b.regions.len() implies b.region_wf_at(i) by {
        if i < a.regions.len() {
            lemma_prefix_index(a.regions, b.regions, i);
            assert(a.region_wf_at(i));
        }
    }
    assert forall|i: int| 0 <= i < b.blocks.len() implies ((#[trigger] b.blocks[i]).first_op == 0
        || b.valid_op(b.blocks[i].first_op)) by {
        if i < a.blocks.len() {
            lemma_prefix_index(a.blocks, b.blocks, i);
        }
    }
    assert forall|i: int| 0 <= i < b.modules.len() implies b.module_wf_at(i) by {
        if i < a.modules.len() {
            lemma_prefix_index(a.modules, b.modules, i);
            assert(a.module_wf_at(i));
            lemma_prefix_index(a.ops, b.ops, a.modules[i].op - 1);
            lemma_prefix_index(a.regions, b.regions, a.ops[a.modules[i].op - 1].first_region - 1);
        }
    }
}

/// The operation handle reached after `k` forward steps from `h`.
pub open spec fn op_chain(c: StoreModel, h: nat, k: nat) -> nat
    decreases k,
{
    if k == 0 {
        h
    } else {
        c.op_next(op_chain(c, h, (k - 1) as nat))
    }
}

/// While the walk has not reached absence, each step moves to a strictly
/// larger handle, which stays a valid one.
proof fn lemma_op_chain_grows(c: StoreModel, h: nat, k: nat)
    requires
        c.wf(),
    ensures
        op_chain(c, h, k) != 0 ==> op_chain(c, h, k) >= h + k,
        k >= 1 && op_chain(c, h, k) != 0 ==> c.valid_op(op_chain(c, h, k)),
    decreases k,
{
    if k >= 1 {
        lemma_op_chain_grows(c, h, (k - 1) as nat);
        let p = op_chain(c, h, (k - 1) as nat);
        let q = op_chain(c, h, k);
        if q != 0 {
            assert(c.valid_op(p));
            assert(c.op_wf_at(p as int - 1));
        }
    }
}

/// Traversal termination for operations: from any starting handle,
/// repeatedly following "next" reaches absence after no more steps than
/// there are operations in the context — there is no cycle to walk.
pub proof fn lemma_op_traversal_terminates(c: StoreModel, h: nat)
    requires
        c.wf(),
    ensures
        op_chain(c, h, c.ops.len() + 1) == 0,
{
    let k = c.ops.len() + 1;
    if op_chain(c, h, k) != 0 {
        lemma_op_chain_grows(c, h, k);
        assert(c.valid_op(op_chain(c, h, k)));
    }
}

/// The region handle reached after `k` forward steps from `h`.
pub open spec fn region_chain(c: StoreModel, h: nat, k: nat) -> nat
    decreases k,
{
    if k == 0 {
        h
    } else {
        c.region_next(region_chain(c, h, (k - 1) as nat))
    }
}

/// While the walk has not reached absence, each step moves to a strictly
/// larger handle, which stays a valid one.
proof fn lemma_region_chain_grows(c: StoreModel, h: nat, k: nat)
    requires
        c.wf(),
    ensures
        region_chain(c, h, k) != 0 ==> region_chain(c, h, k) >= h + k,
        k >= 1 && region_chain(c, h, k) != 0 ==> c.valid_region(region_chain(c, h, k)),
    decreases k,
{
    if k >= 1 {
        lemma_region_chain_grows(c, h, (k - 1) as nat);
        let p = region_chain(c, h, (k - 1) as nat);
        let q = region_chain(c, h, k);
        if q != 0 {
            assert(c.valid_region(p));
            assert(c.region_wf_at(p as int - 1));
        }
    }
}

/// Traversal termination for regions: from any starting handle, repeatedly
/// following "next" reaches absence after no more steps than there are
/// regions in the context.
pub proof fn lemma_region_traversal_terminates(c: StoreModel, h: nat)
    requires
        c.wf(),
    ensures
        region_chain(c, h, c.regions.len() + 1) == 0,
{
    let k = c.regions.len() + 1;
    if region_chain(c, h, k) != 0 {
        lemma_region_chain_grows(c, h, k);
        assert(c.valid_region(region_chain(c, h, k)));
    }
}

/// The view of a sequence of handles.
pub(crate) open spec fn nats_of(v: Seq<usize>) -> Seq<nat> {
    Seq::new(v.len(), |i: int| v[i] as nat)
}

/// One named attribute as stored on an operation node.
pub(crate) struct NamedAttrNode {
    pub(crate) name: usize,
    pub(crate) attr: usize,
}

/// The view of a sequence of named-attribute nodes.
pub(crate) open spec fn attr_pairs(v: Seq<NamedAttrNode>) -> Seq<(nat, nat)> {
    Seq::new(v.len(), |i: int| (v[i].name as nat, v[i].attr as nat))
}

pub(crate) struct OpNode {
    pub(crate) name: usize,
    pub(crate) first_region: usize,
    pub(crate) next: usize,
    pub(crate) operands: Vec<usize>,
    pub(crate) results: Vec<usize>,
    pub(crate) attrs: Vec<NamedAttrNode>,
}

pub(crate) struct RegionNode {
    pub(crate) first_block: usize,
    pub(crate) next: usize,
}

pub(crate) struct BlockNode {
    pub(crate) first_op: usize,
}

pub(crate) struct ValueNode {
    pub(crate) ty: usize,
}

pub(crate) struct TypeNode {
    pub(crate) name: usize,
}

pub(crate) struct AttrNode {
    pub(crate) text: usize,
}

pub(crate) struct ModuleNode {
    pub(crate) op: usize,
}

pub(crate) open spec fn op_node_model(n: OpNode) -> OpModel {
    OpModel {
        name: n.name as nat,
        first_region: n.first_region as nat,
        next: n.next as nat,
        operands: nats_of(n.operands@),
        results: nats_of(n.results@),
        attrs: attr_pairs(n.attrs@),
    }
}

/// The context-owned tables that hold the IR graph.
pub struct Store {
    idents: Vec<Vec<u8>>,
    types: Vec<TypeNode>,
    attrs: Vec<AttrNode>,
    values: Vec<ValueNode>,
    ops: Vec<OpNode>,
    regions: Vec<RegionNode>,
    blocks: Vec<BlockNode>,
    modules: Vec<ModuleNode>,
    dialects: Vec<usize>,
}

impl View for Store {
    type V = StoreModel;

    closed spec fn view(&self) -> StoreModel {
        StoreModel {
            idents: Seq::new(self.idents@.len(), |i: int| self.idents@[i]@),
            types: Seq::new(self.types@.len(), |i: int| TypeModel { name: self.types@[i].name as nat }),
            attrs: Seq::new(self.attrs@.len(), |i: int| AttrModel { text: self.attrs@[i].text as nat }),
            values: Seq::new(self.values@.len(), |i: int| ValueModel { ty: self.values@[i].ty as nat }),
            ops: Seq::new(self.ops@.len(), |i: int| op_node_model(self.ops@[i])),
            regions: Seq::new(
                self.regions@.len(),
                |i: int| RegionModel {
                    first_block: self.regions@[i].first_block as nat,
                    next: self.regions@[i].next as nat,
                },
            ),
            blocks: Seq::new(self.blocks@.len(), |i: int| BlockModel { first_op: self.blocks@[i].first_op as nat }),
            modules: Seq::new(self.modules@.len(), |i: int| ModuleModel { op: self.modules@[i].op as nat }),
            dialects: Seq::new(self.dialects@.len(), |i: int| self.dialects@[i] as nat),
        }
    }
}

/// Compares two byte strings for equality of contents.
pub(crate) fn bytes_eq(a: &[u8], b: &[u8]) -> (r: bool)
    ensures
        r == (a@ == b@),
{
    broadcast use vstd::slice::group_slice_axioms;

    if a.len() != b.len() {
        return false;
    }
    let n = a.len();
    let mut i: usize = 0;
    while i < n
        invariant
            i <= n,
            n == a@.len(),
            a@.len() == b@.len(),
            forall|k: int| 0 <= k < i ==> a@[k] == b@[k],
        decreases n - i,
    {
        let x = match a.get(i) {
            Some(v) => *v,
            None => 0,
        };
        let y = match b.get(i) {
            Some(v) => *v,
            None => 0,
        };
        if x != y {
            return false;
        }
        i = i + 1;
    }
    proof {
        assert(a@ =~= b@);
    }
    true
}

impl Store {
    /// A fresh store with every table empty.
    pub(crate) fn empty() -> (s: Store)
        ensures
            s@.wf(),
            s@.idents.len() == 0,
            s@.types.len() == 0,
            s@.attrs.len() == 0,
            s@.values.len() == 0,
            s@.ops.len() == 0,
            s@.regions.len() == 0,
            s@.blocks.len() == 0,
            s@.modules.len() == 0,
            s@.dialects.len() == 0,
    {
        Store {
            idents: Vec::new(),
            types: Vec::new(),
            attrs: Vec::new(),
            values: Vec::new(),
            ops: Vec::new(),
            regions: Vec::new(),
            blocks: Vec::new(),
            modules: Vec::new(),
            dialects: Vec::new(),
        }
    }

    /// Empties every table, releasing the whole graph at once.
    pub(crate) fn clear(&mut self)
        ensures
            final(self)@.wf(),
            final(self)@.idents.len() == 0,
            final(self)@.types.len() == 0,
            final(self)@.attrs.len() == 0,
            final(self)@.values.len() == 0,
            final(self)@.ops.len() == 0,
            final(self)@.regions.len() == 0,
            final(self)@.blocks.len() == 0,
            final(self)@.modules.len() == 0,
            final(self)@.dialects.len() == 0,
    {
        self.idents = Vec::new();
        self.types = Vec::new();
        self.attrs = Vec::new();
        self.values = Vec::new();
        self.ops = Vec::new();
        self.regions = Vec::new();
        self.blocks = Vec::new();
        self.modules = Vec::new();
        self.dialects = Vec::new();
    }

    pub(crate) fn num_ops(&self) -> (n: usize)
        ensures
            n == self@.ops.len(),
    {
        self.ops.len()
    }

    pub(crate) fn num_regions(&self) -> (n: usize)
        ensures
            n == self@.regions.len(),
    {
        self.regions.len()
    }

    pub(crate) fn num_blocks(&self) -> (n: usize)
        ensures
            n == self@.blocks.len(),
    {
        self.blocks.len()
    }

    pub(crate) fn num_values(&self) -> (n: usize)
        ensures
            n == self@.values.len(),
    {
        self.values.len()
    }

    pub(crate) fn num_types(&self) -> (n: usize)
        ensures
            n == self@.types.len(),
    {
        self.types.len()
    }

    pub(crate) fn num_attrs(&self) -> (n: usize)
        ensures
            n == self@.attrs.len(),
    {
        self.attrs.len()
    }

    pub(crate) fn num_idents(&self) -> (n: usize)
        ensures
            n == self@.idents.len(),
    {
        self.idents.len()
    }

    pub(crate) fn num_modules(&self) -> (n: usize)
        ensures
            n == self@.modules.len(),
    {
        self.modules.len()
    }

    pub(crate) fn op_next_at(&self, h: usize) -> (r: usize)
        requires
            self@.valid_op(h as nat),
        ensures
            r as nat == self@.op_next(h as nat),
    {
        self.ops[h - 1].next
    }

    pub(crate) fn op_first_region_at(&self, h: usize) -> (r: usize)
        requires
            self@.valid_op(h as nat),
        ensures
            r as nat == self@.op_first_region(h as nat),
    {
        self.ops[h - 1].first_region
    }

    pub(crate) fn op_name_at(&self, h: usize) -> (r: usize)
        requires
            self@.valid_op(h as nat),
        ensures
            r as nat == self@.op_name(h as nat),
    {
        self.ops[h - 1].name
    }

    pub(crate) fn op_num_operands_at(&self, h: usize) -> (r: usize)
        requires
            self@.valid_op(h as nat),
        ensures
            r as nat == self@.op_num_operands(h as nat),
    {
        self.ops[h - 1].operands.len()
    }

    pub(crate) fn op_operand_at(&self, h: usize, i: usize) -> (r: usize)
        requires
            self@.valid_op(h as nat),
            i < self@.op_num_operands(h as nat),
        ensures
            r as nat == self@.op_operand(h as nat, i as int),
    {
        self.ops[h - 1].operands[i]
    }

    pub(crate) fn op_num_results_at(&self, h: usize) -> (r: usize)
        requires
            self@.valid_op(h as nat),
        ensures
            r as nat == self@.op_num_results(h as nat),
    {
        self.ops[h - 1].results.len()
    }

    pub(crate) fn op_result_at(&self, h: usize, i: usize) -> (r: usize)
        requires
            self@.valid_op(h as nat),
            i < self@.op_num_results(h as nat),
        ensures
            r as nat == self@.op_result(h as nat, i as int),
    {
        self.ops[h - 1].results[i]
    }

    pub(crate) fn op_num_attrs_at(&self, h: usize) -> (r: usize)
        requires
            self@.valid_op(h as nat),
        ensures
            r as nat == self@.op_num_attrs(h as nat),
    {
        self.ops[h - 1].attrs.len()
    }

    pub(crate) fn op_attr_at(&self, h: usize, i: usize) -> (r: (usize, usize))
        requires
            self@.valid_op(h as nat),
            i < self@.op_num_attrs(h as nat),
        ensures
            (r.0 as nat, r.1 as nat) == self@.op_attr(h as nat, i as int),
    {
        let a = &self.ops[h - 1].attrs[i];
        (a.name, a.attr)
    }

    pub(crate) fn region_next_at(&self, h: usize) -> (r: usize)
        requires
            self@.valid_region(h as nat),
        ensures
            r as nat == self@.region_next(h as nat),
    {
        self.regions[h - 1].next
    }

    pub(crate) fn region_first_block_at(&self, h: usize) -> (r: usize)
        requires
            self@.valid_region(h as nat),
        ensures
            r as nat == self@.region_first_block(h as nat),
    {
        self.regions[h - 1].first_block
    }

    pub(crate) fn block_first_op_at(&self, h: usize) -> (r: usize)
        requires
            self@.valid_block(h as nat),
        ensures
            r as nat == self@.block_first_op(h as nat),
    {
        self.blocks[h - 1].first_op
    }

    pub(crate) fn value_ty_at(&self, h: usize) -> (r: usize)
        requires
            self@.valid_value(h as nat),
        ensures
            r as nat == self@.value_ty(h as nat),
    {
        self.values[h - 1].ty
    }

    pub(crate) fn ty_name_at(&self, h: usize) -> (r: usize)
        requires
            self@.valid_type(h as nat),
        ensures
            r as nat == self@.ty_name(h as nat),
    {
        self.types[h - 1].name
    }

    pub(crate) fn attr_text_at(&self, h: usize) -> (r: usize)
        requires
            self@.valid_attr(h as nat),
        ensures
            r as nat == self@.attr_text(h as nat),
    {
        self.attrs[h - 1].text
    }

    pub(crate) fn module_op_at(&self, h: usize) -> (r: usize)
        requires
            self@.valid_module(h as nat),
        ensures
            r as nat == self@.module_op(h as nat),
    {
        self.modules[h - 1].op
    }

    pub(crate) fn ident_at<'a>(&'a self, h: usize) -> (r: &'a Vec<u8>)
        requires
            self@.valid_ident(h as nat),
        ensures
            r@ == self@.ident_text(h as nat),
    {
        &self.idents[h - 1]
    }

    /// Looks up an already interned identifier by its text.
    pub(crate) fn find_ident(&self, s: &[u8]) -> (r: Option<usize>)
        ensures
            match r {
                Some(h) => self@.valid_ident(h as nat) && self@.ident_text(h as nat) == s@,
                None => true,
            },
    {
        let n = self.idents.len();
        let mut i: usize = 0;
        while i < n
            invariant
                i <= n,
                n == self@.idents.len(),
            decreases n - i,
        {
            if bytes_eq(self.idents[i].as_slice(), s) {
                return Some(i + 1);
            }
            i = i + 1;
        }
        None
    }

    /// Interns an identifier: returns the handle of an existing entry with
    /// this text, or appends a new one.
    pub(crate) fn intern_ident(&mut self, s: &[u8]) -> (h: usize)
        requires
            old(self)@.wf(),
        ensures
            final(self)@.wf(),
            store_extends(old(self)@, final(self)@),
            final(self)@.valid_ident(h as nat),
            final(self)@.ident_text(h as nat) == s@,
            final(self)@.types == old(self)@.types,
            final(self)@.attrs == old(self)@.attrs,
            final(self)@.values == old(self)@.values,
            final(self)@.ops == old(self)@.ops,
            final(self)@.regions == old(self)@.regions,
            final(self)@.blocks == old(self)@.blocks,
            final(self)@.modules == old(self)@.modules,
            final(self)@.dialects == old(self)@.dialects,
    {
        broadcast use vstd::slice::group_slice_axioms;

        match self.find_ident(s) {
            Some(h) => {
                proof {
                    lemma_extends_refl(old(self)@);
                }
                h
            },
            None => {
                let v = vstd::slice::slice_to_vec(s);
                self.idents.push(v);
                let h = self.idents.len();
                proof {
                    assert(self@.idents =~= old(self)@.idents.push(s@));
                    assert(self@.types =~= old(self)@.types);
                    assert(self@.attrs =~= old(self)@.attrs);
                    assert(self@.values =~= old(self)@.values);
                    assert(self@.ops =~= old(self)@.ops);
                    assert(self@.regions =~= old(self)@.regions);
                    assert(self@.blocks =~= old(self)@.blocks);
                    assert(self@.modules =~= old(self)@.modules);
                    assert(self@.dialects =~= old(self)@.dialects);
                    assert(old(self)@.idents =~= self@.idents.subrange(
                        0,
                        old(self)@.idents.len() as int,
                    ));
                    lemma_extends_wf(old(self)@, self@);
                }
                h
            },
        }
    }

    /// Appends a value node and returns its handle.
    pub(crate) fn alloc_value(&mut self, ty: usize) -> (h: usize)
        requires
            old(self)@.wf(),
            old(self)@.valid_type(ty as nat),
        ensures
            final(self)@.wf(),
            store_extends(old(self)@, final(self)@),
            h as nat == final(self)@.values.len(),
            final(self)@.valid_value(h as nat),
            final(self)@.values == old(self)@.values.push(ValueModel { ty: ty as nat }),
            final(self)@.idents == old(self)@.idents,
            final(self)@.types == old(self)@.types,
            final(self)@.attrs == old(self)@.attrs,
            final(self)@.ops == old(self)@.ops,
            final(self)@.regions == old(self)@.regions,
            final(self)@.blocks == old(self)@.blocks,
            final(self)@.modules == old(self)@.modules,
            final(self)@.dialects == old(self)@.dialects,
    {
        self.values.push(ValueNode { ty });
        let h = self.values.len();
        proof {
            assert(self@.values =~= old(self)@.values.push(ValueModel { ty: ty as nat }));
            assert(self@.idents =~= old(self)@.idents);
            assert(self@.types =~= old(self)@.types);
            assert(self@.attrs =~= old(self)@.attrs);
            assert(self@.ops =~= old(self)@.ops);
            assert(self@.regions =~= old(self)@.regions);
            assert(self@.blocks =~= old(self)@.blocks);
            assert(self@.modules =~= old(self)@.modules);
            assert(self@.dialects =~= old(self)@.dialects);
            assert(old(self)@.values =~= self@.values.subrange(0, old(self)@.values.len() as int));
            lemma_extends_wf(old(self)@, self@);
        }
        h
    }

    /// Appends a type node and returns its handle.
    pub(crate) fn alloc_type(&mut self, name: usize) -> (h: usize)
        requires
            old(self)@.wf(),
            old(self)@.valid_ident(name as nat),
        ensures
            final(self)@.wf(),
            store_extends(old(self)@, final(self)@),
            h as nat == final(self)@.types.len(),
            final(self)@.valid_type(h as nat),
            final(self)@.types == old(self)@.types.push(TypeModel { name: name as nat }),
            final(self)@.idents == old(self)@.idents,
            final(self)@.attrs == old(self)@.attrs,
            final(self)@.values == old(self)@.values,
            final(self)@.ops == old(self)@.ops,
            final(self)@.regions == old(self)@.regions,
            final(self)@.blocks == old(self)@.blocks,
            final(self)@.modules == old(self)@.modules,
            final(self)@.dialects == old(self)@.dialects,
    {
        self.types.push(TypeNode { name });
        let h = self.types.len();
        proof {
            assert(self@.types =~= old(self)@.types.push(TypeModel { name: name as nat }));
            assert(self@.idents =~= old(self)@.idents);
            assert(self@.attrs =~= old(self)@.attrs);
            assert(self@.values =~= old(self)@.values);
            assert(self@.ops =~= old(self)@.ops);
            assert(self@.regions =~= old(self)@.regions);
            assert(self@.blocks =~= old(self)@.blocks);
            assert(self@.modules =~= old(self)@.modules);
            assert(self@.dialects =~= old(self)@.dialects);
            assert(old(self)@.types =~= self@.types.subrange(0, old(self)@.types.len() as int));
            lemma_extends_wf(old(self)@, self@);
        }
        h
    }

    /// Appends an attribute node and returns its handle.
    pub(crate) fn alloc_attr(&mut self, text: usize) -> (h: usize)
        requires
            old(self)@.wf(),
            old(self)@.valid_ident(text as nat),
        ensures
            final(self)@.wf(),
            store_extends(old(self)@, final(self)@),
            h as nat == final(self)@.attrs.len(),
            final(self)@.valid_attr(h as nat),
            final(self)@.attrs == old(self)@.attrs.push(AttrModel { text: text as nat }),
            final(self)@.idents == old(self)@.idents,
            final(self)@.types == old(self)@.types,
            final(self)@.values == old(self)@.values,
            final(self)@.ops == old(self)@.ops,
            final(self)@.regions == old(self)@.regions,
            final(self)@.blocks == old(self)@.blocks,
            final(self)@.modules == old(self)@.modules,
            final(self)@.dialects == old(self)@.dialects,
    {
        self.attrs.push(AttrNode { text });
        let h = self.attrs.len();
        proof {
            assert(self@.attrs =~= old(self)@.attrs.push(AttrModel { text: text as nat }));
            assert(self@.idents =~= old(self)@.idents);
            assert(self@.types =~= old(self)@.types);
            assert(self@.values =~= old(self)@.values);
            assert(self@.ops =~= old(self)@.ops);
            assert(self@.regions =~= old(self)@.regions);
            assert(self@.blocks =~= old(self)@.blocks);
            assert(self@.modules =~= old(self)@.modules);
            assert(self@.dialects =~= old(self)@.dialects);
            assert(old(self)@.attrs =~= self@.attrs.subrange(0, old(self)@.attrs.len() as int));
            lemma_extends_wf(old(self)@, self@);
        }
        h
    }

    /// Appends a block node and returns its handle.
    pub(crate) fn alloc_block(&mut self, first_op: usize) -> (h: usize)
        requires
            old(self)@.wf(),
            first_op == 0 || old(self)@.valid_op(first_op as nat),
        ensures
            final(self)@.wf(),
            store_extends(old(self)@, final(self)@),
            h as nat == final(self)@.blocks.len(),
            final(self)@.valid_block(h as nat),
            final(self)@.blocks == old(self)@.blocks.push(BlockModel { first_op: first_op as nat }),
            final(self)@.idents == old(self)@.idents,
            final(self)@.types == old(self)@.types,
            final(self)@.attrs == old(self)@.attrs,
            final(self)@.values == old(self)@.values,
            final(self)@.ops == old(self)@.ops,
            final(self)@.regions == old(self)@.regions,
            final(self)@.modules == old(self)@.modules,
            final(self)@.dialects == old(self)@.dialects,
    {
        self.blocks.push(BlockNode { first_op });
        let h = self.blocks.len();
        proof {
            assert(self@.blocks =~= old(self)@.blocks.push(
                BlockModel { first_op: first_op as nat },
            ));
            assert(self@.idents =~= old(self)@.idents);
            assert(self@.types =~= old(self)@.types);
            assert(self@.attrs =~= old(self)@.attrs);
            assert(self@.values =~= old(self)@.values);
            assert(self@.ops =~= old(self)@.ops);
            assert(self@.regions =~= old(self)@.regions);
            assert(self@.modules =~= old(self)@.modules);
            assert(self@.dialects =~= old(self)@.dialects);
            assert(old(self)@.blocks =~= self@.blocks.subrange(0, old(self)@.blocks.len() as int));
            lemma_extends_wf(old(self)@, self@);
        }
        h
    }

    /// Appends a region node, with no sibling yet, and returns its handle.
    pub(crate) fn alloc_region(&mut self, first_block: usize) -> (h: usize)
        requires
            old(self)@.wf(),
            first_block == 0 || old(self)@.valid_block(first_block as nat),
        ensures
            final(self)@.wf(),
            store_extends(old(self)@, final(self)@),
            h as nat == final(self)@.regions.len(),
            final(self)@.valid_region(h as nat),
            final(self)@.regions == old(self)@.regions.push(
                RegionModel { first_block: first_block as nat, next: 0 },
            ),
            final(self)@.idents == old(self)@.idents,
            final(self)@.types == old(self)@.types,
            final(self)@.attrs == old(self)@.attrs,
            final(self)@.values == old(self)@.values,
            final(self)@.ops == old(self)@.ops,
            final(self)@.blocks == old(self)@.blocks,
            final(self)@.modules == old(self)@.modules,
            final(self)@.dialects == old(self)@.dialects,
    {
        self.regions.push(RegionNode { first_block, next: 0 });
        let h = self.regions.len();
        proof {
            assert(self@.regions =~= old(self)@.regions.push(
                RegionModel { first_block: first_block as nat, next: 0 },
            ));
            assert(self@.idents =~= old(self)@.idents);
            assert(self@.types =~= old(self)@.types);
            assert(self@.attrs =~= old(self)@.attrs);
            assert(self@.values =~= old(self)@.values);
            assert(self@.ops =~= old(self)@.ops);
            assert(self@.blocks =~= old(self)@.blocks);
            assert(self@.modules =~= old(self)@.modules);
            assert(self@.dialects =~= old(self)@.dialects);
            assert(old(self)@.regions =~= self@.regions.subrange(
                0,
                old(self)@.regions.len() as int,
            ));
            lemma_extends_wf(old(self)@, self@);
        }
        h
    }

    /// Appends an operation node, with no sibling yet, and returns its handle.
    pub(crate) fn alloc_op(
        &mut self,
        name: usize,
        first_region: usize,
        operands: Vec<usize>,
        results: Vec<usize>,
        attrs: Vec<NamedAttrNode>,
    ) -> (h: usize)
        requires
            old(self)@.wf(),
            old(self)@.valid_ident(name as nat),
            first_region == 0 || old(self)@.valid_region(first_region as nat),
            forall|j: int|
                0 <= j < operands@.len() ==> old(self)@.valid_value(
                    (#[trigger] operands@[j]) as nat,
                ),
            forall|j: int|
                0 <= j < results@.len() ==> old(self)@.valid_value((#[trigger] results@[j]) as nat),
            forall|j: int|
                0 <= j < attrs@.len() ==> old(self)@.valid_ident(
                    (#[trigger] attrs@[j]).name as nat,
                ) && old(self)@.valid_attr(attrs@[j].attr as nat),
        ensures
            final(self)@.wf(),
            store_extends(old(self)@, final(self)@),
            h as nat == final(self)@.ops.len(),
            final(self)@.valid_op(h as nat),
            final(self)@.ops == old(self)@.ops.push(
                OpModel {
                    name: name as nat,
                    first_region: first_region as nat,
                    next: 0,
                    operands: nats_of(operands@),
                    results: nats_of(results@),
                    attrs: attr_pairs(attrs@),
                },
            ),
            final(self)@.idents == old(self)@.idents,
            final(self)@.types == old(self)@.types,
            final(self)@.attrs == old(self)@.attrs,
            final(self)@.values == old(self)@.values,
            final(self)@.regions == old(self)@.regions,
            final(self)@.blocks == old(self)@.blocks,
            final(self)@.modules == old(self)@.modules,
            final(self)@.dialects == old(self)@.dialects,
    {
        let ghost m = OpModel {
            name: name as nat,
            first_region: first_region as nat,
            next: 0,
            operands: nats_of(operands@),
            results: nats_of(results@),
            attrs: attr_pairs(attrs@),
        };
        self.ops.push(OpNode { name, first_region, next: 0, operands, results, attrs });
        let h = self.ops.len();
        proof {
            assert(self@.ops =~= old(self)@.ops.push(m));
            assert(self@.idents =~= old(self)@.idents);
            assert(self@.types =~= old(self)@.types);
            assert(self@.attrs =~= old(self)@.attrs);
            assert(self@.values =~= old(self)@.values);
            assert(self@.regions =~= old(self)@.regions);
            assert(self@.blocks =~= old(self)@.blocks);
            assert(self@.modules =~= old(self)@.modules);
            assert(self@.dialects =~= old(self)@.dialects);
            assert(old(self)@.ops =~= self@.ops.subrange(0, old(self)@.ops.len() as int));
            assert forall|j: int| 0 <= j < m.operands.len() implies self@.valid_value(
                #[trigger] m.operands[j],
            ) by {
                assert(m.operands[j] == operands@[j] as nat);
            }
            assert forall|j: int| 0 <= j < m.results.len() implies self@.valid_value(
                #[trigger] m.results[j],
            ) by {
                assert(m.results[j] == results@[j] as nat);
            }
            assert forall|j: int| 0 <= j < m.attrs.len() implies self@.valid_ident(
                (#[trigger] m.attrs[j]).0,
            ) && self@.valid_attr(m.attrs[j].1) by {
                assert(m.attrs[j] == (attrs@[j].name as nat, attrs@[j].attr as nat));
            }
            assert(self@.op_wf_at(h as int - 1));
            lemma_extends_wf(old(self)@, self@);
        }
        h
    }

    /// Appends a module node rooted at an operation that already carries a
    /// region holding a block, and returns the module's handle.
    pub(crate) fn alloc_module(&mut self, op: usize) -> (h: usize)
        requires
            old(self)@.wf(),
            old(self)@.valid_op(op as nat),
            old(self)@.valid_region(old(self)@.ops[op as int - 1].first_region),
            old(self)@.valid_block(
                old(self)@.regions[old(self)@.ops[op as int - 1].first_region - 1].first_block,
            ),
        ensures
            final(self)@.wf(),
            store_extends(old(self)@, final(self)@),
            h as nat == final(self)@.modules.len(),
            final(self)@.valid_module(h as nat),
            final(self)@.modules == old(self)@.modules.push(ModuleModel { op: op as nat }),
            final(self)@.idents == old(self)@.idents,
            final(self)@.types == old(self)@.types,
            final(self)@.attrs == old(self)@.attrs,
            final(self)@.values == old(self)@.values,
            final(self)@.ops == old(self)@.ops,
            final(self)@.regions == old(self)@.regions,
            final(self)@.blocks == old(self)@.blocks,
            final(self)@.dialects == old(self)@.dialects,
    {
        self.modules.push(ModuleNode { op });
        let h = self.modules.len();
        proof {
            assert(self@.modules =~= old(self)@.modules.push(ModuleModel { op: op as nat }));
            assert(self@.idents =~= old(self)@.idents);
            assert(self@.types =~= old(self)@.types);
            assert(self@.attrs =~= old(self)@.attrs);
            assert(self@.values =~= old(self)@.values);
            assert(self@.ops =~= old(self)@.ops);
            assert(self@.regions =~= old(self)@.regions);
            assert(self@.blocks =~= old(self)@.blocks);
            assert(self@.dialects =~= old(self)@.dialects);
            assert(old(self)@.modules =~= self@.modules.subrange(
                0,
                old(self)@.modules.len() as int,
            ));
            assert(self@.module_wf_at(h as int - 1));
            lemma_extends_wf(old(self)@, self@);
        }
        h
    }

    /// Records a loaded dialect.
    pub(crate) fn push_dialect(&mut self, d: usize)
        requires
            old(self)@.wf(),
        ensures
            final(self)@.wf(),
            store_extends(old(self)@, final(self)@),
            final(self)@.dialects == old(self)@.dialects.push(d as nat),
            final(self)@.idents == old(self)@.idents,
            final(self)@.types == old(self)@.types,
            final(self)@.attrs == old(self)@.attrs,
            final(self)@.values == old(self)@.values,
            final(self)@.ops == old(self)@.ops,
            final(self)@.regions == old(self)@.regions,
            final(self)@.blocks == old(self)@.blocks,
            final(self)@.modules == old(self)@.modules,
    {
        self.dialects.push(d);
        proof {
            assert(self@.dialects =~= old(self)@.dialects.push(d as nat));
            assert(self@.idents =~= old(self)@.idents);
            assert(self@.types =~= old(self)@.types);
            assert(self@.attrs =~= old(self)@.attrs);
            assert(self@.values =~= old(self)@.values);
            assert(self@.ops =~= old(self)@.ops);
            assert(self@.regions =~= old(self)@.regions);
            assert(self@.blocks =~= old(self)@.blocks);
            assert(self@.modules =~= old(self)@.modules);
            assert(old(self)@.dialects =~= self@.dialects.subrange(
                0,
                old(self)@.dialects.len() as int,
            ));
            lemma_extends_wf(old(self)@, self@);
        }
    }

    /// Links operation `h`, whose sibling link is still unset, to the later
    /// operation `n`.
    pub(crate) fn patch_op_next(&mut self, h: usize, n: usize)
        requires
            old(self)@.wf(),
            old(self)@.valid_op(h as nat),
            old(self)@.ops[h as int - 1].next == 0,
            old(self)@.valid_op(n as nat),
            n > h,
        ensures
            final(self)@.wf(),
            final(self)@.ops == old(self)@.ops.update(
                h as int - 1,
                OpModel { next: n as nat, ..old(self)@.ops[h as int - 1] },
            ),
            final(self)@.idents == old(self)@.idents,
            final(self)@.types == old(self)@.types,
            final(self)@.attrs == old(self)@.attrs,
            final(self)@.values == old(self)@.values,
            final(self)@.regions == old(self)@.regions,
            final(self)@.blocks == old(self)@.blocks,
            final(self)@.modules == old(self)@.modules,
            final(self)@.dialects == old(self)@.dialects,
    {
        let node = &mut self.ops[h - 1];
        node.next = n;
        proof {
            assert(self@.ops =~= old(self)@.ops.update(
                h as int - 1,
                OpModel { next: n as nat, ..old(self)@.ops[h as int - 1] },
            ));
            assert(self@.idents =~= old(self)@.idents);
            assert(self@.types =~= old(self)@.types);
            assert(self@.attrs =~= old(self)@.attrs);
            assert(self@.values =~= old(self)@.values);
            assert(self@.regions =~= old(self)@.regions);
            assert(self@.blocks =~= old(self)@.blocks);
            assert(self@.modules =~= old(self)@.modules);
            assert(self@.dialects =~= old(self)@.dialects);
            assert forall|i: int| 0 <= i < self@.ops.len() implies self@.op_wf_at(i) by {
                assert(old(self)@.op_wf_at(i));
                if i != h as int - 1 {
                    assert(self@.ops[i] == old(self)@.ops[i]);
                }
            }
            assert forall|i: int| 0 <= i < self@.regions.len() implies self@.region_wf_at(i) by {
                assert(old(self)@.region_wf_at(i));
            }
            assert forall|i: int| 0 <= i < self@.modules.len() implies self@.module_wf_at(i) by {
                assert(old(self)@.module_wf_at(i));
                assert(self@.ops[self@.modules[i].op - 1].first_region == old(
                    self,
                )@.ops[old(self)@.modules[i].op - 1].first_region);
            }
        }
    }

    /// Links region `h`, whose sibling link is still unset, to the later
    /// region `n`.
    pub(crate) fn patch_region_next(&mut self, h: usize, n: usize)
        requires
            old(self)@.wf(),
            old(self)@.valid_region(h as nat),
            old(self)@.regions[h as int - 1].next == 0,
            old(self)@.valid_region(n as nat),
            n > h,
        ensures
            final(self)@.wf(),
            final(self)@.regions == old(self)@.regions.update(
                h as int - 1,
                RegionModel { next: n as nat, ..old(self)@.regions[h as int - 1] },
            ),
            final(self)@.idents == old(self)@.idents,
            final(self)@.types == old(self)@.types,
            final(self)@.attrs == old(self)@.attrs,
            final(self)@.values == old(self)@.values,
            final(self)@.ops == old(self)@.ops,
            final(self)@.blocks == old(self)@.blocks,
            final(self)@.modules == old(self)@.modules,
            final(self)@.dialects == old(self)@.dialects,
    {
        let node = &mut self.regions[h - 1];
        node.next = n;
        proof {
            assert(self@.regions =~= old(self)@.regions.update(
                h as int - 1,
                RegionModel { next: n as nat, ..old(self)@.regions[h as int - 1] },
            ));
            assert(self@.idents =~= old(self)@.idents);
            assert(self@.types =~= old(self)@.types);
            assert(self@.attrs =~= old(self)@.attrs);
            assert(self@.values =~= old(self)@.values);
            assert(self@.ops =~= old(self)@.ops);
            assert(self@.blocks =~= old(self)@.blocks);
            assert(self@.modules =~= old(self)@.modules);
            assert(self@.dialects =~= old(self)@.dialects);
            assert forall|i: int| 0 <= i < self@.regions.len() implies self@.region_wf_at(i) by {
                assert(old(self)@.region_wf_at(i));
                if i != h as int - 1 {
                    assert(self@.regions[i] == old(self)@.regions[i]);
                }
            }
            assert forall|i: int| 0 <= i < self@.ops.len() implies self@.op_wf_at(i) by {
                assert(old(self)@.op_wf_at(i));
            }
            assert forall|i: int| 0 <= i < self@.modules.len() implies self@.module_wf_at(i) by {
                assert(old(self)@.module_wf_at(i));
                assert(self@.regions[self@.ops[self@.modules[i].op - 1].first_region
                    - 1].first_block == old(self)@.regions[old(self)@.ops[old(
                    self,
                )@.modules[i].op - 1].first_region - 1].first_block);
            }
        }
    }
}

} // verus!
