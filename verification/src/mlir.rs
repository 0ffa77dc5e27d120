//! Entity wrappers and traversal over the IR graph.
//!
//! Every wrapper here is a checked view of one raw handle. Traversal and
//! query methods take the [`Context`] that owns the storage, test the
//! handle, and surface absence as `None` — never a dangling entity.

use std::io::Write;
use vstd::prelude::*;

use crate::store::store_extends;
use crate::store::Store;
use crate::store::StoreModel;
use crate::BindingType;
use crate::IntoOwned;
use crate::Owned;
use crate::Wrapper;
use vstd::string::StringSliceAdditionalSpecFns;

verus! {

broadcast use vstd::slice::group_slice_axioms;

/// Raw handle to a context; `ptr == 0` denotes absence.
#[derive(Clone, Copy)]
pub struct RawContext {
    pub ptr: usize,
}

impl BindingType for RawContext {
    open spec fn spec_is_null(&self) -> bool {
        self.ptr == 0
    }

    fn is_null(&self) -> (r: bool)
        ensures
            r == self.spec_is_null(),
    {
        self.ptr == 0
    }
}

/// Raw handle to a module; `ptr == 0` denotes absence.
#[derive(Clone, Copy)]
pub struct RawModule {
    pub ptr: usize,
}

impl BindingType for RawModule {
    open spec fn spec_is_null(&self) -> bool {
        self.ptr == 0
    }

    fn is_null(&self) -> (r: bool)
        ensures
            r == self.spec_is_null(),
    {
        self.ptr == 0
    }
}

/// Raw handle to a dialect descriptor; `ptr == 0` denotes absence.
#[derive(Clone, Copy)]
pub struct RawDialectHandle {
    pub ptr: usize,
}

impl BindingType for RawDialectHandle {
    open spec fn spec_is_null(&self) -> bool {
        self.ptr == 0
    }

    fn is_null(&self) -> (r: bool)
        ensures
            r == self.spec_is_null(),
    {
        self.ptr == 0
    }
}

/// Raw handle to an operation node; `ptr == 0` denotes absence.
#[derive(Clone, Copy)]
pub struct RawOperation {
    pub ptr: usize,
}

impl BindingType for RawOperation {
    open spec fn spec_is_null(&self) -> bool {
        self.ptr == 0
    }

    fn is_null(&self) -> (r: bool)
        ensures
            r == self.spec_is_null(),
    {
        self.ptr == 0
    }
}

/// Raw handle to a region node; `ptr == 0` denotes absence.
#[derive(Clone, Copy)]
pub struct RawRegion {
    pub ptr: usize,
}

impl BindingType for RawRegion {
    open spec fn spec_is_null(&self) -> bool {
        self.ptr == 0
    }

    fn is_null(&self) -> (r: bool)
        ensures
            r == self.spec_is_null(),
    {
        self.ptr == 0
    }
}

/// Raw handle to a block node; `ptr == 0` denotes absence.
#[derive(Clone, Copy)]
pub struct RawBlock {
    pub ptr: usize,
}

impl BindingType for RawBlock {
    open spec fn spec_is_null(&self) -> bool {
        self.ptr == 0
    }

    fn is_null(&self) -> (r: bool)
        ensures
            r == self.spec_is_null(),
    {
        self.ptr == 0
    }
}

/// Raw handle to a value node; `ptr == 0` denotes absence.
#[derive(Clone, Copy)]
pub struct RawValue {
    pub ptr: usize,
}

impl BindingType for RawValue {
    open spec fn spec_is_null(&self) -> bool {
        self.ptr == 0
    }

    fn is_null(&self) -> (r: bool)
        ensures
            r == self.spec_is_null(),
    {
        self.ptr == 0
    }
}

/// Raw handle to a type descriptor; `ptr == 0` denotes absence.
#[derive(Clone, Copy)]
pub struct RawType {
    pub ptr: usize,
}

impl BindingType for RawType {
    open spec fn spec_is_null(&self) -> bool {
        self.ptr == 0
    }

    fn is_null(&self) -> (r: bool)
        ensures
            r == self.spec_is_null(),
    {
        self.ptr == 0
    }
}

/// Raw handle to an attribute descriptor; `ptr == 0` denotes absence.
#[derive(Clone, Copy)]
pub struct RawAttribute {
    pub ptr: usize,
}

impl BindingType for RawAttribute {
    open spec fn spec_is_null(&self) -> bool {
        self.ptr == 0
    }

    fn is_null(&self) -> (r: bool)
        ensures
            r == self.spec_is_null(),
    {
        self.ptr == 0
    }
}

/// Raw handle to an interned identifier; `ptr == 0` denotes absence.
#[derive(Clone, Copy)]
pub struct RawIdentifier {
    pub ptr: usize,
}

impl BindingType for RawIdentifier {
    open spec fn spec_is_null(&self) -> bool {
        self.ptr == 0
    }

    fn is_null(&self) -> (r: bool)
        ensures
            r == self.spec_is_null(),
    {
        self.ptr == 0
    }
}

/// A checked view of a parsed top-level IR unit.
pub struct Module {
    raw: RawModule,
}

impl Wrapper for Module {
    type Inner = RawModule;

    closed spec fn spec_raw(&self) -> RawModule {
        self.raw
    }

    fn raw(&self) -> (r: RawModule)
        ensures
            r == self.spec_raw(),
    {
        self.raw
    }

    fn raw_ref(&self) -> (r: &RawModule)
        ensures
            *r == self.spec_raw(),
    {
        &self.raw
    }

    fn try_from_raw(raw: RawModule) -> (r: Option<Module>)
        ensures
            r is Some <==> !raw.spec_is_null(),
            r is Some ==> r->0.spec_raw() == raw,
    {
        if raw.is_null() {
            None
        } else {
            Some(Module { raw })
        }
    }
}

/// A process-wide descriptor of a dialect; never released by the caller.
pub struct DialectHandle {
    raw: RawDialectHandle,
}

impl Wrapper for DialectHandle {
    type Inner = RawDialectHandle;

    closed spec fn spec_raw(&self) -> RawDialectHandle {
        self.raw
    }

    fn raw(&self) -> (r: RawDialectHandle)
        ensures
            r == self.spec_raw(),
    {
        self.raw
    }

    fn raw_ref(&self) -> (r: &RawDialectHandle)
        ensures
            *r == self.spec_raw(),
    {
        &self.raw
    }

    fn try_from_raw(raw: RawDialectHandle) -> (r: Option<DialectHandle>)
        ensures
            r is Some <==> !raw.spec_is_null(),
            r is Some ==> r->0.spec_raw() == raw,
    {
        if raw.is_null() {
            None
        } else {
            Some(DialectHandle { raw })
        }
    }
}

/// A checked view of an operation: a node of the IR graph.
pub struct Operation {
    raw: RawOperation,
}

impl Wrapper for Operation {
    type Inner = RawOperation;

    closed spec fn spec_raw(&self) -> RawOperation {
        self.raw
    }

    fn raw(&self) -> (r: RawOperation)
        ensures
            r == self.spec_raw(),
    {
        self.raw
    }

    fn raw_ref(&self) -> (r: &RawOperation)
        ensures
            *r == self.spec_raw(),
    {
        &self.raw
    }

    fn try_from_raw(raw: RawOperation) -> (r: Option<Operation>)
        ensures
            r is Some <==> !raw.spec_is_null(),
            r is Some ==> r->0.spec_raw() == raw,
    {
        if raw.is_null() {
            None
        } else {
            Some(Operation { raw })
        }
    }
}

/// A checked view of a region: an ordered list of blocks inside an operation.
pub struct Region {
    raw: RawRegion,
}

impl Wrapper for Region {
    type Inner = RawRegion;

    closed spec fn spec_raw(&self) -> RawRegion {
        self.raw
    }

    fn raw(&self) -> (r: RawRegion)
        ensures
            r == self.spec_raw(),
    {
        self.raw
    }

    fn raw_ref(&self) -> (r: &RawRegion)
        ensures
            *r == self.spec_raw(),
    {
        &self.raw
    }

    fn try_from_raw(raw: RawRegion) -> (r: Option<Region>)
        ensures
            r is Some <==> !raw.spec_is_null(),
            r is Some ==> r->0.spec_raw() == raw,
    {
        if raw.is_null() {
            None
        } else {
            Some(Region { raw })
        }
    }
}

/// A checked view of a block: an ordered list of operations inside a region.
pub struct Block {
    raw: RawBlock,
}

impl Wrapper for Block {
    type Inner = RawBlock;

    closed spec fn spec_raw(&self) -> RawBlock {
        self.raw
    }

    fn raw(&self) -> (r: RawBlock)
        ensures
            r == self.spec_raw(),
    {
        self.raw
    }

    fn raw_ref(&self) -> (r: &RawBlock)
        ensures
            *r == self.spec_raw(),
    {
        &self.raw
    }

    fn try_from_raw(raw: RawBlock) -> (r: Option<Block>)
        ensures
            r is Some <==> !raw.spec_is_null(),
            r is Some ==> r->0.spec_raw() == raw,
    {
        if raw.is_null() {
            None
        } else {
            Some(Block { raw })
        }
    }
}

/// A checked view of a value: an operation result or block argument.
pub struct Value {
    raw: RawValue,
}

impl Wrapper for Value {
    type Inner = RawValue;

    closed spec fn spec_raw(&self) -> RawValue {
        self.raw
    }

    fn raw(&self) -> (r: RawValue)
        ensures
            r == self.spec_raw(),
    {
        self.raw
    }

    fn raw_ref(&self) -> (r: &RawValue)
        ensures
            *r == self.spec_raw(),
    {
        &self.raw
    }

    fn try_from_raw(raw: RawValue) -> (r: Option<Value>)
        ensures
            r is Some <==> !raw.spec_is_null(),
            r is Some ==> r->0.spec_raw() == raw,
    {
        if raw.is_null() {
            None
        } else {
            Some(Value { raw })
        }
    }
}

/// A checked view of a type descriptor interned by a context.
pub struct Type {
    raw: RawType,
}

impl Wrapper for Type {
    type Inner = RawType;

    closed spec fn spec_raw(&self) -> RawType {
        self.raw
    }

    fn raw(&self) -> (r: RawType)
        ensures
            r == self.spec_raw(),
    {
        self.raw
    }

    fn raw_ref(&self) -> (r: &RawType)
        ensures
            *r == self.spec_raw(),
    {
        &self.raw
    }

    fn try_from_raw(raw: RawType) -> (r: Option<Type>)
        ensures
            r is Some <==> !raw.spec_is_null(),
            r is Some ==> r->0.spec_raw() == raw,
    {
        if raw.is_null() {
            None
        } else {
            Some(Type { raw })
        }
    }
}

/// A checked view of an attribute descriptor.
pub struct Attribute {
    raw: RawAttribute,
}

impl Wrapper for Attribute {
    type Inner = RawAttribute;

    closed spec fn spec_raw(&self) -> RawAttribute {
        self.raw
    }

    fn raw(&self) -> (r: RawAttribute)
        ensures
            r == self.spec_raw(),
    {
        self.raw
    }

    fn raw_ref(&self) -> (r: &RawAttribute)
        ensures
            *r == self.spec_raw(),
    {
        &self.raw
    }

    fn try_from_raw(raw: RawAttribute) -> (r: Option<Attribute>)
        ensures
            r is Some <==> !raw.spec_is_null(),
            r is Some ==> r->0.spec_raw() == raw,
    {
        if raw.is_null() {
            None
        } else {
            Some(Attribute { raw })
        }
    }
}

/// A checked view of an identifier interned by a context.
pub struct Identifier {
    raw: RawIdentifier,
}

impl Wrapper for Identifier {
    type Inner = RawIdentifier;

    closed spec fn spec_raw(&self) -> RawIdentifier {
        self.raw
    }

    fn raw(&self) -> (r: RawIdentifier)
        ensures
            r == self.spec_raw(),
    {
        self.raw
    }

    fn raw_ref(&self) -> (r: &RawIdentifier)
        ensures
            *r == self.spec_raw(),
    {
        &self.raw
    }

    fn try_from_raw(raw: RawIdentifier) -> (r: Option<Identifier>)
        ensures
            r is Some <==> !raw.spec_is_null(),
            r is Some ==> r->0.spec_raw() == raw,
    {
        if raw.is_null() {
            None
        } else {
            Some(Identifier { raw })
        }
    }
}


/// Identifier of the hardware dialect in the process-wide catalog.
pub const FIRRTL_DIALECT_ID: usize = 1;

/// The root of one IR session: the entity that owns the storage every other
/// entity points into. Releasing it invalidates everything derived from it,
/// which is why traversal borrows the context for as long as any view of it
/// is alive.
pub struct Context {
    raw: RawContext,
    store: Store,
}

impl View for Context {
    type V = StoreModel;

    closed spec fn view(&self) -> StoreModel {
        self.store@
    }
}

impl Wrapper for Context {
    type Inner = RawContext;

    closed spec fn spec_raw(&self) -> RawContext {
        self.raw
    }

    fn raw(&self) -> (r: RawContext)
        ensures
            r == self.spec_raw(),
    {
        self.raw
    }

    fn raw_ref(&self) -> (r: &RawContext)
        ensures
            *r == self.spec_raw(),
    {
        &self.raw
    }

    /// A context admitted from a bare handle starts a fresh session: it
    /// holds no entities of its own.
    fn try_from_raw(raw: RawContext) -> (r: Option<Context>)
        ensures
            r is Some ==> r->0@.wf() && r->0@.idents.len() == 0 && r->0@.types.len() == 0
                && r->0@.attrs.len() == 0 && r->0@.values.len() == 0 && r->0@.ops.len() == 0
                && r->0@.regions.len() == 0 && r->0@.blocks.len() == 0 && r->0@.modules.len() == 0
                && r->0@.dialects.len() == 0,
    {
        if raw.is_null() {
            None
        } else {
            Some(Context { raw, store: Store::empty() })
        }
    }
}

impl IntoOwned for Context {
    /// Releases every entity of the session and nulls the handle. Every
    /// table is left empty, so nothing derived from the released session —
    /// not even interned text — can still be read through it: every lookup
    /// afterwards is absence.
    fn destroy(&mut self)
        ensures
            final(self)@.wf(),
            final(self)@.idents.len() == 0,
            final(self)@.types.len() == 0,
            final(self)@.attrs.len() == 0,
            final(self)@.values.len() == 0,
            final(self)@.ops.len() == 0,
            final(self)@.regions.len() == 0,
            final(self)@.blocks.len() == 0,
            final(self)@.modules.len() == 0,
            final(self)@.dialects.len() == 0,
    {
        self.raw = RawContext { ptr: 0 };
        self.store.clear();
    }
}

impl Context {
    /// Creates a fresh, empty session. The caller owns it and must release
    /// it exactly once, through the returned container.
    pub fn new() -> (r: Owned<Context>)
        ensures
            !r.inner().spec_raw().spec_is_null(),
            r.inner()@.wf(),
            r.inner()@.idents.len() == 0,
            r.inner()@.types.len() == 0,
            r.inner()@.attrs.len() == 0,
            r.inner()@.values.len() == 0,
            r.inner()@.ops.len() == 0,
            r.inner()@.regions.len() == 0,
            r.inner()@.blocks.len() == 0,
            r.inner()@.modules.len() == 0,
            r.inner()@.dialects.len() == 0,
    {
        let c = Context { raw: RawContext { ptr: 1 }, store: Store::empty() };
        c.into_owned()
    }

    /// Loads a dialect into this session, recording the registration. The
    /// rest of the session is untouched.
    pub fn load_dialect(&mut self, handle: &DialectHandle)
        requires
            old(self)@.wf(),
        ensures
            final(self)@.wf(),
            store_extends(old(self)@, final(self)@),
            final(self).spec_raw() == old(self).spec_raw(),
            final(self)@.dialects == old(self)@.dialects.push(handle.spec_raw().ptr as nat),
            final(self)@.idents == old(self)@.idents,
            final(self)@.types == old(self)@.types,
            final(self)@.attrs == old(self)@.attrs,
            final(self)@.values == old(self)@.values,
            final(self)@.ops == old(self)@.ops,
            final(self)@.regions == old(self)@.regions,
            final(self)@.blocks == old(self)@.blocks,
            final(self)@.modules == old(self)@.modules,
    {
        let d = handle.raw().ptr;
        self.store.push_dialect(d);
    }
}

impl DialectHandle {
    /// The process-wide descriptor of the hardware dialect. Obtaining it
    /// costs nothing and never fails; it is loaded into a context by
    /// [`Context::load_dialect`].
    pub fn firrtl() -> (r: DialectHandle)
        ensures
            r.spec_raw().ptr == FIRRTL_DIALECT_ID,
            !r.spec_raw().spec_is_null(),
    {
        DialectHandle { raw: RawDialectHandle { ptr: FIRRTL_DIALECT_ID } }
    }
}

impl IntoOwned for Module {
    /// Releases the module's own handle. Its nodes belong to the context's
    /// arena and are released with the context.
    fn destroy(&mut self) {
        self.raw = RawModule { ptr: 0 };
    }
}

impl Module {
    /// Parses textual IR against the context, allocating the module's graph
    /// in the context's storage. Parsing succeeds exactly when the text is
    /// a well-formed module body ([`crate::text::sp_module_ok`]); the body
    /// block of the new module then holds, in sibling order, exactly the
    /// operations the text declares, under their declared names
    /// ([`crate::text::rep_names`]). A failed parse is absence, never a
    /// crash, and leaves the module table untouched, while a successful
    /// parse yields the context's newest module, owned by the caller.
    /// Entities obtained before the call are unaffected either way.
    pub fn parse(ctx: &mut Context, s: &str) -> (r: Option<Owned<Module>>)
        requires
            old(ctx)@.wf(),
        ensures
            final(ctx)@.wf(),
            store_extends(old(ctx)@, final(ctx)@),
            final(ctx).spec_raw() == old(ctx).spec_raw(),
            final(ctx)@.dialects == old(ctx)@.dialects,
            r is Some <==> crate::text::sp_module_ok(s.spec_bytes()),
            r matches Some(m) ==> crate::text::rep_names(
                final(ctx)@,
                final(ctx)@.block_first_op(
                    final(ctx)@.module_body(m.inner().spec_raw().ptr as nat),
                ),
                crate::text::sp_module_names(s.spec_bytes()),
            ),
            match r {
                Some(m) => !m.inner().spec_raw().spec_is_null() && m.inner().spec_raw().ptr
                    as nat == final(ctx)@.modules.len() && final(ctx)@.modules.len() == old(
                    ctx,
                )@.modules.len() + 1,
                None => final(ctx)@.modules == old(ctx)@.modules,
            },
    {
        let bytes = s.as_bytes();
        match crate::text::parse_module(&mut ctx.store, bytes) {
            Some(m) => {
                let module = Module { raw: RawModule { ptr: m } };
                Some(module.into_owned())
            },
            None => None,
        }
    }

    /// The module's body block: the first block of the first region of its
    /// root operation. Absent exactly when the module handle does not name a
    /// module of this context.
    pub fn body(&self, ctx: &Context) -> (r: Option<Block>)
        requires
            ctx@.wf(),
        ensures
            match r {
                Some(b) => ctx@.valid_module(self.spec_raw().ptr as nat) && b.spec_raw().ptr
                    as nat == ctx@.module_body(self.spec_raw().ptr as nat),
                None => !ctx@.valid_module(self.spec_raw().ptr as nat),
            },
    {
        let h = self.raw.ptr;
        if 1 <= h && h <= ctx.store.num_modules() {
            proof {
                assert(ctx@.module_wf_at(h as int - 1));
            }
            let op = ctx.store.module_op_at(h);
            let fr = ctx.store.op_first_region_at(op);
            let fb = ctx.store.region_first_block_at(fr);
            Block::try_from_raw(RawBlock { ptr: fb })
        } else {
            None
        }
    }

    /// The module's root operation. Absent exactly when the module handle
    /// does not name a module of this context.
    pub fn op(&self, ctx: &Context) -> (r: Option<Operation>)
        requires
            ctx@.wf(),
        ensures
            match r {
                Some(o) => ctx@.valid_module(self.spec_raw().ptr as nat) && o.spec_raw().ptr
                    as nat == ctx@.module_op(self.spec_raw().ptr as nat),
                None => !ctx@.valid_module(self.spec_raw().ptr as nat),
            },
    {
        let h = self.raw.ptr;
        if 1 <= h && h <= ctx.store.num_modules() {
            proof {
                assert(ctx@.module_wf_at(h as int - 1));
            }
            let op = ctx.store.module_op_at(h);
            Operation::try_from_raw(RawOperation { ptr: op })
        } else {
            None
        }
    }
}

impl Operation {
    /// The next sibling operation in the enclosing block; absent at the end
    /// of the list, and for a handle that names no operation here.
    pub fn next(&self, ctx: &Context) -> (r: Option<Operation>)
        requires
            ctx@.wf(),
        ensures
            match r {
                Some(o) => o.spec_raw().ptr as nat == ctx@.op_next(self.spec_raw().ptr as nat)
                    && o.spec_raw().ptr != 0,
                None => ctx@.op_next(self.spec_raw().ptr as nat) == 0,
            },
    {
        let h = self.raw.ptr;
        if 1 <= h && h <= ctx.store.num_ops() {
            let n = ctx.store.op_next_at(h);
            Operation::try_from_raw(RawOperation { ptr: n })
        } else {
            None
        }
    }

    /// The operation's first child region; absent when it has none.
    pub fn first_region(&self, ctx: &Context) -> (r: Option<Region>)
        requires
            ctx@.wf(),
        ensures
            match r {
                Some(rg) => rg.spec_raw().ptr as nat == ctx@.op_first_region(
                    self.spec_raw().ptr as nat,
                ) && rg.spec_raw().ptr != 0,
                None => ctx@.op_first_region(self.spec_raw().ptr as nat) == 0,
            },
    {
        let h = self.raw.ptr;
        if 1 <= h && h <= ctx.store.num_ops() {
            let n = ctx.store.op_first_region_at(h);
            Region::try_from_raw(RawRegion { ptr: n })
        } else {
            None
        }
    }

    /// The operation's name; absent exactly when the handle names no
    /// operation of this context.
    pub fn name(&self, ctx: &Context) -> (r: Option<Identifier>)
        requires
            ctx@.wf(),
        ensures
            match r {
                Some(id) => ctx@.valid_op(self.spec_raw().ptr as nat) && id.spec_raw().ptr
                    as nat == ctx@.op_name(self.spec_raw().ptr as nat),
                None => !ctx@.valid_op(self.spec_raw().ptr as nat),
            },
    {
        let h = self.raw.ptr;
        if 1 <= h && h <= ctx.store.num_ops() {
            proof {
                assert(ctx@.op_wf_at(h as int - 1));
            }
            let n = ctx.store.op_name_at(h);
            Identifier::try_from_raw(RawIdentifier { ptr: n })
        } else {
            None
        }
    }

    /// How many operands the operation has right now; zero for a handle
    /// that names no operation here.
    pub fn num_operands(&self, ctx: &Context) -> (r: usize)
        requires
            ctx@.wf(),
        ensures
            r as nat == ctx@.op_num_operands(self.spec_raw().ptr as nat),
    {
        let h = self.raw.ptr;
        if 1 <= h && h <= ctx.store.num_ops() {
            ctx.store.op_num_operands_at(h)
        } else {
            0
        }
    }

    /// The operand at index `n`: present exactly for `n` below the operand
    /// count freshly queried from the same operation.
    pub fn operand_at(&self, ctx: &Context, n: usize) -> (r: Option<Value>)
        requires
            ctx@.wf(),
        ensures
            r is Some <==> (n as nat) < ctx@.op_num_operands(self.spec_raw().ptr as nat),
            r matches Some(v) ==> v.spec_raw().ptr as nat == ctx@.op_operand(
                self.spec_raw().ptr as nat,
                n as int,
            ),
    {
        let h = self.raw.ptr;
        if 1 <= h && h <= ctx.store.num_ops() {
            let cnt = ctx.store.op_num_operands_at(h);
            if n < cnt {
                proof {
                    assert(ctx@.op_wf_at(h as int - 1));
                    assert(ctx@.valid_value(ctx@.ops[h as int - 1].operands[n as int]));
                }
                let v = ctx.store.op_operand_at(h, n);
                Value::try_from_raw(RawValue { ptr: v })
            } else {
                None
            }
        } else {
            None
        }
    }

    /// How many results the operation has right now; zero for a handle that
    /// names no operation here.
    pub fn num_results(&self, ctx: &Context) -> (r: usize)
        requires
            ctx@.wf(),
        ensures
            r as nat == ctx@.op_num_results(self.spec_raw().ptr as nat),
    {
        let h = self.raw.ptr;
        if 1 <= h && h <= ctx.store.num_ops() {
            ctx.store.op_num_results_at(h)
        } else {
            0
        }
    }

    /// The result at index `n`: present exactly for `n` below the result
    /// count freshly queried from the same operation.
    pub fn result_at(&self, ctx: &Context, n: usize) -> (r: Option<Value>)
        requires
            ctx@.wf(),
        ensures
            r is Some <==> (n as nat) < ctx@.op_num_results(self.spec_raw().ptr as nat),
            r matches Some(v) ==> v.spec_raw().ptr as nat == ctx@.op_result(
                self.spec_raw().ptr as nat,
                n as int,
            ),
    {
        let h = self.raw.ptr;
        if 1 <= h && h <= ctx.store.num_ops() {
            let cnt = ctx.store.op_num_results_at(h);
            if n < cnt {
                proof {
                    assert(ctx@.op_wf_at(h as int - 1));
                    assert(ctx@.valid_value(ctx@.ops[h as int - 1].results[n as int]));
                }
                let v = ctx.store.op_result_at(h, n);
                Value::try_from_raw(RawValue { ptr: v })
            } else {
                None
            }
        } else {
            None
        }
    }

    /// All results of the operation, in index order; absent when it has
    /// none.
    pub fn results(&self, ctx: &Context) -> (r: Option<Vec<Value>>)
        requires
            ctx@.wf(),
        ensures
            match r {
                None => ctx@.op_num_results(self.spec_raw().ptr as nat) == 0,
                Some(v) => ctx@.op_num_results(self.spec_raw().ptr as nat) > 0 && v@.len()
                    == ctx@.op_num_results(self.spec_raw().ptr as nat) && (forall|j: int|
                    0 <= j < v@.len() ==> (#[trigger] v@[j]).spec_raw().ptr as nat
                        == ctx@.op_result(self.spec_raw().ptr as nat, j)),
            },
    {
        let num_results = self.num_results(ctx);
        if num_results == 0 {
            None
        } else {
            let mut res: Vec<Value> = Vec::new();
            let mut idx: usize = 0;
            while idx < num_results
                invariant
                    ctx@.wf(),
                    num_results as nat == ctx@.op_num_results(self.spec_raw().ptr as nat),
                    idx <= num_results,
                    res@.len() == idx,
                    forall|j: int|
                        0 <= j < idx ==> (#[trigger] res@[j]).spec_raw().ptr as nat
                            == ctx@.op_result(self.spec_raw().ptr as nat, j),
                decreases num_results - idx,
            {
                match self.result_at(ctx, idx) {
                    Some(v) => res.push(v),
                    None => {
                        proof {
                            assert(false);
                        }
                    },
                }
                idx = idx + 1;
            }
            Some(res)
        }
    }

    /// All operands of the operation, in index order; absent when it has
    /// none.
    pub fn operands(&self, ctx: &Context) -> (r: Option<Vec<Value>>)
        requires
            ctx@.wf(),
        ensures
            match r {
                None => ctx@.op_num_operands(self.spec_raw().ptr as nat) == 0,
                Some(v) => ctx@.op_num_operands(self.spec_raw().ptr as nat) > 0 && v@.len()
                    == ctx@.op_num_operands(self.spec_raw().ptr as nat) && (forall|j: int|
                    0 <= j < v@.len() ==> (#[trigger] v@[j]).spec_raw().ptr as nat
                        == ctx@.op_operand(self.spec_raw().ptr as nat, j)),
            },
    {
        let num_operands = self.num_operands(ctx);
        if num_operands == 0 {
            None
        } else {
            let mut res: Vec<Value> = Vec::new();
            let mut idx: usize = 0;
            while idx < num_operands
                invariant
                    ctx@.wf(),
                    num_operands as nat == ctx@.op_num_operands(self.spec_raw().ptr as nat),
                    idx <= num_operands,
                    res@.len() == idx,
                    forall|j: int|
                        0 <= j < idx ==> (#[trigger] res@[j]).spec_raw().ptr as nat
                            == ctx@.op_operand(self.spec_raw().ptr as nat, j),
                decreases num_operands - idx,
            {
                match self.operand_at(ctx, idx) {
                    Some(v) => res.push(v),
                    None => {
                        proof {
                            assert(false);
                        }
                    },
                }
                idx = idx + 1;
            }
            Some(res)
        }
    }

    /// How many named attributes the operation carries right now; zero for
    /// a handle that names no operation here.
    pub fn num_attributes(&self, ctx: &Context) -> (r: usize)
        requires
            ctx@.wf(),
        ensures
            r as nat == ctx@.op_num_attrs(self.spec_raw().ptr as nat),
    {
        let h = self.raw.ptr;
        if 1 <= h && h <= ctx.store.num_ops() {
            ctx.store.op_num_attrs_at(h)
        } else {
            0
        }
    }

    /// The named attribute at index `n`: present exactly for `n` below the
    /// attribute count freshly queried from the same operation.
    pub fn attribute_at(&self, ctx: &Context, n: usize) -> (r: Option<NamedAttribute>)
        requires
            ctx@.wf(),
        ensures
            r is Some <==> (n as nat) < ctx@.op_num_attrs(self.spec_raw().ptr as nat),
            r matches Some(na) ==> na.spec_name().spec_raw().ptr as nat == ctx@.op_attr(
                self.spec_raw().ptr as nat,
                n as int,
            ).0 && na.spec_attribute().spec_raw().ptr as nat == ctx@.op_attr(
                self.spec_raw().ptr as nat,
                n as int,
            ).1,
    {
        let h = self.raw.ptr;
        if 1 <= h && h <= ctx.store.num_ops() {
            let cnt = ctx.store.op_num_attrs_at(h);
            if n < cnt {
                proof {
                    assert(ctx@.op_wf_at(h as int - 1));
                    assert(ctx@.valid_ident(ctx@.ops[h as int - 1].attrs[n as int].0));
                    assert(ctx@.valid_attr(ctx@.ops[h as int - 1].attrs[n as int].1));
                }
                let pair = ctx.store.op_attr_at(h, n);
                NamedAttribute::try_from_raw(
                    RawNamedAttribute {
                        name: RawIdentifier { ptr: pair.0 },
                        attribute: RawAttribute { ptr: pair.1 },
                    },
                )
            } else {
                None
            }
        } else {
            None
        }
    }

    /// Looks up an attribute by name: the first named attribute whose
    /// identifier text equals the given name, or absence when none matches.
    pub fn attribute(&self, ctx: &Context, name: &str) -> (r: Option<Attribute>)
        requires
            ctx@.wf(),
        ensures
            match r {
                Some(a) => exists|j: int|
                    0 <= j < ctx@.op_num_attrs(self.spec_raw().ptr as nat) && ctx@.ident_text(
                        (#[trigger] ctx@.op_attr(self.spec_raw().ptr as nat, j)).0,
                    ) == name.spec_bytes() && a.spec_raw().ptr as nat == ctx@.op_attr(
                        self.spec_raw().ptr as nat,
                        j,
                    ).1 && (forall|k: int|
                        0 <= k < j ==> ctx@.ident_text(
                            (#[trigger] ctx@.op_attr(self.spec_raw().ptr as nat, k)).0,
                        ) != name.spec_bytes()),
                None => forall|j: int|
                    0 <= j < ctx@.op_num_attrs(self.spec_raw().ptr as nat) ==> ctx@.ident_text(
                        (#[trigger] ctx@.op_attr(self.spec_raw().ptr as nat, j)).0,
                    ) != name.spec_bytes(),
            },
    {
        let h = self.raw.ptr;
        if 1 <= h && h <= ctx.store.num_ops() {
            let cnt = ctx.store.op_num_attrs_at(h);
            let key = name.as_bytes();
            let mut i: usize = 0;
            while i < cnt
                invariant
                    ctx@.wf(),
                    1 <= h,
                    h as nat <= ctx@.ops.len(),
                    h == self.spec_raw().ptr,
                    cnt as nat == ctx@.op_num_attrs(h as nat),
                    i <= cnt,
                    key@ == name.spec_bytes(),
                    forall|k: int|
                        0 <= k < i ==> ctx@.ident_text(
                            (#[trigger] ctx@.op_attr(h as nat, k)).0,
                        ) != name.spec_bytes(),
                decreases cnt - i,
            {
                proof {
                    assert(ctx@.op_wf_at(h as int - 1));
                    assert(ctx@.valid_ident(ctx@.ops[h as int - 1].attrs[i as int].0));
                }
                let pair = ctx.store.op_attr_at(h, i);
                let id_bytes = ctx.store.ident_at(pair.0);
                if crate::store::bytes_eq(id_bytes.as_slice(), key) {
                    proof {
                        assert(ctx@.valid_attr(ctx@.ops[h as int - 1].attrs[i as int].1));
                        assert(ctx@.ident_text((ctx@.op_attr(h as nat, i as int)).0)
                            == name.spec_bytes());
                    }
                    return Attribute::try_from_raw(RawAttribute { ptr: pair.1 });
                }
                i = i + 1;
            }
            None
        } else {
            None
        }
    }
}

/// Raw handle to a named attribute: an identifier paired with an attribute.
/// It denotes absence when either part is null.
#[derive(Clone, Copy)]
pub struct RawNamedAttribute {
    pub name: RawIdentifier,
    pub attribute: RawAttribute,
}

impl BindingType for RawNamedAttribute {
    open spec fn spec_is_null(&self) -> bool {
        self.name.spec_is_null() || self.attribute.spec_is_null()
    }

    fn is_null(&self) -> (r: bool)
        ensures
            r == self.spec_is_null(),
    {
        self.name.is_null() || self.attribute.is_null()
    }
}

/// A checked view of a named attribute: its identifier and its attribute,
/// both already admitted through the null check.
pub struct NamedAttribute {
    _raw: RawNamedAttribute,
    pub name: Identifier,
    pub attribute: Attribute,
}

impl Wrapper for NamedAttribute {
    type Inner = RawNamedAttribute;

    closed spec fn spec_raw(&self) -> RawNamedAttribute {
        self._raw
    }

    fn raw(&self) -> (r: RawNamedAttribute)
        ensures
            r == self.spec_raw(),
    {
        self._raw
    }

    fn raw_ref(&self) -> (r: &RawNamedAttribute)
        ensures
            *r == self.spec_raw(),
    {
        &self._raw
    }

    fn try_from_raw(raw: RawNamedAttribute) -> (r: Option<NamedAttribute>)
        ensures
            r is Some ==> r->0.spec_name().spec_raw() == raw.name
                && r->0.spec_attribute().spec_raw() == raw.attribute,
    {
        let name = Identifier::try_from_raw(raw.name);
        let attribute = Attribute::try_from_raw(raw.attribute);
        if name.is_none() || attribute.is_none() {
            return None;
        }
        Some(NamedAttribute { _raw: raw, name: name.unwrap(), attribute: attribute.unwrap() })
    }
}

impl NamedAttribute {
    /// The identifier part, as admitted through the null check.
    pub closed spec fn spec_name(&self) -> Identifier {
        self.name
    }

    /// The attribute part, as admitted through the null check.
    pub closed spec fn spec_attribute(&self) -> Attribute {
        self.attribute
    }
}

impl Region {
    /// The region's first block; absent when the region is empty.
    pub fn first_block(&self, ctx: &Context) -> (r: Option<Block>)
        requires
            ctx@.wf(),
        ensures
            match r {
                Some(b) => b.spec_raw().ptr as nat == ctx@.region_first_block(
                    self.spec_raw().ptr as nat,
                ) && b.spec_raw().ptr != 0,
                None => ctx@.region_first_block(self.spec_raw().ptr as nat) == 0,
            },
    {
        let h = self.raw.ptr;
        if 1 <= h && h <= ctx.store.num_regions() {
            let n = ctx.store.region_first_block_at(h);
            Block::try_from_raw(RawBlock { ptr: n })
        } else {
            None
        }
    }

    /// The next sibling region of the same operation; absent at the end of
    /// the list.
    pub fn next(&self, ctx: &Context) -> (r: Option<Region>)
        requires
            ctx@.wf(),
        ensures
            match r {
                Some(rg) => rg.spec_raw().ptr as nat == ctx@.region_next(
                    self.spec_raw().ptr as nat,
                ) && rg.spec_raw().ptr != 0,
                None => ctx@.region_next(self.spec_raw().ptr as nat) == 0,
            },
    {
        let h = self.raw.ptr;
        if 1 <= h && h <= ctx.store.num_regions() {
            let n = ctx.store.region_next_at(h);
            Region::try_from_raw(RawRegion { ptr: n })
        } else {
            None
        }
    }
}

impl Block {
    /// The block's first operation; absent when the block is empty, rather
    /// than a failure — an empty block is an ordinary state.
    pub fn first_op(&self, ctx: &Context) -> (r: Option<Operation>)
        requires
            ctx@.wf(),
        ensures
            match r {
                Some(o) => o.spec_raw().ptr as nat == ctx@.block_first_op(
                    self.spec_raw().ptr as nat,
                ) && o.spec_raw().ptr != 0,
                None => ctx@.block_first_op(self.spec_raw().ptr as nat) == 0,
            },
    {
        let h = self.raw.ptr;
        if 1 <= h && h <= ctx.store.num_blocks() {
            let n = ctx.store.block_first_op_at(h);
            Operation::try_from_raw(RawOperation { ptr: n })
        } else {
            None
        }
    }
}

impl Value {
    /// The value's type. Absent exactly when the handle names no value of
    /// this context.
    pub fn get_type(&self, ctx: &Context) -> (r: Option<Type>)
        requires
            ctx@.wf(),
        ensures
            match r {
                Some(t) => ctx@.valid_value(self.spec_raw().ptr as nat) && t.spec_raw().ptr
                    as nat == ctx@.value_ty(self.spec_raw().ptr as nat),
                None => !ctx@.valid_value(self.spec_raw().ptr as nat),
            },
    {
        let h = self.raw.ptr;
        if 1 <= h && h <= ctx.store.num_values() {
            proof {
                assert(ctx@.valid_type(ctx@.values[h as int - 1].ty));
            }
            let t = ctx.store.value_ty_at(h);
            Type::try_from_raw(RawType { ptr: t })
        } else {
            None
        }
    }
}

impl Type {
    /// Interns the type named by nonempty text into the context: the first
    /// existing type with that name, or a fresh one. Empty text is rejected
    /// as absence.
    pub fn parse(ctx: &mut Context, s: &str) -> (r: Option<Type>)
        requires
            old(ctx)@.wf(),
        ensures
            final(ctx)@.wf(),
            store_extends(old(ctx)@, final(ctx)@),
            final(ctx).spec_raw() == old(ctx).spec_raw(),
            final(ctx)@.attrs == old(ctx)@.attrs,
            final(ctx)@.values == old(ctx)@.values,
            final(ctx)@.ops == old(ctx)@.ops,
            final(ctx)@.regions == old(ctx)@.regions,
            final(ctx)@.blocks == old(ctx)@.blocks,
            final(ctx)@.modules == old(ctx)@.modules,
            final(ctx)@.dialects == old(ctx)@.dialects,
            match r {
                Some(t) => s.spec_bytes().len() > 0 && final(ctx)@.valid_type(
                    t.spec_raw().ptr as nat,
                ) && final(ctx)@.ident_text(final(ctx)@.ty_name(t.spec_raw().ptr as nat))
                    == s.spec_bytes() && (forall|k: nat|
                    1 <= k < t.spec_raw().ptr as nat ==> final(ctx)@.ident_text(
                        #[trigger] final(ctx)@.ty_name(k),
                    ) != s.spec_bytes()),
                None => s.spec_bytes().len() == 0,
            },
    {
        let key = s.as_bytes();
        if key.len() == 0 {
            proof {
                crate::store::lemma_extends_refl(old(ctx)@);
            }
            return None;
        }
        let n = ctx.store.num_types();
        let mut i: usize = 0;
        while i < n
            invariant
                ctx@ == old(ctx)@,
                ctx@.wf(),
                n as nat == ctx@.types.len(),
                i <= n,
                key@ == s.spec_bytes(),
                key@.len() > 0,
                forall|k: nat|
                    1 <= k <= i ==> ctx@.ident_text(#[trigger] ctx@.ty_name(k))
                        != s.spec_bytes(),
            decreases n - i,
        {
            let nm = ctx.store.ty_name_at(i + 1);
            proof {
                assert(ctx@.valid_ident(ctx@.types[i as int].name));
            }
            let b = ctx.store.ident_at(nm);
            if crate::store::bytes_eq(b.as_slice(), key) {
                proof {
                    crate::store::lemma_extends_refl(old(ctx)@);
                }
                return Some(Type { raw: RawType { ptr: i + 1 } });
            }
            i = i + 1;
        }
        let ghost scanned = ctx@;
        let idh = ctx.store.intern_ident(key);
        let ghost mid = ctx@;
        let th = ctx.store.alloc_type(idh);
        proof {
            crate::store::lemma_extends_trans(scanned, mid, ctx@);
            assert forall|k: nat| 1 <= k < th as nat implies ctx@.ident_text(
                #[trigger] ctx@.ty_name(k),
            ) != s.spec_bytes() by {
                crate::store::lemma_prefix_index(scanned.types, ctx@.types, k as int - 1);
                assert(scanned.valid_ident(scanned.types[k as int - 1].name));
                crate::store::lemma_prefix_index(
                    scanned.idents,
                    ctx@.idents,
                    scanned.types[k as int - 1].name as int - 1,
                );
                assert(scanned.ident_text(scanned.ty_name(k)) != s.spec_bytes());
                assert(ctx@.ty_name(k) == scanned.ty_name(k));
                assert(ctx@.ident_text(ctx@.ty_name(k)) == scanned.ident_text(
                    scanned.ty_name(k),
                ));
            }
        }
        Some(Type { raw: RawType { ptr: th } })
    }
}

/// The recoverable error of reading borrowed bytes as text: the bytes do
/// not decode, which is distinct from absence.
#[derive(Debug)]
pub struct DecodeError;

/// Raw view of borrowed bytes: a possibly absent pointer-and-length pair.
#[derive(Clone, Copy)]
pub struct RawStringRef<'a> {
    pub data: Option<&'a [u8]>,
}

impl<'a> BindingType for RawStringRef<'a> {
    open spec fn spec_is_null(&self) -> bool {
        self.data is None
    }

    fn is_null(&self) -> (r: bool)
        ensures
            r == self.spec_is_null(),
    {
        self.data.is_none()
    }
}

/// A borrowed view of byte data owned elsewhere: either a caller's string
/// slice or text interned by a context. Its lifetime ties it to that
/// source, so it cannot be read after the source is gone.
pub struct StringRef<'a> {
    raw: RawStringRef<'a>,
}

impl<'a> Wrapper for StringRef<'a> {
    type Inner = RawStringRef<'a>;

    closed spec fn spec_raw(&self) -> RawStringRef<'a> {
        self.raw
    }

    fn raw(&self) -> (r: RawStringRef<'a>)
        ensures
            r == self.spec_raw(),
    {
        self.raw
    }

    fn raw_ref(&self) -> (r: &RawStringRef<'a>)
        ensures
            *r == self.spec_raw(),
    {
        &self.raw
    }

    fn try_from_raw(raw: RawStringRef<'a>) -> (r: Option<StringRef<'a>>)
        ensures
            r is Some ==> r->0.spec_bytes() == raw.data->0@,
    {
        if raw.is_null() {
            None
        } else {
            Some(StringRef { raw })
        }
    }
}

/// Relies on std's `str::from_utf8`: it succeeds exactly on bytes that are
/// valid text, and the returned view is of those same bytes.
#[verifier::external_body]
fn bytes_as_str<'a>(b: &'a [u8]) -> (r: Option<&'a str>)
    ensures
        r is Some <==> vstd::utf8::valid_utf8(b@),
        r matches Some(t) ==> t.spec_bytes() == b@,
{
    std::str::from_utf8(b).ok()
}

/// Relies on std's `writeln` to the standard diagnostic stream; the output
/// is observational only and nothing is claimed of it.
#[verifier::external_body]
fn emit_line(s: &str) {
    let mut err = std::io::stderr();
    let _ = writeln!(err, "{}", s);
}

impl<'a> StringRef<'a> {
    /// The bytes this view denotes; empty for the null view.
    pub open spec fn spec_bytes(&self) -> Seq<u8> {
        match self.spec_raw().data {
            Some(d) => d@,
            None => Seq::empty(),
        }
    }

    /// Borrows a caller-supplied string slice, copying nothing. The view is
    /// valid exactly as long as the slice it was made from.
    pub fn from_str(s: &'a str) -> (r: StringRef<'a>)
        ensures
            !r.spec_raw().spec_is_null(),
            r.spec_bytes() == s.spec_bytes(),
    {
        StringRef { raw: RawStringRef { data: Some(s.as_bytes()) } }
    }

    /// The underlying bytes, borrowed for the view's own lifetime.
    pub fn as_bytes(&self) -> (r: &'a [u8])
        requires
            !self.spec_raw().spec_is_null(),
        ensures
            r@ == self.spec_bytes(),
    {
        self.raw.data.unwrap()
    }

    /// Decodes the bytes as text. Fails recoverably — never by stopping the
    /// program — exactly when the bytes are not valid text.
    pub fn as_str(&self) -> (r: Result<&'a str, DecodeError>)
        requires
            !self.spec_raw().spec_is_null(),
        ensures
            r is Ok <==> vstd::utf8::valid_utf8(self.spec_bytes()),
            r matches Ok(t) ==> t.spec_bytes() == self.spec_bytes() && t@
                == vstd::utf8::decode_utf8(self.spec_bytes()),
    {
        let b = self.as_bytes();
        match bytes_as_str(b) {
            Some(t) => {
                proof {
                    vstd::utf8::encode_utf8_decode_utf8(t@);
                }
                Ok(t)
            },
            None => Err(DecodeError),
        }
    }
}

/// Borrowed-string integrity: a view carrying the bytes of a known text
/// buffer holds valid text, and its bytes decode back to exactly that text.
pub proof fn lemma_string_view_round_trip(s: &str, sr: StringRef)
    requires
        sr.spec_bytes() == s.spec_bytes(),
    ensures
        vstd::utf8::valid_utf8(sr.spec_bytes()),
        vstd::utf8::decode_utf8(sr.spec_bytes()) == s@,
{
    vstd::utf8::encode_utf8_valid_utf8(s@);
    vstd::utf8::encode_utf8_decode_utf8(s@);
}

impl Identifier {
    /// Borrows the identifier's interned text from its context, valid as
    /// long as the context is. Absent exactly when the handle names no
    /// identifier there.
    pub fn to_string_ref<'a>(&self, ctx: &'a Context) -> (r: Option<StringRef<'a>>)
        requires
            ctx@.wf(),
        ensures
            match r {
                Some(sr) => ctx@.valid_ident(self.spec_raw().ptr as nat)
                    && !sr.spec_raw().spec_is_null() && sr.spec_bytes() == ctx@.ident_text(
                    self.spec_raw().ptr as nat,
                ),
                None => !ctx@.valid_ident(self.spec_raw().ptr as nat),
            },
    {
        let h = self.raw.ptr;
        if 1 <= h && h <= ctx.store.num_idents() {
            let v = ctx.store.ident_at(h);
            Some(StringRef { raw: RawStringRef { data: Some(v.as_slice()) } })
        } else {
            None
        }
    }
}

/// Writes the text of an identifier handle to the diagnostic stream, if the
/// handle is valid and its text decodes.
fn emit_ident(ctx: &Context, h: usize)
    requires
        ctx@.wf(),
{
    if 1 <= h && h <= ctx.store.num_idents() {
        let v = ctx.store.ident_at(h);
        match bytes_as_str(v.as_slice()) {
            Some(t) => emit_line(t),
            None => (),
        }
    }
}

impl Operation {
    /// Writes the operation's name to the diagnostic stream. Observational
    /// only; never used for control flow.
    pub fn dump(&self, ctx: &Context)
        requires
            ctx@.wf(),
    {
        let h = self.raw.ptr;
        if 1 <= h && h <= ctx.store.num_ops() {
            let n = ctx.store.op_name_at(h);
            emit_ident(ctx, n);
        }
    }
}

impl Type {
    /// Writes the type's name to the diagnostic stream. Observational only.
    pub fn dump(&self, ctx: &Context)
        requires
            ctx@.wf(),
    {
        let h = self.raw.ptr;
        if 1 <= h && h <= ctx.store.num_types() {
            let n = ctx.store.ty_name_at(h);
            emit_ident(ctx, n);
        }
    }
}

impl Attribute {
    /// Writes the attribute's textual value to the diagnostic stream.
    /// Observational only.
    pub fn dump(&self, ctx: &Context)
        requires
            ctx@.wf(),
    {
        let h = self.raw.ptr;
        if 1 <= h && h <= ctx.store.num_attrs() {
            let n = ctx.store.attr_text_at(h);
            emit_ident(ctx, n);
        }
    }
}

impl NamedAttribute {
    /// Writes the attribute part's textual value to the diagnostic stream.
    /// Observational only.
    pub fn dump(&self, ctx: &Context)
        requires
            ctx@.wf(),
    {
        self.attribute.dump(ctx);
    }
}

impl Value {
    /// Writes the name of the value's type to the diagnostic stream.
    /// Observational only.
    pub fn dump(&self, ctx: &Context)
        requires
            ctx@.wf(),
    {
        match self.get_type(ctx) {
            Some(t) => t.dump(ctx),
            None => (),
        }
    }
}

} // verus!
